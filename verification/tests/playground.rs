use homo::playground::{run_circuit, Session, Value, HELP};

fn inputs(pairs: &[(&str, i64)]) -> Vec<(String, i64)> {
    pairs.iter().map(|(k, v)| (k.to_string(), *v)).collect()
}

#[test]
fn repl_can_add() {
    let mut s = Session::toy();
    s.run_line("a = enc 3");
    s.run_line("b = enc 4");
    s.run_line("c = a + b");
    let (out, _) = s.run_line("dec c");
    assert!(out.trim() == "7", "got {out}");
}

#[test]
fn circuit_evaluates_simple_expression() {
    let src = "input a\ninput b\nt = a + b\nreturn t\n";
    let ins = inputs(&[("a", 5), ("b", 11)]);
    let (result, _log) = run_circuit(src, &ins).unwrap();
    assert_eq!(result, 16);
}

#[test]
fn repl_blank_and_comment_lines_print_nothing() {
    let mut s = Session::toy();
    assert_eq!(s.run_line("   "), (String::new(), false));
    assert_eq!(s.run_line("# a comment"), (String::new(), false));
}

#[test]
fn repl_quit_and_exit_end_the_session() {
    let mut s = Session::toy();
    assert_eq!(s.run_line("quit"), ("bye.\n".to_string(), true));
    assert_eq!(s.run_line("  exit  "), ("bye.\n".to_string(), true));
}

#[test]
fn repl_help_prints_the_help_text() {
    let mut s = Session::toy();
    let (out, exit) = s.run_line("help");
    assert_eq!(out, HELP);
    assert!(!exit);
}

#[test]
fn repl_plain_arithmetic_is_exact() {
    let mut s = Session::toy();
    assert_eq!(s.run_line("2 + 3").0, "5\n");
    assert_eq!(s.run_line("2 * 3 + 4").0, "10\n");
    assert_eq!(s.run_line("10-3").0, "7\n");
    assert_eq!(s.run_line("10--3").0, "13\n");
    assert_eq!(s.run_line("-7").0, "-7\n");
}

#[test]
fn repl_plain_variables_and_dec() {
    let mut s = Session::toy();
    s.run_line("x = 41");
    assert_eq!(s.run_line("x + 1").0, "42\n");
    assert_eq!(s.run_line("dec x").0, "41\n");
}

#[test]
fn repl_reports_undefined_names() {
    let mut s = Session::toy();
    assert_eq!(s.run_line("dec nope").0, "error: 'nope' not defined\n");
    assert_eq!(s.run_line("y = zz").0, "error: undefined: zz\n");
    assert_eq!(s.run_line("noise q").0, "'q' is not a ciphertext\n");
}

#[test]
fn repl_refuses_double_encryption_and_cipher_subtraction() {
    let mut s = Session::toy();
    s.run_line("a = enc 5");
    assert_eq!(s.run_line("b = enc a").0, "error: enc: argument is already encrypted\n");
    assert_eq!(
        s.run_line("a-1").0,
        "error: subtraction on ciphertexts not yet implemented\n"
    );
}

#[test]
fn repl_minus_after_a_space_reads_as_a_sign() {
    let mut s = Session::toy();
    assert_eq!(s.run_line("10 - 3").0, "error: undefined: 10 - 3\n");
}

#[test]
fn repl_vars_lists_bindings_in_order() {
    let mut s = Session::toy();
    s.run_line("a = enc 1");
    s.run_line("b = 2");
    let (out, _) = s.run_line("vars");
    assert_eq!(out, "\nDefined variables:\n  a  (cipher)\n  b  (plain)\n");
}

#[test]
fn repl_rebinding_replaces_the_value() {
    let mut s = Session::toy();
    s.run_line("a = 1");
    s.run_line("a = 2");
    assert_eq!(s.env.len(), 1);
    assert!(matches!(s.env[0].1, Value::Plain(2)));
}

#[test]
fn repl_multiplies_and_mixes_plaintexts() {
    let mut s = Session::toy();
    s.run_line("a = enc 6");
    s.run_line("b = a * 7");
    assert_eq!(s.run_line("dec b").0, "42\n");
    s.run_line("c = a + 4");
    assert_eq!(s.run_line("dec c").0, "10\n");
}

#[test]
fn repl_negative_plaintexts_wrap_modulo_t() {
    let mut s = Session::toy();
    s.run_line("a = enc -1");
    assert_eq!(s.run_line("dec a").0, "255\n");
}

#[test]
fn repl_noise_reports_whole_bits() {
    let mut s = Session::toy();
    s.run_line("a = enc 3");
    let (out, _) = s.run_line("noise a");
    assert!(out.starts_with("a: ‖·‖∞ ≈ "), "got {out}");
    assert!(out.ends_with(".0 bits\n"), "got {out}");
}

#[test]
fn circuit_reports_parse_and_input_errors() {
    let none: Vec<(String, i64)> = Vec::new();
    assert_eq!(
        run_circuit("input a\n", &none).unwrap_err(),
        "missing input: a"
    );
    assert_eq!(
        run_circuit("# only a comment\n\nnonsense\n", &none).unwrap_err(),
        "line 3: cannot parse 'nonsense'"
    );
    assert_eq!(
        run_circuit("x = 1\n", &none).unwrap_err(),
        "circuit ended without return"
    );
    assert_eq!(
        run_circuit("return y\n", &none).unwrap_err(),
        "return of undefined: y"
    );
    assert_eq!(
        run_circuit("x = q + 1\nreturn x\n", &none).unwrap_err(),
        "line 1: undefined: q"
    );
}

#[test]
fn circuit_plain_return_and_log() {
    let none: Vec<(String, i64)> = Vec::new();
    let (r, log) = run_circuit("x = 2 * 3  # six\nreturn x\n", &none).unwrap();
    assert_eq!(r, 6);
    assert_eq!(log, "x = 2 * 3    (plain)\nreturn x → 6\n");
}

#[test]
fn circuit_later_input_entries_win() {
    let ins = inputs(&[("a", 1), ("a", 9)]);
    let (r, _) = run_circuit("input a\nreturn a\n", &ins).unwrap();
    assert_eq!(r, 9);
}

#[test]
fn circuit_product_with_constant() {
    let ins = inputs(&[("a", 2), ("b", 3), ("c", 4)]);
    let src = "# Compute (a + b) * (c + 3)\ninput a\ninput b\ninput c\nt1 = a + b\nt2 = c + 3\nout = t1 * t2\nreturn out\n";
    let (r, _) = run_circuit(src, &ins).unwrap();
    assert_eq!(r, 35);
}

#[test]
fn readme_lab_session_with_parentheses() {
    let mut s = Session::toy();
    for l in ["a = enc 17", "b = enc 25", "c = a + b"] {
        s.run_line(l);
    }
    assert_eq!(s.run_line("dec c"), ("42\n".to_string(), false));
    s.run_line("d = c * (enc 2)");
    assert_eq!(s.run_line("dec d").0.trim(), "84");
}

#[test]
fn parentheses_group_plaintext_arithmetic() {
    let mut s = Session::toy();
    assert_eq!(s.run_line("(2 + 3) * 4").0, "20\n");
    assert_eq!(s.run_line("2 * (3 + 4)").0, "14\n");
    assert_eq!(s.run_line("10-(3-2)").0, "9\n");
    assert_eq!(s.run_line("((7))").0, "7\n");
}

#[test]
fn encrypted_sum_evaluates_to_its_plaintext() {
    let mut s = Session::toy();
    s.run_line("x = enc 200");
    assert_eq!(s.run_line("x + 100").0, "(ciphertext, dec → 44)\n");
}

#[test]
fn circuit_of_additions_returns_the_sum() {
    let src = "input a\ninput b\nt = a + b\nreturn t\n";
    let inputs = vec![("a".to_string(), 5i64), ("b".to_string(), 11i64)];
    let (v, log) = run_circuit(src, &inputs).unwrap();
    assert_eq!(v, 16);
    assert!(log.ends_with("return t → 16\n"));
}

#[test]
fn circuit_with_a_product_returns_the_product() {
    let src = "# Compute (a + b) * (c + 3)\ninput a\ninput b\ninput c\nt1 = a + b\nt2 = c + 3\nout = t1 * t2\nreturn out\n";
    let inputs = vec![("a".to_string(), 1i64), ("b".to_string(), 2i64), ("c".to_string(), 4i64)];
    let (v, log) = run_circuit(src, &inputs).unwrap();
    assert_eq!(v, 21);
    assert!(log.ends_with("return out → 21\n"));
}

#[test]
fn reassignment_leaves_other_bindings_alone() {
    let mut s = Session::toy();
    s.run_line("a = enc 3");
    s.run_line("b = enc 4");
    s.run_line("a = 9");
    assert_eq!(s.run_line("dec b").0, "4\n");
    assert_eq!(s.run_line("dec a").0, "9\n");
}
