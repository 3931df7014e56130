use homo::bigint::{IBig, UBig};
use homo::schemes::bfv;
use homo::schemes::paillier;
use homo::viz::{
    anatomy_bfv, render_trace, short_int, short_uint, trace_bfv_add, trace_paillier_add, trace_paillier_steps, TraceStep,
};

#[test]
fn render_trace_does_not_panic() {
    let steps = trace_paillier_add(3, 5, 64).unwrap();
    let s = render_trace("Paillier addition", &steps);
    assert!(s.contains("homomorphic add"));
}

#[test]
fn short_numbers_keep_their_ends() {
    assert_eq!(short_int(&IBig::from_i64(-42)), "-42");
    assert_eq!(short_uint(&UBig::from_u64(255)), "255 (8bits)");
    let big = UBig::from_u128(123456789012345678901234567890);
    assert_eq!(short_uint(&big), "12345678…34567890 (97bits)");
}

#[test]
fn trace_steps_render_in_order() {
    let steps = vec![
        TraceStep::new("one", "first line\nsecond line"),
        TraceStep::new("two", "x").with_snapshot(&"y".repeat(100)),
    ];
    let s = render_trace("T", &steps);
    let i1 = s.find("one").unwrap();
    let i2 = s.find("two").unwrap();
    assert!(i1 < i2);
    assert!(s.contains("second line"));
    assert!(s.contains(&format!("{} … {}", "y".repeat(37), "y".repeat(37))));
    assert!(s.contains("[ 1]") && s.contains("[ 2]"));
}

#[test]
fn bfv_trace_reports_the_sum() {
    let steps = trace_bfv_add(20, 22);
    assert_eq!(steps.len(), 5);
    assert_eq!(steps[0].label, "keygen");
    assert_eq!(steps[1].detail, "Encrypted vector [20].");
    assert_eq!(
        steps[4].snapshot.as_deref(),
        Some("recovered = 42, expected 42")
    );
}

#[test]
fn bfv_anatomy_counts_components() {
    let params = bfv::Params::toy();
    let (pk, _sk) = bfv::keygen(&params);
    let ct = bfv::encrypt(&pk, &[1]);
    let s = anatomy_bfv(&ct);
    assert!(s.contains("ring degree n  = 1024"));
    assert!(s.contains("components     = 2"));
    assert!(s.contains("(q has 60 bits)"));
    assert!(!s.contains("c₂·s²"));
    let sq = anatomy_bfv(&bfv::mul(&ct, &ct));
    assert!(sq.contains("c₂·s²"));
}

#[test]
fn bfv_trace_sum_wraps_modulo_t() {
    let steps = trace_bfv_add(200, 100);
    assert_eq!(
        steps[4].snapshot.as_deref(),
        Some("recovered = 44, expected 300")
    );
}

#[test]
fn paillier_trace_decrypts_the_sum() {
    let steps = trace_paillier_add(3, 5, 64).unwrap();
    assert_eq!(steps.len(), 5);
    assert_eq!(steps[4].snapshot.as_deref(), Some("m_sum = 8 (expected 8)"));
}

#[test]
fn paillier_trace_from_a_fixed_key_and_randomness() {
    let (pk, sk) = paillier::key_from_primes(&UBig::from_u64(11), &UBig::from_u64(13), 4).unwrap();
    let one = UBig::from_u64(1);
    let steps = trace_paillier_steps(&pk, &sk, 3, 5, 8, &one, &one);
    let labels: Vec<&str> = steps.iter().map(|s| s.label.as_str()).collect();
    assert_eq!(labels, ["keygen", "enc(a)", "enc(b)", "homomorphic add", "decrypt"]);
    assert_eq!(steps[0].snapshot.as_deref(), Some("n = 143 (8bits)"));
    assert_eq!(steps[1].snapshot.as_deref(), Some("c_a = 430 (9bits)"));
    assert_eq!(steps[2].snapshot.as_deref(), Some("c_b = 716 (10bits)"));
    assert_eq!(steps[3].snapshot.as_deref(), Some("c_sum = 1145 (11bits)"));
    assert_eq!(steps[4].snapshot.as_deref(), Some("m_sum = 8 (expected 8)"));
}
