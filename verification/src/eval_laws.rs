//! Laws of the expression evaluator on integer literals, in every
//! environment: `+` and `-` have equal precedence and associate to the left
//! (`a - b + c` is `(a - b) + c`, `a - b - c` is `(a - b) - c`), `*` binds
//! tighter than both (`a + b * c` is `a + (b * c)`, `a * b - c` is
//! `(a * b) - c`), parentheses group (`a-(b-c)` subtracts `b - c` from
//! `a`), and a `-` right after an operator is a sign (`a--b` is `a - (-b)`).

use vstd::prelude::*;
use crate::playground::{
    eval_shape, split_op, top_op_from, op_at, paren_depth, paren_step, enclosed, apply_shape,
    Outcome, Shape,
};
use crate::text::{
    trim_seq, strip_prefix_seq, parse_i64_seq, parse_int_seq, all_digits, digits_value, is_digit,
    is_ws, skip_ws, drop_ws_end,
};

verus! {

/// Text made of decimal digits and the operators `+`, `-` and `*` only.
pub open spec fn plain_text(s: Seq<char>) -> bool {
    forall|j: int|
        0 <= j < s.len() ==> (is_digit(#[trigger] s[j]) || s[j] == '+' || s[j] == '-' || s[j] == '*')
}

/// A non-empty run of decimal digits whose value fits an `i64`.
pub open spec fn i64_literal(a: Seq<char>) -> bool {
    &&& a.len() > 0
    &&& all_digits(a)
    &&& digits_value(a) <= i64::MAX
}

/// The plaintext value of an integer literal.
pub open spec fn lit(a: Seq<char>) -> int {
    digits_value(a)
}

/// An expression splits at `c` before it looks for `o` (`+`, then `-`,
/// then `*`).
pub open spec fn tried_before(c: char, o: char) -> bool {
    (c == '+' && o != '+') || (c == '-' && o == '*')
}

/// `c` does not occur in `s`.
pub open spec fn lacks(s: Seq<char>, c: char) -> bool {
    forall|j: int| 0 <= j < s.len() ==> #[trigger] s[j] != c
}

/// Text that starts and ends with a digit, made of digits and operators.
pub open spec fn operand_text(s: Seq<char>) -> bool {
    &&& s.len() > 0
    &&& plain_text(s)
    &&& is_digit(s[0])
    &&& is_digit(s[s.len() - 1])
}

proof fn lemma_trim_keeps(s: Seq<char>)
    requires
        s.len() > 0,
        !is_ws(s[0]),
        !is_ws(s[s.len() - 1]),
    ensures
        trim_seq(s) == s,
{
    assert(skip_ws(s, 0) == 0);
    assert(drop_ws_end(s, 0, s.len() as int) == s.len());
    assert(s.subrange(0, s.len() as int) =~= s);
}

proof fn lemma_depth_zero(s: Seq<char>, i: int)
    requires
        forall|j: int|
            0 <= j < i ==> (is_digit(#[trigger] s[j]) || s[j] == '+' || s[j] == '-' || s[j] == '*'),
        0 <= i <= s.len(),
    ensures
        paren_depth(s, i) == 0,
    decreases i,
{
    if i > 0 {
        lemma_depth_zero(s, i - 1);
        assert(is_digit(s[i - 1]) || s[i - 1] == '+' || s[i - 1] == '-' || s[i - 1] == '*');
    }
}

proof fn lemma_top_op_none(s: Seq<char>, op: char, i: int)
    requires
        forall|j: int| 1 <= j <= i && j < s.len() ==> #[trigger] s[j] != op,
    ensures
        top_op_from(s, op, i) is None,
    decreases i,
{
    if i >= 1 && i < s.len() {
        lemma_top_op_none(s, op, i - 1);
    }
}

proof fn lemma_top_op_absent(s: Seq<char>, op: char, i: int)
    requires
        forall|j: int| 1 <= j <= i && j < s.len() ==> !#[trigger] op_at(s, op, j),
    ensures
        top_op_from(s, op, i) is None,
    decreases i,
{
    if i >= 1 && i < s.len() {
        assert(!op_at(s, op, i));
        lemma_top_op_absent(s, op, i - 1);
    }
}

/// Inside a group opened at `start` (outside all parentheses) and free of
/// parentheses, the nesting depth is one.
proof fn lemma_depth_group(s: Seq<char>, start: int, len: int, j: int)
    requires
        0 <= start,
        start + 1 + len <= s.len(),
        paren_depth(s, start) == 0,
        s[start] == '(',
        forall|i: int| start < i < start + 1 + len ==> #[trigger] paren_step(s[i]) == 0,
        0 <= j <= len,
    ensures
        paren_depth(s, start + 1 + j) == 1,
    decreases j,
{
    if j > 0 {
        lemma_depth_group(s, start, len, j - 1);
        assert(paren_step(s[start + j]) == 0);
    }
}

proof fn lemma_top_op_found(s: Seq<char>, op: char, i: int, k: int)
    requires
        1 <= k <= i < s.len(),
        op_at(s, op, k),
        forall|j: int| k < j <= i ==> !#[trigger] op_at(s, op, j),
    ensures
        top_op_from(s, op, i) == Some(k),
    decreases i,
{
    if i > k {
        assert(!op_at(s, op, i));
        lemma_top_op_found(s, op, i - 1, k);
    }
}

proof fn lemma_not_enc(e: Seq<char>)
    requires
        e.len() > 0,
        e[0] != 'e',
    ensures
        strip_prefix_seq(e, "enc "@) is None,
{
    reveal_strlit("enc ");
    if 4 <= e.len() && e.take(4) == "enc "@ {
        assert(e.take(4)[0] == e[0]);
    }
}

/// What an integer literal is made of.
proof fn lemma_literal_text(a: Seq<char>)
    requires
        i64_literal(a),
    ensures
        operand_text(a),
        lacks(a, '+'),
        lacks(a, '-'),
        lacks(a, '*'),
        0 <= lit(a) <= i64::MAX,
{
    assert forall|j: int| 0 <= j < a.len() implies is_digit(#[trigger] a[j]) && a[j] != '+' && a[j]
        != '-' && a[j] != '*' by {}
    assert(is_digit(a[0]) && is_digit(a[a.len() - 1]));
    crate::text::lemma_digits_value_nonneg(a);
}

/// An integer literal evaluates to its value.
proof fn lemma_eval_literal(env: Seq<(Seq<char>, Shape)>, a: Seq<char>)
    requires
        i64_literal(a),
    ensures
        eval_shape(env, a) == Outcome::Done(Shape::Plain(lit(a) as i64)),
{
    lemma_literal_text(a);
    lemma_not_enc(a);
    lemma_top_op_none(a, '+', a.len() - 1);
    lemma_top_op_none(a, '-', a.len() - 1);
    lemma_top_op_none(a, '*', a.len() - 1);
    assert(split_op(a) is None);
    assert(!enclosed(a));
    assert(parse_int_seq(a) == Some(digits_value(a)));
    assert(parse_i64_seq(a) == Some(digits_value(a) as i64));
}

/// The characters of `l + [o] + r`.
proof fn lemma_join_facts(l: Seq<char>, o: char, r: Seq<char>)
    ensures
        ({
            let e = l + seq![o] + r;
            &&& e.len() == l.len() + 1 + r.len()
            &&& forall|j: int| 0 <= j < l.len() ==> #[trigger] e[j] == l[j]
            &&& e[l.len() as int] == o
            &&& forall|j: int| 0 <= j < r.len() ==> #[trigger] e[l.len() + 1 + j] == r[j]
            &&& e.take(l.len() as int) =~= l
            &&& e.skip(l.len() as int + 1) =~= r
        }),
{
    let e = l + seq![o] + r;
    assert forall|j: int| 0 <= j < r.len() implies #[trigger] e[l.len() + 1 + j] == r[j] by {}
    assert(e.take(l.len() as int) =~= l);
    assert(e.skip(l.len() as int + 1) =~= r);
}

/// A character missing from `l`, `r` and unequal to `o` is missing from
/// `l + [o] + r`.
proof fn lemma_join_lacks(l: Seq<char>, o: char, r: Seq<char>, c: char)
    requires
        lacks(l, c),
        lacks(r, c),
        c != o,
    ensures
        lacks(l + seq![o] + r, c),
{
    let e = l + seq![o] + r;
    lemma_join_facts(l, o, r);
    assert forall|j: int| 0 <= j < e.len() implies #[trigger] e[j] != c by {
        if j < l.len() {
            assert(e[j] == l[j]);
        } else if j > l.len() {
            assert(e[l.len() + 1 + (j - l.len() - 1)] == r[j - l.len() - 1]);
        }
    }
}

/// Operands joined by an operator: `l + [o] + r` is operand text.
proof fn lemma_join_operand(l: Seq<char>, o: char, r: Seq<char>)
    requires
        operand_text(l),
        operand_text(r),
        o == '+' || o == '-' || o == '*',
    ensures
        operand_text(l + seq![o] + r),
{
    let e = l + seq![o] + r;
    lemma_join_facts(l, o, r);
    assert forall|j: int| 0 <= j < e.len() implies (is_digit(#[trigger] e[j]) || e[j] == '+' || e[j]
        == '-' || e[j] == '*') by {
        if j < l.len() {
            assert(e[j] == l[j]);
        } else if j > l.len() {
            assert(e[l.len() + 1 + (j - l.len() - 1)] == r[j - l.len() - 1]);
        }
    }
    assert(e[e.len() - 1] == r[r.len() - 1]) by {
        assert(e[l.len() + 1 + (r.len() - 1)] == r[r.len() - 1]);
    }
}

/// Evaluation splits `l + [o] + r` at `o`, when `r` holds no operator the
/// split looks for at or before `o`, and `l` none it looks for before `o`:
/// the operator applies to the values of both sides.
#[verifier::spinoff_prover]
proof fn lemma_eval_split(env: Seq<(Seq<char>, Shape)>, l: Seq<char>, o: char, r: Seq<char>)
    requires
        operand_text(l),
        operand_text(r),
        o == '+' || o == '-' || o == '*',
        lacks(r, o),
        tried_before('+', o) ==> lacks(l, '+') && lacks(r, '+'),
        tried_before('-', o) ==> lacks(l, '-') && lacks(r, '-'),
    ensures
        eval_shape(env, l + seq![o] + r) == match eval_shape(env, l) {
            Outcome::Done(x) => match eval_shape(env, r) {
                Outcome::Done(y) => apply_shape(o, x, y),
                other => other,
            },
            other => other,
        },
        operand_text(l + seq![o] + r),
{
    let e = l + seq![o] + r;
    let k = l.len() as int;
    lemma_join_facts(l, o, r);
    lemma_join_operand(l, o, r);
    lemma_depth_zero(e, k);
    assert(e[k - 1] == l[k - 1]);
    assert(op_at(e, o, k));
    assert forall|j: int| k < j <= e.len() - 1 implies !#[trigger] op_at(e, o, j) by {
        assert(e[k + 1 + (j - k - 1)] == r[j - k - 1]);
    }
    lemma_top_op_found(e, o, e.len() - 1, k);
    if tried_before('+', o) {
        lemma_join_lacks(l, o, r, '+');
        lemma_top_op_none(e, '+', e.len() - 1);
    }
    if tried_before('-', o) {
        lemma_join_lacks(l, o, r, '-');
        lemma_top_op_none(e, '-', e.len() - 1);
    }
    assert(split_op(e) == Some((o, k)));
    assert(e[0] == l[0]);
    lemma_not_enc(e);
    lemma_trim_keeps(l);
    lemma_trim_keeps(r);
}

/// `a ∘ b` on literals, for an operator `∘`.
proof fn lemma_eval_pair(env: Seq<(Seq<char>, Shape)>, a: Seq<char>, o: char, b: Seq<char>)
    requires
        i64_literal(a),
        i64_literal(b),
        o == '+' || o == '-' || o == '*',
    ensures
        eval_shape(env, a + seq![o] + b) == apply_shape(
            o,
            Shape::Plain(lit(a) as i64),
            Shape::Plain(lit(b) as i64),
        ),
        operand_text(a + seq![o] + b),
        lacks(a + seq![o] + b, '+') <== o != '+',
        lacks(a + seq![o] + b, '-') <== o != '-',
        lacks(a + seq![o] + b, '*') <== o != '*',
{
    lemma_literal_text(a);
    lemma_literal_text(b);
    lemma_eval_split(env, a, o, b);
    lemma_eval_literal(env, a);
    lemma_eval_literal(env, b);
    if o != '+' {
        lemma_join_lacks(a, o, b, '+');
    }
    if o != '-' {
        lemma_join_lacks(a, o, b, '-');
    }
    if o != '*' {
        lemma_join_lacks(a, o, b, '*');
    }
}

/// Subtraction then addition associate to the left: for integer literals
/// `a`, `b`, `c`, the expression `a-b+c` evaluates, in every environment,
/// to the plaintext `(a - b) + c` whenever that value fits an `i64`.
pub proof fn law_sub_then_add(env: Seq<(Seq<char>, Shape)>, a: Seq<char>, b: Seq<char>, c: Seq<char>)
    requires
        i64_literal(a),
        i64_literal(b),
        i64_literal(c),
        i64::MIN <= (lit(a) - lit(b)) + lit(c) <= i64::MAX,
    ensures
        eval_shape(env, a + seq!['-'] + b + seq!['+'] + c) == Outcome::Done(
            Shape::Plain(((lit(a) - lit(b)) + lit(c)) as i64),
        ),
{
    lemma_eval_pair(env, a, '-', b);
    lemma_literal_text(a);
    lemma_literal_text(b);
    lemma_literal_text(c);
    lemma_eval_split(env, a + seq!['-'] + b, '+', c);
    lemma_eval_literal(env, c);
}

/// Subtraction associates to the left: for integer literals `a`, `b`, `c`,
/// the expression `a-b-c` evaluates, in every environment, to the plaintext
/// `(a - b) - c` whenever that value fits an `i64`.
pub proof fn law_sub_then_sub(env: Seq<(Seq<char>, Shape)>, a: Seq<char>, b: Seq<char>, c: Seq<char>)
    requires
        i64_literal(a),
        i64_literal(b),
        i64_literal(c),
        i64::MIN <= (lit(a) - lit(b)) - lit(c) <= i64::MAX,
    ensures
        eval_shape(env, a + seq!['-'] + b + seq!['-'] + c) == Outcome::Done(
            Shape::Plain(((lit(a) - lit(b)) - lit(c)) as i64),
        ),
{
    lemma_eval_pair(env, a, '-', b);
    lemma_literal_text(a);
    lemma_literal_text(b);
    lemma_literal_text(c);
    lemma_eval_split(env, a + seq!['-'] + b, '-', c);
    lemma_eval_literal(env, c);
}

/// Multiplication binds tighter than addition: for integer literals `a`,
/// `b`, `c`, the expression `a+b*c` evaluates, in every environment, to the
/// plaintext `a + (b * c)` whenever `b * c` and that sum fit an `i64`.
pub proof fn law_mul_before_add(env: Seq<(Seq<char>, Shape)>, a: Seq<char>, b: Seq<char>, c: Seq<char>)
    requires
        i64_literal(a),
        i64_literal(b),
        i64_literal(c),
        lit(b) * lit(c) <= i64::MAX,
        lit(a) + lit(b) * lit(c) <= i64::MAX,
    ensures
        eval_shape(env, a + seq!['+'] + (b + seq!['*'] + c)) == Outcome::Done(
            Shape::Plain((lit(a) + lit(b) * lit(c)) as i64),
        ),
{
    lemma_eval_pair(env, b, '*', c);
    lemma_literal_text(a);
    lemma_literal_text(b);
    lemma_literal_text(c);
    assert(0 <= lit(b) * lit(c)) by (nonlinear_arith)
        requires
            0 <= lit(b),
            0 <= lit(c),
    ;
    lemma_eval_split(env, a, '+', b + seq!['*'] + c);
    lemma_eval_literal(env, a);
}

/// Multiplication binds tighter than subtraction: for integer literals `a`,
/// `b`, `c`, the expression `a*b-c` evaluates, in every environment, to the
/// plaintext `(a * b) - c` whenever `a * b` fits an `i64`.
pub proof fn law_mul_before_sub(env: Seq<(Seq<char>, Shape)>, a: Seq<char>, b: Seq<char>, c: Seq<char>)
    requires
        i64_literal(a),
        i64_literal(b),
        i64_literal(c),
        lit(a) * lit(b) <= i64::MAX,
    ensures
        eval_shape(env, a + seq!['*'] + b + seq!['-'] + c) == Outcome::Done(
            Shape::Plain((lit(a) * lit(b) - lit(c)) as i64),
        ),
{
    lemma_eval_pair(env, a, '*', b);
    lemma_literal_text(a);
    lemma_literal_text(b);
    lemma_literal_text(c);
    assert(0 <= lit(a) * lit(b)) by (nonlinear_arith)
        requires
            0 <= lit(a),
            0 <= lit(b),
    ;
    lemma_eval_split(env, a + seq!['*'] + b, '-', c);
    lemma_eval_literal(env, c);
}

/// A group `(m)` around operand text without `+` or `*` evaluates as `m`.
#[verifier::spinoff_prover]
proof fn lemma_eval_group(env: Seq<(Seq<char>, Shape)>, m: Seq<char>)
    requires
        operand_text(m),
        lacks(m, '+'),
        lacks(m, '*'),
    ensures
        eval_shape(env, seq!['('] + m + seq![')']) == eval_shape(env, m),
        (seq!['('] + m + seq![')']).len() == m.len() + 2,
        (seq!['('] + m + seq![')'])[0] == '(',
        (seq!['('] + m + seq![')'])[m.len() as int + 1] == ')',
        forall|j: int| 0 <= j < m.len() ==> #[trigger] (seq!['('] + m + seq![')'])[1 + j] == m[j],
{
    let g = seq!['('] + m + seq![')'];
    assert(g.len() == m.len() + 2);
    assert(g[0] == '(' && g[g.len() - 1] == ')');
    assert forall|j: int| 0 <= j < m.len() implies #[trigger] g[1 + j] == m[j] by {}
    assert(g.subrange(1, g.len() - 1) =~= m);
    assert forall|i: int| 0 < i < 1 + m.len() implies #[trigger] paren_step(g[i]) == 0 by {
        assert(g[1 + (i - 1)] == m[i - 1]);
        assert(is_digit(m[i - 1]) || m[i - 1] == '+' || m[i - 1] == '-' || m[i - 1] == '*');
    }
    assert forall|j: int| 1 <= j <= g.len() - 1 && j < g.len() implies !#[trigger] op_at(g, '-', j) by {
        if j < g.len() - 1 {
            lemma_depth_group(g, 0, m.len() as int, j - 1);
        }
    }
    assert forall|j: int| 1 <= j <= g.len() - 1 && j < g.len() implies #[trigger] g[j] != '+' && g[j]
        != '*' by {
        if j < g.len() - 1 {
            assert(g[1 + (j - 1)] == m[j - 1]);
        }
    }
    lemma_top_op_none(g, '+', g.len() - 1);
    lemma_top_op_absent(g, '-', g.len() - 1);
    lemma_top_op_none(g, '*', g.len() - 1);
    assert(split_op(g) is None);
    lemma_not_enc(g);
    assert(is_digit(m[0]) && is_digit(m[m.len() - 1]));
    lemma_trim_keeps(m);
    assert(eval_shape(env, g) == eval_shape(env, m));
}

/// Parentheses group: for integer literals `a`, `b`, `c`, the expression
/// `a-(b-c)` evaluates, in every environment, to the plaintext `a - (b - c)`
/// whenever that value fits an `i64`.
#[verifier::spinoff_prover]
pub proof fn law_group_sub(env: Seq<(Seq<char>, Shape)>, a: Seq<char>, b: Seq<char>, c: Seq<char>)
    requires
        i64_literal(a),
        i64_literal(b),
        i64_literal(c),
        lit(a) - (lit(b) - lit(c)) <= i64::MAX,
    ensures
        eval_shape(env, a + seq!['-'] + (seq!['('] + (b + seq!['-'] + c) + seq![')'])) == Outcome::Done(
            Shape::Plain((lit(a) - (lit(b) - lit(c))) as i64),
        ),
{
    let m = b + seq!['-'] + c;
    let g = seq!['('] + m + seq![')'];
    let e = a + seq!['-'] + g;
    let k = a.len() as int;
    lemma_eval_pair(env, b, '-', c);
    lemma_literal_text(a);
    lemma_literal_text(b);
    lemma_literal_text(c);
    lemma_eval_group(env, m);
    assert forall|i: int| 0 < i < 1 + m.len() implies #[trigger] paren_step(g[i]) == 0 by {
        assert(g[1 + (i - 1)] == m[i - 1]);
        assert(is_digit(m[i - 1]) || m[i - 1] == '+' || m[i - 1] == '-' || m[i - 1] == '*');
    }
    // the whole splits at the `-` before the group
    lemma_join_facts(a, '-', g);
    assert forall|j: int| 0 <= j < k + 1 implies (is_digit(#[trigger] e[j]) || e[j] == '+' || e[j] == '-'
        || e[j] == '*') by {
        if j < k {
            assert(e[j] == a[j]);
        }
    }
    lemma_depth_zero(e, k);
    lemma_depth_zero(e, k + 1);
    assert(e[k - 1] == a[k - 1]);
    assert(op_at(e, '-', k));
    assert(e[k + 1 + 0] == g[0]);
    assert forall|i: int| k + 1 < i < k + 1 + 1 + m.len() implies #[trigger] paren_step(e[i]) == 0 by {
        assert(e[k + 1 + (i - k - 1)] == g[i - k - 1]);
        assert(paren_step(g[i - k - 1]) == 0);
    }
    assert forall|j: int| k < j <= e.len() - 1 implies !#[trigger] op_at(e, '-', j) by {
        assert(e[k + 1 + (j - k - 1)] == g[j - k - 1]);
        if k + 1 < j < e.len() - 1 {
            lemma_depth_group(e, k + 1, m.len() as int, j - k - 2);
        }
    }
    lemma_top_op_found(e, '-', e.len() - 1, k);
    assert forall|j: int| 1 <= j <= e.len() - 1 && j < e.len() implies #[trigger] e[j] != '+' by {
        if j < k {
            assert(e[j] == a[j]);
        } else if j > k {
            assert(e[k + 1 + (j - k - 1)] == g[j - k - 1]);
            if 0 < j - k - 1 < g.len() - 1 {
                assert(g[1 + (j - k - 2)] == m[j - k - 2]);
            }
        }
    }
    lemma_top_op_none(e, '+', e.len() - 1);
    assert(split_op(e) == Some(('-', k)));
    assert(e[0] == a[0]);
    lemma_not_enc(e);
    lemma_trim_keeps(a);
    lemma_trim_keeps(g);
    lemma_eval_literal(env, a);
}

/// A `-` right after an operator is a sign: for integer literals `a`, `b`,
/// the expression `a--b` evaluates, in every environment, to the plaintext
/// `a - (-b)`, that is `a + b`, whenever that value fits an `i64`.
#[verifier::spinoff_prover]
pub proof fn law_sub_negative(env: Seq<(Seq<char>, Shape)>, a: Seq<char>, b: Seq<char>)
    requires
        i64_literal(a),
        i64_literal(b),
        lit(a) + lit(b) <= i64::MAX,
    ensures
        eval_shape(env, a + seq!['-'] + (seq!['-'] + b)) == Outcome::Done(
            Shape::Plain((lit(a) + lit(b)) as i64),
        ),
{
    let nb = seq!['-'] + b;
    let e = a + seq!['-'] + nb;
    let k = a.len() as int;
    lemma_literal_text(a);
    lemma_literal_text(b);
    // `-b` is a negative literal
    assert forall|j: int| 0 <= j < b.len() implies #[trigger] nb[1 + j] == b[j] by {}
    assert(nb.skip(1) =~= b);
    assert forall|j: int| 1 <= j <= nb.len() - 1 && j < nb.len() implies #[trigger] nb[j] != '+' && nb[j]
        != '-' && nb[j] != '*' by {
        assert(nb[1 + (j - 1)] == b[j - 1]);
    }
    lemma_top_op_none(nb, '+', nb.len() - 1);
    lemma_top_op_none(nb, '-', nb.len() - 1);
    lemma_top_op_none(nb, '*', nb.len() - 1);
    assert(split_op(nb) is None);
    lemma_not_enc(nb);
    assert(!enclosed(nb));
    assert(parse_int_seq(nb) == Some(-digits_value(b)));
    assert(eval_shape(env, nb) == Outcome::Done(Shape::Plain((-lit(b)) as i64)));
    // the whole splits at the first `-`
    lemma_join_facts(a, '-', nb);
    assert forall|j: int| 0 <= j < e.len() implies (is_digit(#[trigger] e[j]) || e[j] == '+' || e[j]
        == '-' || e[j] == '*') by {
        if j < k {
            assert(e[j] == a[j]);
        } else if j > k + 1 {
            assert(e[k + 1 + (j - k - 1)] == nb[j - k - 1]);
            assert(nb[1 + (j - k - 2)] == b[j - k - 2]);
        } else if j == k + 1 {
            assert(e[k + 1 + 0] == nb[0]);
        }
    }
    lemma_depth_zero(e, k);
    assert(e[k - 1] == a[k - 1]);
    assert(op_at(e, '-', k));
    assert forall|j: int| k < j <= e.len() - 1 implies !#[trigger] op_at(e, '-', j) by {
        assert(e[k + 1 + (j - k - 1)] == nb[j - k - 1]);
        if j > k + 1 {
            assert(nb[1 + (j - k - 2)] == b[j - k - 2]);
        } else {
            assert(e[j - 1] == '-');
        }
    }
    lemma_top_op_found(e, '-', e.len() - 1, k);
    assert forall|j: int| 1 <= j <= e.len() - 1 && j < e.len() implies #[trigger] e[j] != '+' by {}
    lemma_top_op_none(e, '+', e.len() - 1);
    assert(split_op(e) == Some(('-', k)));
    assert(e[0] == a[0]);
    lemma_not_enc(e);
    lemma_trim_keeps(a);
    assert(nb[nb.len() - 1] == b[b.len() - 1]) by {
        assert(nb[1 + (b.len() - 1)] == b[b.len() - 1]);
    }
    lemma_trim_keeps(nb);
    lemma_eval_literal(env, a);
}

} // verus!
