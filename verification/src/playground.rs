//! Interactive playground: the command interpreter behind a tiny REPL, and
//! a circuit-file evaluator.
//!
//! ## REPL commands
//!
//! ```text
//! homo> a = enc 17
//! homo> b = enc 25
//! homo> c = a + b
//! homo> dec c
//! 42
//! ```
//!
//! The session speaks BFV (so `+` and `×` mix) and holds a fresh key pair.
//!
//! ## Circuit files
//!
//! ```text
//! # Compute (a + b) * (c + 3)
//! input a
//! input b
//! input c
//! t1 = a + b
//! t2 = c + 3
//! out = t1 * t2
//! return out
//! ```
//!
//! is evaluated homomorphically, with the noise reported after every line.
//!
//! ## What is specified
//!
//! Expressions are evaluated over *shapes*: a plaintext integer, or a
//! ciphertext with its number of components. [`eval_shape`] says, for every
//! environment and expression, whether evaluation gives a plaintext (and
//! which), a ciphertext (and of which size), an error (and which message),
//! or is refused (an integer overflow, or a product of a ciphertext that
//! is already a product). Operators split outside parentheses, and an
//! expression in one enclosing pair of parentheses is evaluated inside it.
//!
//! What a ciphertext decrypts to is tracked by [`eval_model`]: for
//! ciphertexts built from fresh encryptions by additions and one
//! multiplication, the plaintext its first slot holds and a bound on its
//! noise. The session's keys are a key pair ([`key_pair`]), and within the
//! noise margin ([`decryptable`]) `dec` prints the modelled value.

use vstd::prelude::*;
use crate::bigint::{decimal, tdiv, trem};
use crate::ring::{phase, is_ternary, is_small};
use crate::schemes::bfv;
use crate::schemes::bfv::{Ciphertext, Params, PublicKey, SecretKey, parts_view, encrypt_parts, decrypt_coeff};
use crate::text;
use crate::text::{trim_seq, strip_prefix_seq, parse_i64_seq};

verus! {

/// One value in a session: either a plaintext scalar or a BFV ciphertext.
pub enum Value {
    /// Cleartext integer.
    Plain(i64),
    /// Encrypted vector.
    Cipher(bfv::Ciphertext),
}

/// What an expression evaluates to, up to the contents of ciphertexts.
pub enum Shape {
    /// A plaintext integer.
    Plain(i64),
    /// A ciphertext with this many components.
    Cipher(nat),
}

/// The result of evaluating an expression.
pub enum Outcome {
    /// A value of this shape.
    Done(Shape),
    /// An error with this message.
    Error(Seq<char>),
    /// An input the evaluator refuses: an integer overflow, or a product
    /// involving a ciphertext that is already a product.
    Refused,
}

pub open spec fn shape_of(v: Value) -> Shape {
    match v {
        Value::Plain(p) => Shape::Plain(p),
        Value::Cipher(c) => Shape::Cipher(c.parts.len() as nat),
    }
}

/// The names and shapes of an environment.
pub open spec fn env_shapes(env: Seq<(String, Value)>) -> Seq<(Seq<char>, Shape)> {
    env.map_values(|e: (String, Value)| (e.0@, shape_of(e.1)))
}

/// The index of the last binding of `name` before index `i`.
pub open spec fn lookup_from(env: Seq<(Seq<char>, Shape)>, name: Seq<char>, i: int) -> Option<int>
    decreases i,
{
    if i <= 0 {
        None
    } else if env[i - 1].0 == name {
        Some(i - 1)
    } else {
        lookup_from(env, name, i - 1)
    }
}

/// The index of the binding of `name`.
pub open spec fn lookup(env: Seq<(Seq<char>, Shape)>, name: Seq<char>) -> Option<int> {
    lookup_from(env, name, env.len() as int)
}

/// The environment after binding `name` to a value of shape `s`.
pub open spec fn env_insert(env: Seq<(Seq<char>, Shape)>, name: Seq<char>, s: Shape) -> Seq<(Seq<char>, Shape)> {
    match lookup(env, name) {
        Some(i) => env.update(i, (name, s)),
        None => env.push((name, s)),
    }
}

/// A `-` right after one of these characters is read as a sign.
pub open spec fn unary_context(c: char) -> bool {
    c == ' ' || c == '+' || c == '*' || c == '-'
}

/// How a character changes the nesting depth of parentheses.
pub open spec fn paren_step(c: char) -> int {
    if c == '(' {
        1
    } else if c == ')' {
        -1
    } else {
        0
    }
}

/// The nesting depth of parentheses before position `i`: the `(` before it
/// less the `)` before it.
pub open spec fn paren_depth(s: Seq<char>, i: int) -> int
    decreases i,
{
    if i <= 0 {
        0
    } else {
        paren_depth(s, i - 1) + paren_step(s[i - 1])
    }
}

/// `op` stands at position `i` outside all parentheses, and is not a sign.
pub open spec fn op_at(s: Seq<char>, op: char, i: int) -> bool {
    s[i] == op && paren_depth(s, i) == 0 && !(op == '-' && unary_context(s[i - 1]))
}

/// The rightmost position at or before `i` (but after the first character)
/// of a top-level `op`.
pub open spec fn top_op_from(s: Seq<char>, op: char, i: int) -> Option<int>
    decreases i,
{
    if i < 1 || i >= s.len() {
        None
    } else if op_at(s, op, i) {
        Some(i)
    } else {
        top_op_from(s, op, i - 1)
    }
}

/// An expression wrapped in one pair of parentheses: `(` first and `)` last.
pub open spec fn enclosed(e: Seq<char>) -> bool {
    e.len() >= 2 && e[0] == '(' && e[e.len() - 1] == ')'
}

/// The rightmost top-level occurrence of `op` that is not the first character,
/// outside all parentheses.
pub open spec fn top_op(s: Seq<char>, op: char) -> Option<int> {
    top_op_from(s, op, s.len() - 1)
}

/// The operator an expression splits at, `+` first, then `-`, then `*`.
pub open spec fn split_op(s: Seq<char>) -> Option<(char, int)> {
    match top_op(s, '+') {
        Some(i) => Some(('+', i)),
        None => match top_op(s, '-') {
            Some(i) => Some(('-', i)),
            None => match top_op(s, '*') {
                Some(i) => Some(('*', i)),
                None => None,
            },
        },
    }
}

/// The size of an operand once plaintexts are encrypted.
pub open spec fn operand_size(s: Shape) -> nat {
    match s {
        Shape::Plain(_) => 2,
        Shape::Cipher(k) => k,
    }
}

/// Applying an operator to two values.
pub open spec fn apply_shape(op: char, a: Shape, b: Shape) -> Outcome {
    match (a, b) {
        (Shape::Plain(x), Shape::Plain(y)) => {
            let v = if op == '+' {
                x + y
            } else if op == '-' {
                x - y
            } else {
                x * y
            };
            if i64::MIN <= v <= i64::MAX {
                Outcome::Done(Shape::Plain(v as i64))
            } else {
                Outcome::Refused
            }
        },
        _ => {
            if op == '-' {
                Outcome::Error("subtraction on ciphertexts not yet implemented"@)
            } else if op == '+' {
                let (ka, kb) = (operand_size(a), operand_size(b));
                Outcome::Done(Shape::Cipher(if ka >= kb { ka } else { kb }))
            } else if operand_size(a) == 2 && operand_size(b) == 2 {
                Outcome::Done(Shape::Cipher(3))
            } else {
                Outcome::Refused
            }
        },
    }
}

pub proof fn lemma_trim_len(s: Seq<char>)
    ensures
        trim_seq(s).len() <= s.len(),
{
    text::lemma_skip_ws_bounds(s, 0);
    text::lemma_drop_ws_end_bounds(s, text::skip_ws(s, 0), s.len() as int);
}

pub proof fn lemma_top_op_bounds(s: Seq<char>, op: char, i: int)
    ensures
        top_op_from(s, op, i) matches Some(k) ==> 1 <= k < s.len() && s[k] == op,
    decreases i,
{
    if i >= 1 && i < s.len() && !op_at(s, op, i) {
        lemma_top_op_bounds(s, op, i - 1);
    }
}

pub proof fn lemma_split_op_bounds(s: Seq<char>)
    ensures
        split_op(s) matches Some((op, k)) ==> 1 <= k < s.len(),
{
    lemma_top_op_bounds(s, '+', s.len() - 1);
    lemma_top_op_bounds(s, '-', s.len() - 1);
    lemma_top_op_bounds(s, '*', s.len() - 1);
}

/// How an expression evaluates in an environment: `enc <expr>`, a split at
/// the rightmost operator outside parentheses (`+`, then `-`, then `*`), an
/// expression in one enclosing pair of parentheses, an integer literal, or
/// a name.
pub open spec fn eval_shape(env: Seq<(Seq<char>, Shape)>, e: Seq<char>) -> Outcome
    decreases e.len(),
{
    match strip_prefix_seq(e, "enc "@) {
        Some(inner) => {
            proof {
                reveal_strlit("enc ");
                lemma_trim_len(inner);
            }
            match eval_shape(env, trim_seq(inner)) {
                Outcome::Done(Shape::Plain(_)) => Outcome::Done(Shape::Cipher(2)),
                Outcome::Done(Shape::Cipher(_)) => Outcome::Error(
                    "enc: argument is already encrypted"@,
                ),
                other => other,
            }
        },
        None => match split_op(e) {
            Some((op, k)) => {
                proof {
                    lemma_split_op_bounds(e);
                    lemma_trim_len(e.take(k));
                    lemma_trim_len(e.skip(k + 1));
                }
                match eval_shape(env, trim_seq(e.take(k))) {
                    Outcome::Done(a) => match eval_shape(env, trim_seq(e.skip(k + 1))) {
                        Outcome::Done(b) => apply_shape(op, a, b),
                        other => other,
                    },
                    other => other,
                }
            },
            None => if enclosed(e) {
                proof {
                    lemma_trim_len(e.subrange(1, e.len() - 1));
                }
                eval_shape(env, trim_seq(e.subrange(1, e.len() - 1)))
            } else {
                match parse_i64_seq(e) {
                    Some(n) => Outcome::Done(Shape::Plain(n)),
                    None => match lookup(env, e) {
                        Some(i) => Outcome::Done(env[i].1),
                        None => Outcome::Error("undefined: "@ + e),
                    },
                }
            },
        },
    }
}

/// A ciphertext of the session: its parameters, two or three components,
/// each of `n` coefficients.
pub open spec fn cipher_wf(c: Ciphertext, p: (nat, int, int, nat)) -> bool {
    &&& c.params@ == p
    &&& 2 <= c.parts.len() <= 3
    &&& forall|i: int| 0 <= i < c.parts.len() ==> (#[trigger] c.parts@[i])@.len() == p.0
}

pub open spec fn value_wf(v: Value, p: (nat, int, int, nat)) -> bool {
    match v {
        Value::Plain(_) => true,
        Value::Cipher(c) => cipher_wf(c, p),
    }
}

/// The plaintext slot an integer is encrypted to: itself when non-negative,
/// else `((m % t) + t) % t` with Rust's remainder (and `t = 256` when `t`
/// exceeds `i64`), which is its residue modulo `t`.
pub open spec fn plain_slot(m: i64, t: int) -> u64 {
    if m >= 0 {
        m as u64
    } else {
        let t2 = if t <= i64::MAX { t } else { 256 };
        trem(trem(m as int, t2) + t2, t2) as u64
    }
}

/// The slot of `m` is congruent to `m` modulo `t` and, for negative `m`,
/// lies below `t`.
pub proof fn lemma_plain_slot(m: i64, t: int)
    requires
        0 < t <= i64::MAX,
    ensures
        (plain_slot(m, t) as int) % t == (m as int) % t,
        m < 0 ==> 0 <= plain_slot(m, t) < t,
        m >= 0 ==> plain_slot(m, t) == m,
{
    if m < 0 {
        let mi = m as int;
        crate::util::lemma_trem(mi, t);
        let r1 = trem(mi, t);
        let x = r1 + t;
        assert(0 < x <= t);
        crate::util::lemma_trem(x, t);
        let r2 = trem(x, t);
        assert(r2 == x % t);
        vstd::arithmetic::div_mod::lemma_mod_bound(x, t);
        // x ≡ m (mod t)
        assert(x == mi + t * (1 - tdiv(mi, t))) by (nonlinear_arith)
            requires
                r1 == mi - t * tdiv(mi, t),
                x == r1 + t,
        ;
        vstd::arithmetic::div_mod::lemma_mod_multiples_vanish(1 - tdiv(mi, t), mi, t);
        vstd::arithmetic::div_mod::lemma_small_mod(r2 as nat, t as nat);
        assert(plain_slot(m, t) as int == r2);
    }
}

/// `ct` is a fresh encryption of `plain` under `pk`.
pub open spec fn fresh_encryption(pk: PublicKey, plain: Seq<u64>, ct: Ciphertext) -> bool {
    exists|u: Seq<int>, e1: Seq<int>, e2: Seq<int>|
        #![trigger encrypt_parts(pk@, plain, u, e1, e2)]
        u.len() == pk.params.n && is_ternary(u) && e1.len() == pk.params.n && is_small(
            e1,
            pk.params.eta as int,
        ) && e2.len() == pk.params.n && is_small(e2, pk.params.eta as int) && (
        ct.parts@[0]@,
        ct.parts@[1]@,
        ) == encrypt_parts(pk@, plain, u, e1, e2)
}

/// The first slot a ciphertext decrypts to under `sk` (0 when there is none).
pub open spec fn first_slot(sk: SecretKey, c: Ciphertext) -> u64 {
    if sk.params.n > 0 {
        decrypt_coeff(phase(parts_view(c.parts@), sk.s@, sk.params.q@)[0], sk.params.t@, sk.params.q@) as u64
    } else {
        0
    }
}

/// `pk` and `sk` are a key pair as `bfv::keygen` makes them: the secret `s`
/// is ternary and `b = -(a·s + e)` for a noise `e` bounded by `eta`.
pub open spec fn key_pair(pk: PublicKey, sk: SecretKey) -> bool {
    let (n, q, t, eta) = pk.params@;
    &&& is_ternary(sk.s@)
    &&& exists|e: Seq<int>|
        e.len() == n && is_small(e, eta as int) && #[trigger] pk.b@ == crate::ring::pneg(
            crate::ring::padd(crate::ring::pmul(pk.a@, sk.s@, q), e, q),
            q,
        )
}

/// The noise bound of a fresh encryption under parameters `p`: `(2n + 1)·eta`.
pub open spec fn fresh_noise(p: (nat, int, int, nat)) -> int {
    ((2 * p.0 + 1) * p.3) as int
}

/// The constant plaintext polynomial `m`: first coefficient `m`, the rest 0.
pub open spec fn const_poly(m: int, n: nat) -> Seq<int> {
    Seq::new(n, |k: int| if k == 0 { m } else { 0 })
}

/// Coefficient `k` of the phase of `c` under `sk` is `Δ·M[k] + v` modulo
/// `q`, for the constant polynomial `M` of `m`.
pub open spec fn coeff_noise(sk: SecretKey, c: Ciphertext, m: int, k: int, v: int) -> bool {
    let (n, q, t, eta) = sk.params@;
    phase(parts_view(c.parts@), sk.s@, q)[k] % q == (const_poly(m, n)[k] * tdiv(q, t) + v) % q
}

/// `vs` are the noise terms of every coefficient, each at most `bound`.
pub open spec fn noise_seq_ok(sk: SecretKey, c: Ciphertext, m: int, bound: int, vs: Seq<int>) -> bool {
    &&& vs.len() == sk.params.n
    &&& forall|k: int|
        0 <= k < sk.params.n ==> -bound <= #[trigger] vs[k] <= bound && coeff_noise(sk, c, m, k, vs[k])
}

/// The two-part ciphertext `c`, with centred components, holds the
/// plaintext constant `0 <= m < t` under `sk`, with noise at most `bound` in
/// every coefficient.
pub open spec fn carries(sk: SecretKey, c: Ciphertext, m: int, bound: int) -> bool {
    let (n, q, t, eta) = sk.params@;
    &&& c.parts.len() == 2
    &&& 0 <= m < t
    &&& bfv::centred_poly(c.parts@[0]@, n, q)
    &&& bfv::centred_poly(c.parts@[1]@, n, q)
    &&& exists|vs: Seq<int>| #[trigger] noise_seq_ok(sk, c, m, bound, vs)
}

/// The three-part ciphertext `c` (a product) decrypts to `0 <= m < t` in its
/// first slot.
pub open spec fn prod_holds(sk: SecretKey, c: Ciphertext, m: int) -> bool {
    &&& c.parts.len() == 3
    &&& 0 <= m < sk.params.t@
    &&& first_slot(sk, c) == m
}

/// The noise margin under which a two-part ciphertext holding `m` with
/// noise at most `bound` decrypts to `m`: `2·(bound·t + t·m) < q`.
pub open spec fn decryptable(p: (nat, int, int, nat), m: int, bound: int) -> bool {
    2 * (bound * p.2 + p.2 * m) < p.1
}

/// What an operand holds once plaintexts are encrypted: a plaintext `x`
/// whose slot is below `t` is encrypted fresh; a ciphertext holds what its
/// model says.
pub open spec fn side_model(sh: Shape, mdl: Option<(int, int)>, p: (nat, int, int, nat)) -> Option<(int, int)> {
    match sh {
        Shape::Plain(x) => if plain_slot(x, p.2) < p.2 {
            Some((plain_slot(x, p.2) as int, fresh_noise(p)))
        } else {
            None
        },
        Shape::Cipher(_) => mdl,
    }
}

/// A sum of two two-part operands holds the sum of what they hold, modulo
/// `t`, with the sum of their noise (and `t` more when the sum wraps).
pub open spec fn add_model(
    sa: Shape,
    a: Option<(int, int)>,
    sb: Shape,
    b: Option<(int, int)>,
    p: (nat, int, int, nat),
) -> Option<(int, int)> {
    match (a, b) {
        (Some((m1, b1)), Some((m2, b2))) => if operand_size(sa) == 2 && operand_size(sb) == 2 {
            if m1 + m2 >= p.2 {
                Some((m1 + m2 - p.2, b1 + b2 + p.2))
            } else {
                Some((m1 + m2, b1 + b2))
            }
        } else {
            None
        },
        _ => None,
    }
}

/// A product of two two-part operands within the multiplication margin
/// ([`bfv::mul_margin_ok_b`]) holds the product of what they hold, modulo
/// `t`, exactly (noise bound 0).
pub open spec fn mul_model(
    sa: Shape,
    a: Option<(int, int)>,
    sb: Shape,
    b: Option<(int, int)>,
    p: (nat, int, int, nat),
) -> Option<(int, int)> {
    match (a, b) {
        (Some((m1, b1)), Some((m2, b2))) => if operand_size(sa) == 2 && operand_size(sb) == 2
            && bfv::mul_margin_ok_b(p.0 as int, p.1, p.2, if b1 >= b2 { b1 } else { b2 }) {
            Some(((m1 * m2) % p.2, 0))
        } else {
            None
        },
        _ => None,
    }
}

/// The value model of an expression whose value is a ciphertext: the
/// plaintext constant its first slot holds and a bound on its noise, for
/// ciphertexts built from fresh encryptions by additions and one
/// multiplication (`None` where no model is kept). `models[i]` is the model
/// of the `i`-th binding.
pub open spec fn eval_model(
    env: Seq<(Seq<char>, Shape)>,
    models: Seq<Option<(int, int)>>,
    e: Seq<char>,
    p: (nat, int, int, nat),
) -> Option<(int, int)>
    decreases e.len(),
{
    match strip_prefix_seq(e, "enc "@) {
        Some(inner) => {
            proof {
                reveal_strlit("enc ");
                lemma_trim_len(inner);
            }
            match eval_shape(env, trim_seq(inner)) {
                Outcome::Done(Shape::Plain(x)) => side_model(Shape::Plain(x), None, p),
                _ => None,
            }
        },
        None => match split_op(e) {
            Some((op, k)) => {
                proof {
                    lemma_split_op_bounds(e);
                    lemma_trim_len(e.take(k));
                    lemma_trim_len(e.skip(k + 1));
                }
                let (l, r) = (trim_seq(e.take(k)), trim_seq(e.skip(k + 1)));
                match (eval_shape(env, l), eval_shape(env, r)) {
                    (Outcome::Done(a), Outcome::Done(b)) => {
                        let (ma, mb) = (
                            side_model(a, eval_model(env, models, l, p), p),
                            side_model(b, eval_model(env, models, r, p), p),
                        );
                        if op == '+' {
                            add_model(a, ma, b, mb, p)
                        } else if op == '*' {
                            mul_model(a, ma, b, mb, p)
                        } else {
                            None
                        }
                    },
                    _ => None,
                }
            },
            None => if enclosed(e) {
                proof {
                    lemma_trim_len(e.subrange(1, e.len() - 1));
                }
                eval_model(env, models, trim_seq(e.subrange(1, e.len() - 1)), p)
            } else {
                match parse_i64_seq(e) {
                    Some(_) => None,
                    None => match lookup(env, e) {
                        Some(i) => models[i],
                        None => None,
                    },
                }
            },
        },
    }
}

/// The models after binding `name` to a value with model `mdl`.
pub open spec fn model_insert(
    env: Seq<(Seq<char>, Shape)>,
    models: Seq<Option<(int, int)>>,
    name: Seq<char>,
    mdl: Option<(int, int)>,
) -> Seq<Option<(int, int)>> {
    match lookup(env, name) {
        Some(i) => models.update(i, mdl),
        None => models.push(mdl),
    }
}

/// The fresh noise bound is not negative.
pub proof fn lemma_fresh_noise_nonneg(p: (nat, int, int, nat))
    ensures
        fresh_noise(p) >= 0,
{
    assert((2 * p.0 + 1) * p.3 >= 0) by (nonlinear_arith);
}

/// What a ciphertext holds depends only on its components.
pub proof fn lemma_model_same_parts(sk: SecretKey, c: Ciphertext, d: Ciphertext, m: int, b: int)
    requires
        carries(sk, c, m, b) || prod_holds(sk, c, m),
        parts_view(d.parts@) == parts_view(c.parts@),
    ensures
        carries(sk, d, m, b) || prod_holds(sk, d, m),
{
    assert(parts_view(d.parts@).len() == d.parts.len());
    assert(parts_view(c.parts@).len() == c.parts.len());
    if carries(sk, c, m, b) {
        let vs = choose|vs: Seq<int>| #[trigger] noise_seq_ok(sk, c, m, b, vs);
        assert(d.parts@[0]@ == parts_view(d.parts@)[0] && c.parts@[0]@ == parts_view(c.parts@)[0]);
        assert(d.parts@[1]@ == parts_view(d.parts@)[1] && c.parts@[1]@ == parts_view(c.parts@)[1]);
        assert(noise_seq_ok(sk, d, m, b, vs));
    }
}

/// A fresh encryption of a slot below `t` holds it with at most the fresh
/// noise.
pub proof fn lemma_fresh_carries(pk: PublicKey, sk: SecretKey, x: i64, ct: Ciphertext)
    requires
        key_pair(pk, sk),
        pk.params@ == sk.params@,
        sk.params.n > 0,
        sk.params.q@ > 0,
        sk.params.t@ > 0,
        pk.a@.len() == sk.params.n,
        pk.b@.len() == sk.params.n,
        sk.s@.len() == sk.params.n,
        ct.parts.len() == 2,
        plain_slot(x, sk.params.t@) < sk.params.t@,
        fresh_encryption(pk, seq![plain_slot(x, sk.params.t@)], ct),
    ensures
        carries(sk, ct, plain_slot(x, sk.params.t@) as int, fresh_noise(sk.params@)),
{
    let (n, q, t, eta) = sk.params@;
    let slot = plain_slot(x, t);
    let plain = seq![slot];
    let (u, e1, e2) = choose|u: Seq<int>, e1: Seq<int>, e2: Seq<int>|
        #![trigger encrypt_parts(pk@, plain, u, e1, e2)]
        u.len() == n && is_ternary(u) && e1.len() == n && is_small(e1, eta as int) && e2.len() == n
            && is_small(e2, eta as int) && (ct.parts@[0]@, ct.parts@[1]@) == encrypt_parts(pk@, plain, u, e1, e2);
    let e = choose|e: Seq<int>|
        e.len() == n && is_small(e, eta as int) && #[trigger] pk.b@ == crate::ring::pneg(
            crate::ring::padd(crate::ring::pmul(pk.a@, sk.s@, q), e, q),
            q,
        );
    assert(pk@ == (pk.b@, pk.a@, sk.params@));
    let b = crate::ring::pneg(crate::ring::padd(crate::ring::pmul(pk.a@, sk.s@, q), e, q), q);
    let (c0, c1) = encrypt_parts((b, pk.a@, sk.params@), plain, u, e1, e2);
    assert(seq![c0, c1] =~= parts_view(ct.parts@));
    bfv::lemma_fresh_centred(pk@, plain, u, e1, e2);
    let vs = Seq::new(n, |k: int| crate::poly_laws::rlwe_noise(e, sk.s@, u, e1, e2, n as int, k));
    let fb = fresh_noise(sk.params@);
    assert forall|k: int| 0 <= k < n implies -fb <= #[trigger] vs[k] <= fb && coeff_noise(sk, ct, slot as int, k, vs[k]) by {
        bfv::lemma_fresh_phase(sk.params@, pk.a@, sk.s@, e, plain, u, e1, e2, k);
        assert(bfv::padded_plain(plain, n)[k] == const_poly(slot as int, n)[k]);
    }
    assert(noise_seq_ok(sk, ct, slot as int, fb, vs));
}

/// The sum of two ciphertexts holds the sum of what they hold, modulo `t`,
/// with the sum of their noise, and `t` more when the sum wraps.
pub proof fn lemma_carries_add(
    sk: SecretKey,
    c: Ciphertext,
    d: Ciphertext,
    r: Ciphertext,
    m1: int,
    b1: int,
    m2: int,
    b2: int,
)
    requires
        sk.params.q@ > 0,
        sk.params.t@ > 0,
        sk.params.n > 0,
        carries(sk, c, m1, b1),
        carries(sk, d, m2, b2),
        r.parts.len() == 2,
        forall|i: int|
            0 <= i < 2 ==> #[trigger] r.parts@[i]@ == crate::ring::padd(c.parts@[i]@, d.parts@[i]@, sk.params.q@),
    ensures
        ({
            let t = sk.params.t@;
            if m1 + m2 >= t {
                carries(sk, r, m1 + m2 - t, b1 + b2 + t)
            } else {
                carries(sk, r, m1 + m2, b1 + b2)
            }
        }),
{
    let (n, q, t, eta) = sk.params@;
    let vs1 = choose|vs: Seq<int>| #[trigger] noise_seq_ok(sk, c, m1, b1, vs);
    let vs2 = choose|vs: Seq<int>| #[trigger] noise_seq_ok(sk, d, m2, b2, vs);
    let (c0, c1, d0, d1) = (c.parts@[0]@, c.parts@[1]@, d.parts@[0]@, d.parts@[1]@);
    assert(parts_view(c.parts@) =~= seq![c0, c1]);
    assert(parts_view(d.parts@) =~= seq![d0, d1]);
    assert(r.parts@[0]@ == crate::ring::padd(c0, d0, q) && r.parts@[1]@ == crate::ring::padd(c1, d1, q));
    assert(parts_view(r.parts@) =~= seq![crate::ring::padd(c0, d0, q), crate::ring::padd(c1, d1, q)]);
    let delta = tdiv(q, t);
    vstd::arithmetic::div_mod::lemma_fundamental_div_mod(q, t);
    let rho = q % t;
    assert(t * delta + rho == q);
    let wrap = m1 + m2 >= t;
    let m = if wrap { m1 + m2 - t } else { m1 + m2 };
    let bb = if wrap { b1 + b2 + t } else { b1 + b2 };
    let vs = Seq::new(n, |k: int| vs1[k] + vs2[k] - (if k == 0 && wrap { rho } else { 0 }));
    assert forall|k: int| 0 <= k < n implies -bb <= #[trigger] vs[k] <= bb && coeff_noise(sk, r, m, k, vs[k]) by {
        assert(-b1 <= vs1[k] <= b1 && coeff_noise(sk, c, m1, k, vs1[k]));
        assert(-b2 <= vs2[k] <= b2 && coeff_noise(sk, d, m2, k, vs2[k]));
        crate::poly_laws::lemma_phase_add(c0, c1, d0, d1, sk.s@, q, n, k);
        let p1 = phase(seq![c0, c1], sk.s@, q)[k];
        let p2 = phase(seq![d0, d1], sk.s@, q)[k];
        let x1 = const_poly(m1, n)[k] * delta + vs1[k];
        let x2 = const_poly(m2, n)[k] * delta + vs2[k];
        crate::poly_laws::lemma_cong_add(p1, p2, x1, x2, q);
        if k == 0 && wrap {
            assert(x1 + x2 == m * delta + vs[k] + q) by (nonlinear_arith)
                requires
                    x1 == m1 * delta + vs1[k],
                    x2 == m2 * delta + vs2[k],
                    m == m1 + m2 - t,
                    vs[k] == vs1[k] + vs2[k] - rho,
                    t * delta + rho == q,
            ;
            vstd::arithmetic::div_mod::lemma_mod_multiples_vanish(1, m * delta + vs[k], q);
            assert(q * 1 + (m * delta + vs[k]) == x1 + x2);
        } else if k == 0 {
            assert(x1 + x2 == m * delta + vs[k]) by (nonlinear_arith)
                requires
                    x1 == m1 * delta + vs1[k],
                    x2 == m2 * delta + vs2[k],
                    m == m1 + m2,
                    vs[k] == vs1[k] + vs2[k],
            ;
        } else {
            assert(x1 + x2 == 0 * delta + vs[k]);
        }
    }
    assert(noise_seq_ok(sk, r, m, bb, vs));
    assert forall|j: int| 0 <= j < n implies -(q / 2 + 1) <= #[trigger] r.parts@[0]@[j] <= q / 2 + 1 by {
        crate::ring::lemma_centre_value(c0[j] + d0[j], q);
    }
    assert forall|j: int| 0 <= j < n implies -(q / 2 + 1) <= #[trigger] r.parts@[1]@[j] <= q / 2 + 1 by {
        crate::ring::lemma_centre_value(c1[j] + d1[j], q);
    }
}

/// The negacyclic product of two constant polynomials is constant.
proof fn lemma_nc_const(m1: int, m2: int, n: nat, i: int)
    requires
        1 <= i <= n,
    ensures
        crate::ring::nc_sum(const_poly(m1, n), const_poly(m2, n), n as int, i, 0) == m1 * m2,
    decreases i,
{
    let (a, b) = (const_poly(m1, n), const_poly(m2, n));
    if i > 1 {
        lemma_nc_const(m1, m2, n, i - 1);
        assert(a[i - 1] == 0);
        assert(crate::ring::nc_term(a, b, n as int, i - 1, 0) == 0);
    } else {
        assert(crate::ring::nc_sum(a, b, n as int, 0, 0) == 0);
    }
}

/// The product of two ciphertexts within the multiplication margin
/// decrypts to the product of what they hold, modulo `t`.
pub proof fn lemma_carries_mul(
    sk: SecretKey,
    c: Ciphertext,
    d: Ciphertext,
    r: Ciphertext,
    m1: int,
    b1: int,
    m2: int,
    b2: int,
)
    requires
        sk.params.q@ > 0,
        0 < sk.params.t@ <= u64::MAX,
        sk.params.n > 0,
        sk.s@.len() == sk.params.n,
        is_ternary(sk.s@),
        carries(sk, c, m1, b1),
        carries(sk, d, m2, b2),
        0 <= b1,
        0 <= b2,
        bfv::mul_margin_ok_b(sk.params.n as int, sk.params.q@, sk.params.t@, if b1 >= b2 { b1 } else { b2 }),
        r.parts.len() == 3,
        ({
            let n = sk.params.n as int;
            let (q, t) = (sk.params.q@, sk.params.t@);
            let (a0, a1, e0, e1) = (c.parts@[0]@, c.parts@[1]@, d.parts@[0]@, d.parts@[1]@);
            &&& r.parts@[0]@ == bfv::rescale_values(crate::ring::negacyclic(a0, e0, n), t, q)
            &&& r.parts@[1]@ == bfv::rescale_values(
                Seq::new(n as nat, |k: int| crate::ring::negacyclic(a0, e1, n)[k] + crate::ring::negacyclic(a1, e0, n)[k]),
                t,
                q,
            )
            &&& r.parts@[2]@ == bfv::rescale_values(crate::ring::negacyclic(a1, e1, n), t, q)
        }),
    ensures
        prod_holds(sk, r, (m1 * m2) % sk.params.t@),
{
    let (n, q, t, eta) = sk.params@;
    let ni = n as int;
    let bb = if b1 >= b2 { b1 } else { b2 };
    let vs1 = choose|vs: Seq<int>| #[trigger] noise_seq_ok(sk, c, m1, b1, vs);
    let vs2 = choose|vs: Seq<int>| #[trigger] noise_seq_ok(sk, d, m2, b2, vs);
    let (c0, c1, d0, d1) = (c.parts@[0]@, c.parts@[1]@, d.parts@[0]@, d.parts@[1]@);
    assert(parts_view(c.parts@) =~= seq![c0, c1]);
    assert(parts_view(d.parts@) =~= seq![d0, d1]);
    let (k1, k2) = (const_poly(m1, n), const_poly(m2, n));
    assert forall|j: int| 0 <= j < n implies 0 <= #[trigger] k1[j] < t by {}
    assert forall|j: int| 0 <= j < n implies 0 <= #[trigger] k2[j] < t by {}
    assert forall|j: int| 0 <= j < n implies -bb <= #[trigger] vs1[j] <= bb by {
        assert(-b1 <= vs1[j] <= b1 && coeff_noise(sk, c, m1, j, vs1[j]));
    }
    assert forall|j: int| 0 <= j < n implies -bb <= #[trigger] vs2[j] <= bb by {
        assert(-b2 <= vs2[j] <= b2 && coeff_noise(sk, d, m2, j, vs2[j]));
    }
    assert forall|j: int| 0 <= j < n implies phase(seq![c0, c1], sk.s@, q)[j] % q == (#[trigger] k1[j]
        * tdiv(q, t) + vs1[j]) % q by {
        assert(-b1 <= vs1[j] <= b1 && coeff_noise(sk, c, m1, j, vs1[j]));
    }
    assert forall|j: int| 0 <= j < n implies phase(seq![d0, d1], sk.s@, q)[j] % q == (#[trigger] k2[j]
        * tdiv(q, t) + vs2[j]) % q by {
        assert(-b2 <= vs2[j] <= b2 && coeff_noise(sk, d, m2, j, vs2[j]));
    }
    bfv::lemma_decrypt_mul_noisy(n, q, t, sk.s@, c0, c1, d0, d1, k1, vs1, k2, vs2, bb);
    let r0 = bfv::rescale_values(crate::ring::negacyclic(c0, d0, ni), t, q);
    let r1 = bfv::rescale_values(crate::poly_laws::tensor_mid(c0, c1, d0, d1, n), t, q);
    let r2 = bfv::rescale_values(crate::ring::negacyclic(c1, d1, ni), t, q);
    assert(crate::poly_laws::tensor_mid(c0, c1, d0, d1, n) =~= Seq::new(
        n,
        |k: int| crate::ring::negacyclic(c0, d1, ni)[k] + crate::ring::negacyclic(c1, d0, ni)[k],
    ));
    assert(parts_view(r.parts@) =~= seq![r0, r1, r2]);
    lemma_nc_const(m1, m2, n, ni);
    assert(crate::ring::negacyclic(k1, k2, ni)[0] == m1 * m2);
    vstd::arithmetic::div_mod::lemma_mod_bound(m1 * m2, t);
}

/// A ciphertext holding `m` with noise at most `bound` decrypts to `m`
/// within the noise margin.
pub proof fn lemma_model_decrypts(sk: SecretKey, c: Ciphertext, m: int, bound: int)
    requires
        carries(sk, c, m, bound) || prod_holds(sk, c, m),
        sk.params.n > 0,
        sk.params.q@ > 0,
        0 < sk.params.t@ <= u64::MAX,
        0 <= bound,
        decryptable(sk.params@, m, bound),
    ensures
        first_slot(sk, c) == m % sk.params.t@,
        first_slot(sk, c) == m,
{
    let (n, q, t, eta) = sk.params@;
    vstd::arithmetic::div_mod::lemma_small_mod(m as nat, t as nat);
    if carries(sk, c, m, bound) {
        let vs = choose|vs: Seq<int>| #[trigger] noise_seq_ok(sk, c, m, bound, vs);
        assert(-bound <= vs[0] <= bound && coeff_noise(sk, c, m, 0, vs[0]));
        let ph = phase(parts_view(c.parts@), sk.s@, q)[0];
        bfv::lemma_round_recovers(ph, m, vs[0], q, t, bound, m);
    }
}

/// A value agrees with its model: a model is kept only for a ciphertext,
/// which then holds the model's value with noise at most its bound (a
/// two-part ciphertext), or decrypts to it (a product).
pub open spec fn model_ok(sk: SecretKey, v: Value, mdl: Option<(int, int)>) -> bool {
    match mdl {
        Some((m, b)) => v matches Value::Cipher(c) && 0 <= b && (carries(sk, c, m, b) || prod_holds(
            sk,
            c,
            m,
        )),
        None => true,
    }
}

/// The model kept for a binding of shape `sh`: none for a plaintext.
pub open spec fn binding_model(sh: Shape, mdl: Option<(int, int)>) -> Option<(int, int)> {
    match sh {
        Shape::Cipher(_) => mdl,
        Shape::Plain(_) => None,
    }
}

/// Session state for the REPL or circuit evaluator.
pub struct Session {
    /// Current BFV parameter set.
    pub params: bfv::Params,
    /// Public key.
    pub pk: bfv::PublicKey,
    /// Secret key (kept locally: this is a teaching tool).
    pub sk: bfv::SecretKey,
    /// Named values, each name bound once.
    pub env: Vec<(String, Value)>,
    /// For each named value, what its first slot holds and a bound on its
    /// noise, where that is tracked (see [`eval_model`]).
    pub models: Ghost<Seq<Option<(int, int)>>>,
}

impl Session {
    /// The session's keys belong to its parameters, and every value it
    /// names is well formed.
    pub open spec fn wf(&self) -> bool {
        let p = self.params@;
        &&& self.params.q@ > 1
        &&& self.params.t@ > 0
        &&& tdiv(self.params.q@, self.params.t@) != 0
        &&& self.pk.params@ == p
        &&& self.sk.params@ == p
        &&& self.pk.b@.len() == p.0
        &&& self.pk.a@.len() == p.0
        &&& self.sk.s@.len() == p.0
        &&& key_pair(self.pk, self.sk)
        &&& self.params.n > 0
        &&& self.params.t@ <= u64::MAX
        &&& forall|i: int| 0 <= i < self.env@.len() ==> value_wf(#[trigger] self.env@[i].1, p)
        &&& self.models@.len() == self.env@.len()
        &&& forall|i: int|
            0 <= i < self.env@.len() ==> model_ok(self.sk, #[trigger] self.env@[i].1, self.models@[i])
        &&& forall|i: int, j: int|
            0 <= i < j < self.env@.len() ==> (#[trigger] self.env@[i]).0@ != (#[trigger] self.env@[j]).0@
    }

    /// The shapes of the session's named values.
    pub open spec fn shapes(&self) -> Seq<(Seq<char>, Shape)> {
        env_shapes(self.env@)
    }

    /// Create a session with the toy parameters and a fresh key pair.
    pub fn toy() -> (r: Self)
        ensures
            r.wf(),
            r.params@ == (1024nat, 1152921504606846883int, 256int, 6nat),
            r.env@.len() == 0,
            r.models@.len() == 0,
    {
        let params = Params::toy();
        let (pk, sk) = bfv::keygen(&params);
        assert(tdiv(1152921504606846883int, 256int) != 0);
        Session { params, pk, sk, env: Vec::new(), models: Ghost(Seq::empty()) }
    }

    /// Encrypt a single integer into the first slot.
    pub fn enc_one(&self, m: i64) -> (ct: Ciphertext)
        requires
            self.wf(),
        ensures
            cipher_wf(ct, self.params@),
            ct.parts.len() == 2,
            fresh_encryption(self.pk, seq![plain_slot(m, self.params.t@)], ct),
    {
        let m_pos: u64 = if m >= 0 {
            m as u64
        } else {
            let t: i64 = match self.params.t.to_u64() {
                Some(x) => if x <= 0x7fff_ffff_ffff_ffff { x as i64 } else { 256 },
                None => 256,
            };
            assert(t > 0);
            assert(t as int == (if self.params.t@ <= i64::MAX { self.params.t@ } else { 256 }));
            let a: u64 = (-(m as i128)) as u64;
            let tt: u64 = t as u64;
            let r: u64 = a % tt;
            proof {
                let (mi, ti) = (m as int, t as int);
                vstd::arithmetic::div_mod::lemma_fundamental_div_mod(a as int, ti);
                let q = (a as int) / ti;
                assert(tdiv(mi, ti) == -q);
                assert(ti * (-q) == -(ti * q)) by (nonlinear_arith);
                assert(trem(mi, ti) == -(r as int));
                let x = trem(mi, ti) + ti;
                assert(x == ti - r);
                if r > 0 {
                    vstd::arithmetic::div_mod::lemma_basic_div(x, ti);
                    assert(tdiv(x, ti) == 0);
                } else {
                    vstd::arithmetic::div_mod::lemma_div_by_self(ti);
                    assert(tdiv(x, ti) == 1);
                }
                assert(trem(trem(mi, ti) + ti, ti) == (if r == 0 { 0 } else { ti - r }));
            }
            if r == 0 {
                0
            } else {
                tt - r
            }
        };
        assert(m_pos == plain_slot(m, self.params.t@));
        let mut plain: Vec<u64> = Vec::new();
        plain.push(m_pos);
        let ct = bfv::encrypt(&self.pk, plain.as_slice());
        assert(plain@ =~= seq![plain_slot(m, self.params.t@)]);
        ct
    }

    /// Decrypting the first slot of a fresh encryption of `m` (as
    /// [`Session::enc_one`] makes it) gives `m mod t`, for `|m| ≤ bound`
    /// with `t ≤ bound`, when the noise margin `2·((2n + 1)·eta·t + t·bound) < q`
    /// holds. For the toy parameters it holds for `bound = 2^40`.
    pub proof fn lemma_dec_enc_one(&self, m: i64, ct: Ciphertext, bound: int)
        requires
            self.wf(),
            self.params.n > 0,
            self.params.t@ <= i64::MAX,
            self.params.t@ <= bound,
            -bound <= m <= bound,
            2 * ((2 * self.params.n + 1) * self.params.eta * self.params.t@ + self.params.t@ * bound)
                < self.params.q@,
            ct.parts.len() == 2,
            fresh_encryption(self.pk, seq![plain_slot(m, self.params.t@)], ct),
        ensures
            first_slot(self.sk, ct) == (m as int) % self.params.t@,
    {
        let (n, q, t, eta) = self.params@;
        let plain = seq![plain_slot(m, t)];
        let (u, e1, e2) = choose|u: Seq<int>, e1: Seq<int>, e2: Seq<int>|
            #![trigger encrypt_parts(self.pk@, plain, u, e1, e2)]
            u.len() == n && is_ternary(u) && e1.len() == n && is_small(e1, eta as int) && e2.len() == n
                && is_small(e2, eta as int) && (ct.parts@[0]@, ct.parts@[1]@) == encrypt_parts(
                self.pk@,
                plain,
                u,
                e1,
                e2,
            );
        let e = choose|e: Seq<int>|
            e.len() == n && is_small(e, eta as int) && #[trigger] self.pk.b@ == crate::ring::pneg(
                crate::ring::padd(crate::ring::pmul(self.pk.a@, self.sk.s@, q), e, q),
                q,
            );
        assert(self.pk@ == (self.pk.b@, self.pk.a@, self.params@));
        if n > 0 {
            bfv::lemma_fresh_phase(self.params@, self.pk.a@, self.sk.s@, e, plain, u, e1, e2, 0);
            assert(parts_view(ct.parts@) =~= seq![ct.parts@[0]@, ct.parts@[1]@]);
            let ph = phase(parts_view(ct.parts@), self.sk.s@, q)[0];
            let slot = plain_slot(m, t);
            assert(bfv::padded_plain(plain, n)[0] == slot as int);
            let v = crate::poly_laws::rlwe_noise(e, self.sk.s@, u, e1, e2, n as int, 0);
            lemma_plain_slot(m, t);
            assert(0 <= slot <= bound);
            let b = crate::ring::pneg(crate::ring::padd(crate::ring::pmul(self.pk.a@, self.sk.s@, q), e, q), q);
            let (c0, c1) = encrypt_parts((b, self.pk.a@, self.params@), plain, u, e1, e2);
            assert(seq![c0, c1] =~= parts_view(ct.parts@));
            assert(ph % q == (slot as int * tdiv(q, t) + v) % q);
            bfv::lemma_round_recovers(ph, slot as int, v, q, t, ((2 * n + 1) * eta) as int, bound);
            assert(decrypt_coeff(ph, t, q) == (slot as int) % t);
            vstd::arithmetic::div_mod::lemma_mod_bound(slot as int, t);
        }
    }

    /// Decrypt and read the first slot.
    pub fn dec_one(&self, ct: &Ciphertext) -> (r: u64)
        requires
            self.wf(),
            cipher_wf(*ct, self.params@),
        ensures
            r == first_slot(self.sk, *ct),
    {
        let v = bfv::decrypt(&self.sk, ct);
        if v.len() > 0 {
            v[0]
        } else {
            0
        }
    }
}

/// Find the rightmost occurrence of `op` outside parentheses that is not the
/// first character (nor, for `-`, a sign).
fn find_top_level_op(s: &[char], op: char) -> (r: Option<usize>)
    ensures
        r matches Some(i) ==> top_op(s@, op) == Some(i as int),
        r is None ==> top_op(s@, op) is None,
{
    let n = s.len();
    if n < 2 {
        return None;
    }
    let mut opens: usize = 0;
    let mut closes: usize = 0;
    if s[0] == '(' {
        opens = 1;
    } else if s[0] == ')' {
        closes = 1;
    }
    assert(paren_depth(s@, 1) == paren_depth(s@, 0) + paren_step(s@[0]));
    let mut last: Option<usize> = None;
    let mut i: usize = 1;
    while i < n
        invariant
            1 <= i <= n == s@.len(),
            opens <= i,
            closes <= i,
            opens - closes == paren_depth(s@, i as int),
            last matches Some(k) ==> top_op_from(s@, op, i - 1) == Some(k as int),
            last is None ==> top_op_from(s@, op, i - 1) is None,
        decreases n - i,
    {
        let prev = s[i - 1];
        if s[i] == op && opens == closes && !(op == '-' && (prev == ' ' || prev == '+' || prev == '*'
            || prev == '-')) {
            last = Some(i);
        }
        assert(paren_depth(s@, i + 1) == paren_depth(s@, i as int) + paren_step(s@[i as int]));
        if s[i] == '(' {
            opens = opens + 1;
        } else if s[i] == ')' {
            closes = closes + 1;
        }
        i = i + 1;
    }
    last
}

/// The index of the binding of `name` in an environment.
fn lookup_env(env: &Vec<(String, Value)>, name: &[char]) -> (r: Option<usize>)
    ensures
        r matches Some(i) ==> i < env@.len() && lookup(env_shapes(env@), name@) == Some(i as int),
        r is None ==> lookup(env_shapes(env@), name@) is None,
{
    let ghost sh = env_shapes(env@);
    let mut i: usize = env.len();
    while i > 0
        invariant
            i <= env@.len(),
            sh == env_shapes(env@),
            lookup_from(sh, name@, i as int) == lookup(sh, name@),
        decreases i,
    {
        let key = text::chars_of(env[i - 1].0.as_str());
        assert(sh[i - 1].0 == env@[i - 1].0@);
        if text::seq_eq(key.as_slice(), name) {
            return Some(i - 1);
        }
        i = i - 1;
    }
    None
}

/// A copy of a value.
fn copy_value(v: &Value) -> (r: Value)
    ensures
        shape_of(r) == shape_of(*v),
        forall|p: (nat, int, int, nat)| value_wf(*v, p) ==> value_wf(r, p),
        r matches Value::Cipher(c) ==> v matches Value::Cipher(d) && parts_view(c.parts@)
            == parts_view(d.parts@),
{
    match v {
        Value::Plain(p) => Value::Plain(*p),
        Value::Cipher(c) => {
            let d = c.copy();
            assert forall|p: (nat, int, int, nat)| cipher_wf(*c, p) implies cipher_wf(d, p) by {
                assert forall|i: int| 0 <= i < d.parts.len() implies (#[trigger] d.parts@[i])@.len()
                    == p.0 by {
                    assert(parts_view(d.parts@)[i] == parts_view(c.parts@)[i]);
                }
            }
            Value::Cipher(d)
        },
    }
}

/// Whether `e` is wrapped in one pair of parentheses.
fn is_enclosed(e: &[char]) -> (r: bool)
    ensures
        r == enclosed(e@),
{
    e.len() >= 2 && e[0] == '(' && e[e.len() - 1] == ')'
}

fn text_vec(s: &str) -> (r: Vec<char>)
    ensures
        r@ == s@,
{
    text::chars_of(s)
}

impl Session {
    /// Tiny expression evaluator: literals, names, `+`, `-`, `*`, and `enc <expr>`.
    fn eval_expr(&self, expr: &[char]) -> (r: Result<Value, Vec<char>>)
        requires
            self.wf(),
            eval_shape(self.shapes(), expr@) !is Refused,
        ensures
            r matches Ok(v) ==> eval_shape(self.shapes(), expr@) == Outcome::Done(shape_of(v))
                && value_wf(v, self.params@),
            r matches Ok(v) ==> model_ok(
                self.sk,
                v,
                binding_model(shape_of(v), eval_model(self.shapes(), self.models@, expr@, self.params@)),
            ),
            r matches Err(e) ==> eval_shape(self.shapes(), expr@) == Outcome::Error(e@),
        decreases expr@.len(),
    {
        let enc_p = text_vec("enc ");
        match text::strip_prefix(expr, enc_p.as_slice()) {
            Some(inner) => {
                let t = text::trim(inner.as_slice());
                proof {
                    reveal_strlit("enc ");
                    lemma_trim_len(inner@);
                }
                match self.eval_expr(t.as_slice()) {
                    Ok(Value::Plain(p)) => {
                        let ct = self.enc_one(p);
                        proof {
                            if plain_slot(p, self.params.t@) < self.params.t@ {
                                lemma_fresh_carries(self.pk, self.sk, p, ct);
                            }
                            lemma_fresh_noise_nonneg(self.params@);
                        }
                        Ok(Value::Cipher(ct))
                    },
                    Ok(Value::Cipher(_)) => Err(text_vec("enc: argument is already encrypted")),
                    Err(e) => Err(e),
                }
            },
            None => {
                let mut found: Option<(char, usize)> = None;
                match find_top_level_op(expr, '+') {
                    Some(k) => {
                        found = Some(('+', k));
                    },
                    None => match find_top_level_op(expr, '-') {
                        Some(k) => {
                            found = Some(('-', k));
                        },
                        None => match find_top_level_op(expr, '*') {
                            Some(k) => {
                                found = Some(('*', k));
                            },
                            None => {},
                        },
                    },
                }
                assert(found matches Some((op, k)) ==> split_op(expr@) == Some((op, k as int)));
                assert(found is None ==> split_op(expr@) is None);
                match found {
                    Some((op, k)) => {
                        proof {
                            lemma_split_op_bounds(expr@);
                        }
                        assert(split_op(expr@) == Some((op, k as int)));
                        assert(1 <= k < expr.len());
                        let l = text::slice_of(expr, 0, k);
                        let lt = text::trim(l.as_slice());
                        assert(l@ =~= expr@.take(k as int));
                        proof {
                            lemma_trim_len(l@);
                        }
                        let left = match self.eval_expr(lt.as_slice()) {
                            Ok(v) => v,
                            Err(e) => {
                                return Err(e);
                            },
                        };
                        let r = text::slice_of(expr, k + 1, expr.len());
                        let rt = text::trim(r.as_slice());
                        assert(r@ =~= expr@.skip(k + 1));
                        proof {
                            lemma_trim_len(r@);
                        }
                        let right = match self.eval_expr(rt.as_slice()) {
                            Ok(v) => v,
                            Err(e) => {
                                return Err(e);
                            },
                        };
                        self.apply(
                            op,
                            left,
                            right,
                            Ghost(eval_model(self.shapes(), self.models@, lt@, self.params@)),
                            Ghost(eval_model(self.shapes(), self.models@, rt@, self.params@)),
                        )
                    },
                    None => if is_enclosed(expr) {
                        let inner = text::slice_of(expr, 1, expr.len() - 1);
                        let t = text::trim(inner.as_slice());
                        proof {
                            lemma_trim_len(inner@);
                        }
                        self.eval_expr(t.as_slice())
                    } else {
                        match text::parse_i64(expr) {
                            Some(n) => Ok(Value::Plain(n)),
                            None => match lookup_env(&self.env, expr) {
                                Some(i) => {
                                    assert(self.shapes()[i as int].1 == shape_of(self.env@[i as int].1));
                                    let v = copy_value(&self.env[i].1);
                                    proof {
                                        assert(model_ok(self.sk, self.env@[i as int].1, self.models@[i as int]));
                                        if self.models@[i as int] is Some {
                                            let (m, b) = self.models@[i as int]->Some_0;
                                            assert(v is Cipher);
                                            lemma_model_same_parts(
                                                self.sk,
                                                self.env@[i as int].1->Cipher_0,
                                                v->Cipher_0,
                                                m,
                                                b,
                                            );
                                        }
                                    }
                                    Ok(v)
                                },
                                None => {
                                    let mut m = text_vec("undefined: ");
                                    text::push_all(&mut m, expr);
                                    Err(m)
                                },
                            },
                        }
                    },
                }
            },
        }
    }

    fn apply(
        &self,
        op: char,
        a: Value,
        b: Value,
        Ghost(ma): Ghost<Option<(int, int)>>,
        Ghost(mb): Ghost<Option<(int, int)>>,
    ) -> (r: Result<Value, Vec<char>>)
        requires
            self.wf(),
            op == '+' || op == '-' || op == '*',
            value_wf(a, self.params@),
            value_wf(b, self.params@),
            apply_shape(op, shape_of(a), shape_of(b)) !is Refused,
            model_ok(self.sk, a, binding_model(shape_of(a), ma)),
            model_ok(self.sk, b, binding_model(shape_of(b), mb)),
        ensures
            r matches Ok(v) ==> model_ok(
                self.sk,
                v,
                binding_model(
                    shape_of(v),
                    if op == '+' {
                        add_model(
                            shape_of(a),
                            side_model(shape_of(a), ma, self.params@),
                            shape_of(b),
                            side_model(shape_of(b), mb, self.params@),
                            self.params@,
                        )
                    } else if op == '*' {
                        mul_model(
                            shape_of(a),
                            side_model(shape_of(a), ma, self.params@),
                            shape_of(b),
                            side_model(shape_of(b), mb, self.params@),
                            self.params@,
                        )
                    } else {
                        None
                    },
                ),
            ),
            r matches Ok(v) ==> apply_shape(op, shape_of(a), shape_of(b)) == Outcome::Done(
                shape_of(v),
            ) && value_wf(v, self.params@),
            r matches Err(e) ==> apply_shape(op, shape_of(a), shape_of(b)) == Outcome::Error(e@),
    {
        let ghost p = self.params@;
        match (a, b) {
            (Value::Plain(x), Value::Plain(y)) => {
                if op == '+' {
                    Ok(Value::Plain(x + y))
                } else if op == '-' {
                    Ok(Value::Plain(x - y))
                } else {
                    Ok(Value::Plain(x * y))
                }
            },
            (a, b) => {
                if op == '-' {
                    return Err(text_vec("subtraction on ciphertexts not yet implemented"));
                }
                let ca = match a {
                    Value::Cipher(c) => c,
                    Value::Plain(x) => {
                        let c = self.enc_one(x);
                        proof {
                            if plain_slot(x, p.2) < p.2 {
                                lemma_fresh_carries(self.pk, self.sk, x, c);
                            }
                        }
                        c
                    },
                };
                let cb = match b {
                    Value::Cipher(c) => c,
                    Value::Plain(y) => {
                        let c = self.enc_one(y);
                        proof {
                            if plain_slot(y, p.2) < p.2 {
                                lemma_fresh_carries(self.pk, self.sk, y, c);
                            }
                        }
                        c
                    },
                };
                proof {
                    lemma_fresh_noise_nonneg(p);
                    let sa = side_model(shape_of(a), ma, p);
                    let sb = side_model(shape_of(b), mb, p);
                    if let Some((m1, b1)) = sa {
                        assert(0 <= b1 && (carries(self.sk, ca, m1, b1) || prod_holds(self.sk, ca, m1)));
                    }
                    if let Some((m2, b2)) = sb {
                        assert(0 <= b2 && (carries(self.sk, cb, m2, b2) || prod_holds(self.sk, cb, m2)));
                    }
                }
                assert(cipher_wf(ca, p) && cipher_wf(cb, p));
                assert(ca.parts.len() == operand_size(shape_of(a)));
                assert(cb.parts.len() == operand_size(shape_of(b)));
                if op == '+' {
                    let c = bfv::add(&ca, &cb);
                    proof {
                        let sa = side_model(shape_of(a), ma, p);
                        let sb = side_model(shape_of(b), mb, p);
                        if let (Some((m1, b1)), Some((m2, b2))) = (sa, sb) {
                            if ca.parts.len() == 2 && cb.parts.len() == 2 {
                                lemma_carries_add(self.sk, ca, cb, c, m1, b1, m2, b2);
                            }
                        }
                    }
                    assert forall|i: int| 0 <= i < c.parts.len() implies (#[trigger] c.parts@[i])@.len()
                        == p.0 by {
                        if i < ca.parts.len() && i < cb.parts.len() {
                            assert(ca.parts@[i]@.len() == p.0);
                        } else if i < ca.parts.len() {
                            assert(ca.parts@[i]@.len() == p.0);
                        } else {
                            assert(cb.parts@[i]@.len() == p.0);
                        }
                    }
                    Ok(Value::Cipher(c))
                } else {
                    assert(ca.parts@[0]@.len() == p.0 && ca.parts@[1]@.len() == p.0);
                    assert(cb.parts@[0]@.len() == p.0 && cb.parts@[1]@.len() == p.0);
                    let c = bfv::mul(&ca, &cb);
                    proof {
                        let sa = side_model(shape_of(a), ma, p);
                        let sb = side_model(shape_of(b), mb, p);
                        if let (Some((m1, b1)), Some((m2, b2))) = (sa, sb) {
                            if bfv::mul_margin_ok_b(p.0 as int, p.1, p.2, if b1 >= b2 { b1 } else { b2 }) {
                                lemma_carries_mul(self.sk, ca, cb, c, m1, b1, m2, b2);
                            }
                        }
                    }
                    assert forall|i: int| 0 <= i < c.parts.len() implies (#[trigger] c.parts@[i])@.len()
                        == p.0 by {
                        assert(i == 0 || i == 1 || i == 2);
                    }
                    Ok(Value::Cipher(c))
                }
            },
        }
    }
}

/// The help text of the REPL.
pub const HELP: &'static str = "
Commands:
  <name> = <expr>     assign a value to a name
  dec <name>          decrypt a ciphertext and print
  noise <name>        report current noise budget
  vars                list named values
  enc <expr>          encrypt the result of an expression
  help                this message
  quit                exit

Expressions:
  integer literals, variable names, + - *
  ciphertext + ciphertext  → ciphertext (cheap)
  ciphertext * ciphertext  → ciphertext (size grows; one mul max in BFV-lite)

Examples:
  a = enc 17
  b = enc 25
  c = a + b
  dec c
  noise c
";

/// A REPL command, read from a line.
pub enum Command {
    /// An empty line or a comment.
    Blank,
    /// `quit` or `exit`.
    Quit,
    /// `help`.
    Help,
    /// `vars`.
    Vars,
    /// `dec <name>`.
    Dec(Seq<char>),
    /// `noise <name>`.
    Noise(Seq<char>),
    /// `<name> = <expr>`.
    Assign(Seq<char>, Seq<char>),
    /// A bare expression.
    Eval(Seq<char>),
}

/// How a line is read, after trimming.
/// A line ends the session exactly when, trimmed, it reads `quit` or `exit`.
pub proof fn lemma_quit_lines(line: Seq<char>)
    ensures
        (command_of(line) is Quit) <==> (trim_seq(line) == "quit"@ || trim_seq(line) == "exit"@),
{
    reveal_strlit("quit");
    reveal_strlit("exit");
    let t = trim_seq(line);
    if t == "quit"@ || t == "exit"@ {
        assert(t.len() == 4 && t[0] != '#');
    }
}

pub open spec fn command_of(line: Seq<char>) -> Command {
    let t = trim_seq(line);
    if t.len() == 0 || t[0] == '#' {
        Command::Blank
    } else if t == "quit"@ || t == "exit"@ {
        Command::Quit
    } else if t == "help"@ {
        Command::Help
    } else if t == "vars"@ {
        Command::Vars
    } else if strip_prefix_seq(t, "dec "@) is Some {
        Command::Dec(strip_prefix_seq(t, "dec "@)->Some_0)
    } else if strip_prefix_seq(t, "noise "@) is Some {
        Command::Noise(strip_prefix_seq(t, "noise "@)->Some_0)
    } else {
        match text::split_once_seq(t, '=') {
            Some((l, r)) => Command::Assign(trim_seq(l), trim_seq(r)),
            None => Command::Eval(t),
        }
    }
}

pub open spec fn kind_word(s: Shape) -> Seq<char> {
    match s {
        Shape::Plain(_) => "plain"@,
        Shape::Cipher(_) => "cipher"@,
    }
}

/// One line per named value: `  <name>  (<plain|cipher>)`.
pub open spec fn vars_lines(env: Seq<(Seq<char>, Shape)>) -> Seq<char>
    decreases env.len(),
{
    if env.len() == 0 {
        Seq::empty()
    } else {
        vars_lines(env.drop_last()) + "  "@ + env.last().0 + "  ("@ + kind_word(env.last().1)
            + ")\n"@
    }
}

/// The answer to `vars`.
pub open spec fn vars_text(env: Seq<(Seq<char>, Shape)>) -> Seq<char> {
    "\nDefined variables:\n"@ + vars_lines(env)
}

/// The noise figures of a ciphertext: the largest distance of a phase
/// coefficient to a multiple of `Δ`, its `⌊log₂⌋`, and the bits left.
pub open spec fn noise_figures(sk: SecretKey, c: Ciphertext) -> (int, nat, nat) {
    let q = sk.params.q@;
    let ph = phase(parts_view(c.parts@), sk.s@, q);
    let noise = bfv::max_noise(ph, tdiv(q, sk.params.t@));
    let budget = bfv::log2_value(q) - bfv::log2_value(sk.params.t@) - 1 - bfv::log2_value(noise);
    (noise, bfv::log2_value(noise), if budget > 0 { budget as nat } else { 0 })
}

/// The answer to `noise <name>` for a ciphertext.
pub open spec fn noise_text(name: Seq<char>, f: (int, nat, nat)) -> Seq<char> {
    name + ": ‖·‖∞ ≈ "@ + crate::viz::short_int_text(f.0) + " (≈ 2^"@ + decimal(f.1) + ".0), budget ≈ "@
        + decimal(f.2) + ".0 bits\n"@
}

proof fn lemma_lookup_none(env: Seq<(Seq<char>, Shape)>, name: Seq<char>, i: int)
    requires
        0 <= i <= env.len(),
        lookup_from(env, name, i) is None,
    ensures
        forall|k: int| 0 <= k < i ==> env[k].0 != name,
    decreases i,
{
    if i > 0 {
        lemma_lookup_none(env, name, i - 1);
    }
}

proof fn lemma_lookup_some(env: Seq<(Seq<char>, Shape)>, name: Seq<char>, i: int)
    requires
        0 <= i <= env.len(),
    ensures
        lookup_from(env, name, i) matches Some(k) ==> 0 <= k < i && env[k].0 == name,
    decreases i,
{
    if i > 0 {
        lemma_lookup_some(env, name, i - 1);
    }
}

impl Session {
    /// Does evaluation refuse what this line asks for?
    pub open spec fn refuses(&self, line: Seq<char>) -> bool {
        match command_of(line) {
            Command::Assign(_, e) => eval_shape(self.shapes(), e) is Refused,
            Command::Eval(e) => eval_shape(self.shapes(), e) is Refused,
            _ => false,
        }
    }

    /// Bind `name` to `v`, replacing an earlier binding of the name.
    fn bind(&mut self, name: &[char], v: Value, Ghost(mdl): Ghost<Option<(int, int)>>) -> (j: usize)
        requires
            old(self).wf(),
            value_wf(v, old(self).params@),
            model_ok(old(self).sk, v, mdl),
        ensures
            final(self).wf(),
            final(self).params == old(self).params,
            final(self).pk == old(self).pk,
            final(self).sk == old(self).sk,
            final(self).shapes() == env_insert(old(self).shapes(), name@, shape_of(v)),
            final(self).models@ == model_insert(old(self).shapes(), old(self).models@, name@, mdl),
            j < final(self).env@.len(),
            final(self).env@[j as int].0@ == name@,
            final(self).env@[j as int].1 == v,
            final(self).models@[j as int] == mdl,
            forall|k: int|
                0 <= k < old(self).env@.len() && old(self).env@[k].0@ != name@ ==> #[trigger] final(self).env@[k]
                    == old(self).env@[k],
    {
        let ghost sh = self.shapes();
        let ghost ms = self.models@;
        let key = text::string_of(name);
        match lookup_env(&self.env, name) {
            Some(i) => {
                proof {
                    lemma_lookup_some(sh, name@, sh.len() as int);
                }
                self.env.set(i, (key, v));
                self.models = Ghost(ms.update(i as int, mdl));
                assert(self.shapes() =~= sh.update(i as int, (name@, shape_of(v))));
                i
            },
            None => {
                proof {
                    lemma_lookup_none(sh, name@, sh.len() as int);
                }
                let j = self.env.len();
                self.env.push((key, v));
                self.models = Ghost(ms.push(mdl));
                assert(self.shapes() =~= sh.push((name@, shape_of(v))));
                assert forall|i: int, j: int|
                    0 <= i < j < self.env@.len() implies (#[trigger] self.env@[i]).0@ != (
                    #[trigger] self.env@[j]).0@ by {
                    if j == self.env@.len() - 1 {
                        assert(sh[i].0 == self.env@[i].0@);
                    }
                }
                j
            },
        }
    }

    /// The answer to `vars`.
    fn vars_answer(&self) -> (r: Vec<char>)
        ensures
            r@ == vars_text(self.shapes()),
    {
        let ghost sh = self.shapes();
        let mut out = text_vec("\nDefined variables:\n");
        let mut i: usize = 0;
        while i < self.env.len()
            invariant
                i <= self.env@.len(),
                sh == self.shapes(),
                out@ == "\nDefined variables:\n"@ + vars_lines(sh.take(i as int)),
            decreases self.env.len() - i,
        {
            let ghost before = out@;
            text::push_str(&mut out, "  ");
            text::push_str(&mut out, self.env[i].0.as_str());
            text::push_str(&mut out, "  (");
            match &self.env[i].1 {
                Value::Plain(_) => text::push_str(&mut out, "plain"),
                Value::Cipher(_) => text::push_str(&mut out, "cipher"),
            }
            text::push_str(&mut out, ")\n");
            proof {
                let t = sh.take(i + 1);
                assert(t.drop_last() =~= sh.take(i as int));
                assert(t.last() == sh[i as int]);
                assert(out@ =~= "\nDefined variables:\n"@ + vars_lines(t));
            }
            i = i + 1;
        }
        assert(sh.take(self.env@.len() as int) =~= sh);
        out
    }

    /// Run one REPL command. Returns the text to print and whether the
    /// session should end.
    pub fn run_line(&mut self, line: &str) -> (r: (String, bool))
        requires
            old(self).wf(),
            !old(self).refuses(line@),
        ensures
            final(self).wf(),
            final(self).params == old(self).params,
            final(self).pk == old(self).pk,
            final(self).sk == old(self).sk,
            r.1 == (command_of(line@) is Quit),
            r.1 == (trim_seq(line@) == "quit"@ || trim_seq(line@) == "exit"@),
            r.1 ==> r.0@ == "bye.\n"@,
            !(command_of(line@) is Assign) ==> final(self).models@ == old(self).models@,
            match command_of(line@) {
                Command::Blank => r.0@ == Seq::<char>::empty() && final(self).env@ == old(self).env@,
                Command::Quit => r.0@ == "bye.\n"@ && final(self).env@ == old(self).env@,
                Command::Help => r.0@ == HELP@ && final(self).env@ == old(self).env@,
                Command::Vars => r.0@ == vars_text(old(self).shapes()) && final(self).env@ == old(
                    self,
                ).env@,
                Command::Dec(n) => final(self).env@ == old(self).env@ && match lookup(
                    old(self).shapes(),
                    trim_seq(n),
                ) {
                    Some(i) => match old(self).env@[i].1 {
                        Value::Cipher(c) => r.0@ == decimal(first_slot(old(self).sk, c) as nat)
                            + "\n"@ && (old(self).models@[i] matches Some((m, b)) ==> (decryptable(
                            old(self).params@,
                            m,
                            b,
                        ) ==> first_slot(old(self).sk, c) == m % old(self).params.t@)),
                        Value::Plain(p) => r.0@ == text::int_decimal(p as int) + "\n"@,
                    },
                    None => r.0@ == "error: '"@ + n + "' not defined\n"@,
                },
                Command::Noise(n) => final(self).env@ == old(self).env@ && match lookup(
                    old(self).shapes(),
                    trim_seq(n),
                ) {
                    Some(i) => match old(self).env@[i].1 {
                        Value::Cipher(c) => r.0@ == noise_text(
                            trim_seq(n),
                            noise_figures(old(self).sk, c),
                        ),
                        Value::Plain(_) => r.0@ == "'"@ + n + "' is not a ciphertext\n"@,
                    },
                    None => r.0@ == "'"@ + n + "' is not a ciphertext\n"@,
                },
                Command::Assign(name, e) => match eval_shape(old(self).shapes(), e) {
                    Outcome::Done(sh) => final(self).shapes() == env_insert(
                        old(self).shapes(),
                        name,
                        sh,
                    ) && final(self).models@ == model_insert(
                        old(self).shapes(),
                        old(self).models@,
                        name,
                        binding_model(sh, eval_model(old(self).shapes(), old(self).models@, e, old(self).params@)),
                    ) && (forall|k: int|
                        0 <= k < old(self).env@.len() && old(self).env@[k].0@ != name ==> #[trigger] final(self).env@[k] == old(self).env@[k]) && (binding_model(sh, eval_model(old(self).shapes(), old(self).models@, e, old(self).params@))
                        matches Some((m, b)) ==> (decryptable(old(self).params@, m, b) ==> exists|j: int|
                        0 <= j < final(self).env@.len() && (#[trigger] final(self).env@[j]).0@ == name
                            && (final(self).env@[j].1 matches Value::Cipher(c) && first_slot(final(self).sk, c) == m)))
                        && crate::viz::styled(name + " = …\n"@, "2"@, r.0@),
                    Outcome::Error(m) => r.0@ == "error: "@ + m + "\n"@ && final(self).env@ == old(
                        self,
                    ).env@ && final(self).models@ == old(self).models@,
                    Outcome::Refused => false,
                },
                Command::Eval(e) => final(self).env@ == old(self).env@ && match eval_shape(
                    old(self).shapes(),
                    e,
                ) {
                    Outcome::Done(Shape::Plain(p)) => r.0@ == text::int_decimal(p as int) + "\n"@,
                    Outcome::Done(Shape::Cipher(_)) => (exists|x: u64|
                        r.0@ == "(ciphertext, dec → "@ + #[trigger] decimal(x as nat) + ")\n"@) && (
                    eval_model(old(self).shapes(), old(self).models@, e, old(self).params@) matches Some((m, b))
                        ==> (decryptable(old(self).params@, m, b) ==> r.0@ == "(ciphertext, dec → "@ + decimal(
                        (m % old(self).params.t@) as nat,
                    ) + ")\n"@)),
                    Outcome::Error(m) => r.0@ == "error: "@ + m + "\n"@,
                    Outcome::Refused => false,
                },
            },
    {
        proof {
            lemma_quit_lines(line@);
        }
        let chars = text::chars_of(line);
        let t = text::trim(chars.as_slice());
        proof {
            reveal_strlit("quit");
            reveal_strlit("exit");
            reveal_strlit("help");
            reveal_strlit("vars");
        }
        if t.len() == 0 || t[0] == '#' {
            return (String::new(), false);
        }
        let quit = text_vec("quit");
        let exit = text_vec("exit");
        if text::seq_eq(t.as_slice(), quit.as_slice()) || text::seq_eq(t.as_slice(), exit.as_slice()) {
            return (text::string_of(text_vec("bye.\n").as_slice()), true);
        }
        let help = text_vec("help");
        if text::seq_eq(t.as_slice(), help.as_slice()) {
            return (text::string_of(text_vec(HELP).as_slice()), false);
        }
        let vars = text_vec("vars");
        if text::seq_eq(t.as_slice(), vars.as_slice()) {
            let out = self.vars_answer();
            return (text::string_of(out.as_slice()), false);
        }
        let dec_p = text_vec("dec ");
        match text::strip_prefix(t.as_slice(), dec_p.as_slice()) {
            Some(name) => {
                let key = text::trim(name.as_slice());
                let mut out: Vec<char> = Vec::new();
                match lookup_env(&self.env, key.as_slice()) {
                    Some(i) => {
                        assert(self.shapes()[i as int].1 == shape_of(self.env@[i as int].1));
                        match &self.env[i].1 {
                            Value::Cipher(ct) => {
                                let v = self.dec_one(ct);
                                proof {
                                    assert(model_ok(self.sk, self.env@[i as int].1, self.models@[i as int]));
                                    if self.models@[i as int] is Some {
                                        let (m, b) = self.models@[i as int]->Some_0;
                                        if decryptable(self.params@, m, b) {
                                            lemma_model_decrypts(self.sk, *ct, m, b);
                                        }
                                    }
                                }
                                out = text::u64_decimal(v);
                            },
                            Value::Plain(p) => {
                                out = text::i64_decimal(*p);
                            },
                        }
                        text::push_str(&mut out, "\n");
                    },
                    None => {
                        text::push_str(&mut out, "error: '");
                        text::push_all(&mut out, name.as_slice());
                        text::push_str(&mut out, "' not defined\n");
                    },
                }
                return (text::string_of(out.as_slice()), false);
            },
            None => {},
        }
        let noise_p = text_vec("noise ");
        match text::strip_prefix(t.as_slice(), noise_p.as_slice()) {
            Some(name) => {
                let key = text::trim(name.as_slice());
                let mut out: Vec<char> = Vec::new();
                let found = lookup_env(&self.env, key.as_slice());
                let mut done = false;
                match found {
                    Some(i) => {
                        match &self.env[i].1 {
                            Value::Cipher(ct) => {
                                let (n, log, budget) = bfv::noise_estimate(&self.sk, ct);
                                text::push_all(&mut out, key.as_slice());
                                text::push_str(&mut out, ": ‖·‖∞ ≈ ");
                                text::push_str(&mut out, crate::viz::short_int(&n).as_str());
                                text::push_str(&mut out, " (≈ 2^");
                                text::push_all(&mut out, text::u64_decimal(log).as_slice());
                                text::push_str(&mut out, ".0), budget ≈ ");
                                text::push_all(&mut out, text::u64_decimal(budget).as_slice());
                                text::push_str(&mut out, ".0 bits\n");
                                done = true;
                            },
                            Value::Plain(_) => {},
                        }
                    },
                    None => {},
                }
                if !done {
                    text::push_str(&mut out, "'");
                    text::push_all(&mut out, name.as_slice());
                    text::push_str(&mut out, "' is not a ciphertext\n");
                }
                return (text::string_of(out.as_slice()), false);
            },
            None => {},
        }
        match text::split_once(t.as_slice(), '=') {
            Some((lhs, rhs)) => {
                let name = text::trim(lhs.as_slice());
                let expr = text::trim(rhs.as_slice());
                match self.eval_expr(expr.as_slice()) {
                    Ok(v) => {
                        let ghost mdl = binding_model(
                            shape_of(v),
                            eval_model(self.shapes(), self.models@, expr@, self.params@),
                        );
                        let j = self.bind(name.as_slice(), v, Ghost(mdl));
                        proof {
                            if mdl is Some {
                                let (m, b) = mdl->Some_0;
                                if decryptable(self.params@, m, b) {
                                    assert(model_ok(self.sk, self.env@[j as int].1, self.models@[j as int]));
                                    lemma_model_decrypts(self.sk, self.env@[j as int].1->Cipher_0, m, b);
                                }
                            }
                        }
                        let mut msg: Vec<char> = Vec::new();
                        text::push_all(&mut msg, name.as_slice());
                        text::push_str(&mut msg, " = …\n");
                        let plain = text::string_of(msg.as_slice());
                        (crate::viz::dimmed(plain.as_str()), false)
                    },
                    Err(e) => {
                        let mut out = text_vec("error: ");
                        text::push_all(&mut out, e.as_slice());
                        text::push_str(&mut out, "\n");
                        (text::string_of(out.as_slice()), false)
                    },
                }
            },
            None => {
                match self.eval_expr(t.as_slice()) {
                    Ok(Value::Plain(p)) => {
                        let mut out = text::i64_decimal(p);
                        text::push_str(&mut out, "\n");
                        (text::string_of(out.as_slice()), false)
                    },
                    Ok(Value::Cipher(ct)) => {
                        let v = self.dec_one(&ct);
                        proof {
                            let mdl = eval_model(self.shapes(), self.models@, t@, self.params@);
                            if mdl is Some {
                                let (m, b) = mdl->Some_0;
                                if decryptable(self.params@, m, b) {
                                    lemma_model_decrypts(self.sk, ct, m, b);
                                }
                            }
                        }
                        let mut out = text_vec("(ciphertext, dec → ");
                        let d = text::u64_decimal(v);
                        text::push_all(&mut out, d.as_slice());
                        text::push_str(&mut out, ")\n");
                        assert(out@ == "(ciphertext, dec → "@ + decimal(v as nat) + ")\n"@);
                        (text::string_of(out.as_slice()), false)
                    },
                    Err(e) => {
                        let mut out = text_vec("error: ");
                        text::push_all(&mut out, e.as_slice());
                        text::push_str(&mut out, "\n");
                        (text::string_of(out.as_slice()), false)
                    },
                }
            },
        }
    }
}

/// A statement of a circuit file.
pub enum Stmt {
    /// `input <name>`.
    Input(Seq<char>),
    /// `<name> = <expr>`.
    Assign(Seq<char>, Seq<char>),
    /// `return <name>`.
    Return(Seq<char>),
}

/// A line of a circuit file without its comment, trimmed.
pub open spec fn code_of(raw: Seq<char>) -> Seq<char> {
    trim_seq(raw.take(text::find_char(raw, '#', 0)))
}

/// How a (non-empty, comment-free) circuit line reads.
pub open spec fn parse_stmt(line: Seq<char>) -> Option<Stmt> {
    if strip_prefix_seq(line, "input "@) is Some {
        Some(Stmt::Input(trim_seq(strip_prefix_seq(line, "input "@)->Some_0)))
    } else if strip_prefix_seq(line, "return "@) is Some {
        Some(Stmt::Return(trim_seq(strip_prefix_seq(line, "return "@)->Some_0)))
    } else {
        match text::split_once_seq(line, '=') {
            Some((l, r)) => Some(Stmt::Assign(trim_seq(l), trim_seq(r))),
            None => None,
        }
    }
}

/// The value supplied for an input: the last entry with that name.
pub open spec fn input_value(inputs: Seq<(Seq<char>, i64)>, name: Seq<char>, i: int) -> Option<i64>
    decreases i,
{
    if i <= 0 {
        None
    } else if inputs[i - 1].0 == name {
        Some(inputs[i - 1].1)
    } else {
        input_value(inputs, name, i - 1)
    }
}

pub open spec fn inputs_view(inputs: Seq<(String, i64)>) -> Seq<(Seq<char>, i64)> {
    inputs.map_values(|e: (String, i64)| (e.0@, e.1))
}

/// How a circuit run ends.
pub enum CircuitEnd {
    /// `return` of a value of this shape.
    Returned(Seq<char>, Shape),
    /// An error with this message.
    Error(Seq<char>),
    /// An expression the evaluator refuses.
    Refused,
}

/// Running the lines of a circuit from line `i` on, in an environment.
pub open spec fn circuit_from(
    ls: Seq<Seq<char>>,
    i: int,
    env: Seq<(Seq<char>, Shape)>,
    inputs: Seq<(Seq<char>, i64)>,
) -> CircuitEnd
    decreases ls.len() - i,
{
    if i < 0 || i >= ls.len() {
        CircuitEnd::Error("circuit ended without return"@)
    } else {
        let line = code_of(ls[i]);
        if line.len() == 0 {
            circuit_from(ls, i + 1, env, inputs)
        } else {
            match parse_stmt(line) {
                None => CircuitEnd::Error(
                    "line "@ + decimal((i + 1) as nat) + ": cannot parse '"@ + ls[i] + "'"@,
                ),
                Some(Stmt::Input(name)) => match input_value(inputs, name, inputs.len() as int) {
                    None => CircuitEnd::Error("missing input: "@ + name),
                    Some(_) => circuit_from(ls, i + 1, env_insert(env, name, Shape::Cipher(2)), inputs),
                },
                Some(Stmt::Assign(name, e)) => match eval_shape(env, e) {
                    Outcome::Done(sh) => circuit_from(ls, i + 1, env_insert(env, name, sh), inputs),
                    Outcome::Error(m) => CircuitEnd::Error("line "@ + decimal((i + 1) as nat) + ": "@ + m),
                    Outcome::Refused => CircuitEnd::Refused,
                },
                Some(Stmt::Return(name)) => match lookup(env, name) {
                    Some(k) => CircuitEnd::Returned(name, env[k].1),
                    None => CircuitEnd::Error("return of undefined: "@ + name),
                },
            }
        }
    }
}

/// The parameters of [`Session::toy`].
pub open spec fn toy_view() -> (nat, int, int, nat) {
    (1024nat, 1152921504606846883int, 256int, 6nat)
}

/// The value model of the returned value when the lines from `i` on run in
/// an environment whose bindings have these models (see [`eval_model`]):
/// inputs are fresh encryptions of their slots, assignments keep the model
/// of their expression. `None` where no model is kept.
pub open spec fn circuit_model(
    ls: Seq<Seq<char>>,
    i: int,
    env: Seq<(Seq<char>, Shape)>,
    models: Seq<Option<(int, int)>>,
    inputs: Seq<(Seq<char>, i64)>,
    p: (nat, int, int, nat),
) -> Option<(int, int)>
    decreases ls.len() - i,
{
    if i < 0 || i >= ls.len() {
        None
    } else {
        let line = code_of(ls[i]);
        if line.len() == 0 {
            circuit_model(ls, i + 1, env, models, inputs, p)
        } else {
            match parse_stmt(line) {
                None => None,
                Some(Stmt::Input(name)) => match input_value(inputs, name, inputs.len() as int) {
                    None => None,
                    Some(v) => circuit_model(
                        ls,
                        i + 1,
                        env_insert(env, name, Shape::Cipher(2)),
                        model_insert(env, models, name, side_model(Shape::Plain(v), None, p)),
                        inputs,
                        p,
                    ),
                },
                Some(Stmt::Assign(name, e)) => match eval_shape(env, e) {
                    Outcome::Done(sh) => circuit_model(
                        ls,
                        i + 1,
                        env_insert(env, name, sh),
                        model_insert(env, models, name, binding_model(sh, eval_model(env, models, e, p))),
                        inputs,
                        p,
                    ),
                    _ => None,
                },
                Some(Stmt::Return(name)) => match lookup(env, name) {
                    Some(k) => models[k],
                    None => None,
                },
            }
        }
    }
}

/// `s` ends with `t`.
pub open spec fn ends_with(s: Seq<char>, t: Seq<char>) -> bool {
    t.len() <= s.len() && s.skip(s.len() - t.len()) == t
}

/// How running a circuit source with these inputs ends.
pub open spec fn circuit_end(source: Seq<char>, inputs: Seq<(Seq<char>, i64)>) -> CircuitEnd {
    circuit_from(text::lines_of(source), 0, Seq::empty(), inputs)
}

/// A parsed circuit line.
enum CircuitLine {
    Input(Vec<char>),
    Assign(Vec<char>, Vec<char>),
    Return(Vec<char>),
}

fn parse_line(line: &[char]) -> (r: Option<CircuitLine>)
    ensures
        match r {
            Some(CircuitLine::Input(n)) => parse_stmt(line@) == Some(Stmt::Input(n@)),
            Some(CircuitLine::Assign(n, e)) => parse_stmt(line@) == Some(Stmt::Assign(n@, e@)),
            Some(CircuitLine::Return(n)) => parse_stmt(line@) == Some(Stmt::Return(n@)),
            None => parse_stmt(line@) is None,
        },
{
    let input_p = text_vec("input ");
    match text::strip_prefix(line, input_p.as_slice()) {
        Some(name) => {
            return Some(CircuitLine::Input(text::trim(name.as_slice())));
        },
        None => {},
    }
    let return_p = text_vec("return ");
    match text::strip_prefix(line, return_p.as_slice()) {
        Some(name) => {
            return Some(CircuitLine::Return(text::trim(name.as_slice())));
        },
        None => {},
    }
    match text::split_once(line, '=') {
        Some((l, r)) => Some(CircuitLine::Assign(text::trim(l.as_slice()), text::trim(r.as_slice()))),
        None => None,
    }
}

fn find_input(inputs: &[(String, i64)], name: &[char]) -> (r: Option<i64>)
    ensures
        r == input_value(inputs_view(inputs@), name@, inputs@.len() as int),
{
    let ghost iv = inputs_view(inputs@);
    let mut i: usize = inputs.len();
    while i > 0
        invariant
            i <= inputs@.len(),
            iv == inputs_view(inputs@),
            input_value(iv, name@, i as int) == input_value(iv, name@, inputs@.len() as int),
        decreases i,
    {
        let key = text::chars_of(inputs[i - 1].0.as_str());
        assert(iv[i - 1] == (inputs@[i - 1].0@, inputs@[i - 1].1));
        if text::seq_eq(key.as_slice(), name) {
            return Some(inputs[i - 1].1);
        }
        i = i - 1;
    }
    None
}

fn line_number(i: usize) -> (r: Vec<char>)
    requires
        i < usize::MAX,
    ensures
        r@ == "line "@ + decimal((i + 1) as nat),
{
    let mut r = text_vec("line ");
    let d = text::u64_decimal((i + 1) as u64);
    text::push_all(&mut r, d.as_slice());
    r
}

/// Run a circuit file homomorphically. `inputs` gives the value of each
/// declared `input` (the last entry of a name counts). Returns the final
/// cleartext result and a log of noise observations.
pub fn run_circuit(source: &str, inputs: &[(String, i64)]) -> (r: Result<(u64, String), String>)
    requires
        circuit_end(source@, inputs_view(inputs@)) !is Refused,
    ensures
        match circuit_end(source@, inputs_view(inputs@)) {
            CircuitEnd::Returned(name, sh) => r is Ok && (sh matches Shape::Plain(p) ==> r->Ok_0.0
                == #[verifier::truncate] (p as u64)) && ends_with(
                r->Ok_0.1@,
                "return "@ + name + " → "@ + decimal(r->Ok_0.0 as nat) + "\n"@,
            ),
            CircuitEnd::Error(m) => r is Err && r->Err_0@ == m,
            CircuitEnd::Refused => false,
        },
        circuit_end(source@, inputs_view(inputs@)) matches CircuitEnd::Returned(_, Shape::Cipher(_))
            ==> (circuit_model(text::lines_of(source@), 0, Seq::empty(), Seq::empty(), inputs_view(inputs@), toy_view())
            matches Some((m, b)) ==> (decryptable(toy_view(), m, b) ==> r->Ok_0.0 == m % 256)),
{
    let mut session = Session::toy();
    let mut log: Vec<char> = Vec::new();
    let chars = text::chars_of(source);
    let ls = text::lines(chars.as_slice());
    let ghost lv = text::line_views(ls@);
    let ghost iv = inputs_view(inputs@);
    assert(session.shapes() =~= Seq::<(Seq<char>, Shape)>::empty());
    assert(session.models@ =~= Seq::<Option<(int, int)>>::empty());
    let mut i: usize = 0;
    while i < ls.len()
        invariant
            i <= ls@.len(),
            lv == text::line_views(ls@),
            lv == text::lines_of(source@),
            iv == inputs_view(inputs@),
            session.wf(),
            session.params@ == toy_view(),
            circuit_from(lv, i as int, session.shapes(), iv) == circuit_end(source@, iv),
            circuit_model(lv, i as int, session.shapes(), session.models@, iv, toy_view()) == circuit_model(
                lv,
                0,
                Seq::empty(),
                Seq::empty(),
                iv,
                toy_view(),
            ),
            circuit_end(source@, iv) !is Refused,
        decreases ls.len() - i,
    {
        let raw = &ls[i];
        assert(lv[i as int] == raw@);
        let mut k: usize = 0;
        while k < raw.len() && raw[k] != '#'
            invariant
                k <= raw@.len(),
                text::find_char(raw@, '#', k as int) == text::find_char(raw@, '#', 0),
            decreases raw.len() - k,
        {
            k = k + 1;
        }
        let before = text::slice_of(raw.as_slice(), 0, k);
        assert(before@ =~= raw@.take(text::find_char(raw@, '#', 0)));
        let line = text::trim(before.as_slice());
        if line.len() == 0 {
            i = i + 1;
            continue;
        }
        match parse_line(line.as_slice()) {
            None => {
                let mut m = line_number(i);
                text::push_str(&mut m, ": cannot parse '");
                text::push_all(&mut m, raw.as_slice());
                text::push_str(&mut m, "'");
                return Err(text::string_of(m.as_slice()));
            },
            Some(CircuitLine::Input(name)) => {
                match find_input(inputs, name.as_slice()) {
                    None => {
                        let mut m = text_vec("missing input: ");
                        text::push_all(&mut m, name.as_slice());
                        return Err(text::string_of(m.as_slice()));
                    },
                    Some(v) => {
                        let ct = session.enc_one(v);
                        proof {
                            if plain_slot(v, 256) < 256 {
                                lemma_fresh_carries(session.pk, session.sk, v, ct);
                            }
                            lemma_fresh_noise_nonneg(session.params@);
                        }
                        session.bind(
                            name.as_slice(),
                            Value::Cipher(ct),
                            Ghost(side_model(Shape::Plain(v), None, toy_view())),
                        );
                        text::push_str(&mut log, "input ");
                        text::push_all(&mut log, name.as_slice());
                        text::push_str(&mut log, " ← enc(");
                        text::push_all(&mut log, text::i64_decimal(v).as_slice());
                        text::push_str(&mut log, ")\n");
                    },
                }
            },
            Some(CircuitLine::Assign(name, expr)) => {
                match session.eval_expr(expr.as_slice()) {
                    Err(e) => {
                        let mut m = line_number(i);
                        text::push_str(&mut m, ": ");
                        text::push_all(&mut m, e.as_slice());
                        return Err(text::string_of(m.as_slice()));
                    },
                    Ok(v) => {
                        text::push_all(&mut log, name.as_slice());
                        text::push_str(&mut log, " = ");
                        text::push_all(&mut log, expr.as_slice());
                        match &v {
                            Value::Cipher(ct) => {
                                let (_, log2_n, budget) = bfv::noise_estimate(&session.sk, ct);
                                text::push_str(&mut log, "     noise≈2^");
                                text::push_all(&mut log, text::u64_decimal(log2_n).as_slice());
                                text::push_str(&mut log, ".0 budget≈");
                                text::push_all(&mut log, text::u64_decimal(budget).as_slice());
                                text::push_str(&mut log, ".0\n");
                            },
                            Value::Plain(_) => {
                                text::push_str(&mut log, "    (plain)\n");
                            },
                        }
                        session.bind(
                            name.as_slice(),
                            v,
                            Ghost(binding_model(shape_of(v), eval_model(session.shapes(), session.models@, expr@, toy_view()))),
                        );
                    },
                }
            },
            Some(CircuitLine::Return(name)) => {
                match lookup_env(&session.env, name.as_slice()) {
                    None => {
                        let mut m = text_vec("return of undefined: ");
                        text::push_all(&mut m, name.as_slice());
                        return Err(text::string_of(m.as_slice()));
                    },
                    Some(j) => {
                        assert(session.shapes()[j as int].1 == shape_of(session.env@[j as int].1));
                        assert(code_of(lv[i as int]) == line@);
                        assert(circuit_end(source@, iv) == CircuitEnd::Returned(
                            name@,
                            shape_of(session.env@[j as int].1),
                        ));
                        assert(model_ok(session.sk, session.env@[j as int].1, session.models@[j as int]));
                        let result: u64 = match &session.env[j].1 {
                            Value::Cipher(ct) => {
                                let d = session.dec_one(ct);
                                proof {
                                    if session.models@[j as int] is Some {
                                        let (m, b) = session.models@[j as int]->Some_0;
                                        if decryptable(toy_view(), m, b) {
                                            lemma_model_decrypts(session.sk, *ct, m, b);
                                        }
                                    }
                                }
                                d
                            },
                            Value::Plain(p) => #[verifier::truncate] (*p as u64),
                        };
                        let ghost pre = log@;
                        text::push_str(&mut log, "return ");
                        text::push_all(&mut log, name.as_slice());
                        text::push_str(&mut log, " → ");
                        text::push_all(&mut log, text::u64_decimal(result).as_slice());
                        text::push_str(&mut log, "\n");
                        assert(log@ =~= pre + ("return "@ + name@ + " → "@ + decimal(result as nat)
                            + "\n"@));
                        assert(ends_with(log@, "return "@ + name@ + " → "@ + decimal(result as nat) + "\n"@)) by {
                            let t = "return "@ + name@ + " → "@ + decimal(result as nat) + "\n"@;
                            assert(log@.skip(log@.len() - t.len()) =~= t);
                        }
                        assert(session.env@[j as int].1 matches Value::Plain(p) ==> result == #[verifier::truncate] (p as u64));
                        return Ok((result, text::string_of(log.as_slice())));
                    },
                }
            },
        }
        i = i + 1;
    }
    Err(text::string_of(text_vec("circuit ended without return").as_slice()))
}

// ---------------------------------------------------------------------------
// Checking lines and circuits before running them
// ---------------------------------------------------------------------------

/// The shape of a value, as a run-time value.
pub enum ShapeOf {
    Plain(i64),
    Cipher(usize),
}

pub open spec fn shape_view(s: ShapeOf) -> Shape {
    match s {
        ShapeOf::Plain(p) => Shape::Plain(p),
        ShapeOf::Cipher(k) => Shape::Cipher(k as nat),
    }
}

/// A shape environment, as a run-time value.
pub open spec fn shape_env_view(env: Seq<(Vec<char>, ShapeOf)>) -> Seq<(Seq<char>, Shape)> {
    env.map_values(|e: (Vec<char>, ShapeOf)| (e.0@, shape_view(e.1)))
}

/// How evaluating over shapes ends: a shape, an error, or a refusal.
pub enum Verdict {
    Done(ShapeOf),
    Error,
    Refused,
}

fn lookup_shape(env: &Vec<(Vec<char>, ShapeOf)>, name: &[char]) -> (r: Option<usize>)
    ensures
        r matches Some(i) ==> i < env@.len() && lookup(shape_env_view(env@), name@) == Some(i as int),
        r is None ==> lookup(shape_env_view(env@), name@) is None,
{
    let ghost sh = shape_env_view(env@);
    let mut i: usize = env.len();
    while i > 0
        invariant
            i <= env@.len(),
            sh == shape_env_view(env@),
            lookup_from(sh, name@, i as int) == lookup(sh, name@),
        decreases i,
    {
        assert(sh[i - 1].0 == env@[i - 1].0@);
        if text::seq_eq(env[i - 1].0.as_slice(), name) {
            return Some(i - 1);
        }
        i = i - 1;
    }
    None
}

fn copy_shape(s: &ShapeOf) -> (r: ShapeOf)
    ensures
        shape_view(r) == shape_view(*s),
{
    match s {
        ShapeOf::Plain(p) => ShapeOf::Plain(*p),
        ShapeOf::Cipher(k) => ShapeOf::Cipher(*k),
    }
}

fn apply_shapes(op: char, a: ShapeOf, b: ShapeOf) -> (r: Verdict)
    requires
        op == '+' || op == '-' || op == '*',
    ensures
        match r {
            Verdict::Done(s) => apply_shape(op, shape_view(a), shape_view(b)) == Outcome::Done(
                shape_view(s),
            ),
            Verdict::Error => apply_shape(op, shape_view(a), shape_view(b)) is Error,
            Verdict::Refused => apply_shape(op, shape_view(a), shape_view(b)) is Refused,
        },
{
    match (a, b) {
        (ShapeOf::Plain(x), ShapeOf::Plain(y)) => {
            let v: Option<i64> = if op == '+' {
                x.checked_add(y)
            } else if op == '-' {
                x.checked_sub(y)
            } else {
                x.checked_mul(y)
            };
            match v {
                Some(v) => Verdict::Done(ShapeOf::Plain(v)),
                None => Verdict::Refused,
            }
        },
        (a, b) => {
            if op == '-' {
                return Verdict::Error;
            }
            let ka: usize = match a {
                ShapeOf::Plain(_) => 2,
                ShapeOf::Cipher(k) => k,
            };
            let kb: usize = match b {
                ShapeOf::Plain(_) => 2,
                ShapeOf::Cipher(k) => k,
            };
            if op == '+' {
                Verdict::Done(ShapeOf::Cipher(if ka >= kb { ka } else { kb }))
            } else if ka == 2 && kb == 2 {
                Verdict::Done(ShapeOf::Cipher(3))
            } else {
                Verdict::Refused
            }
        },
    }
}

/// Evaluate an expression over shapes only, as [`eval_shape`] says.
fn eval_shape_of(env: &Vec<(Vec<char>, ShapeOf)>, expr: &[char]) -> (r: Verdict)
    ensures
        match r {
            Verdict::Done(s) => eval_shape(shape_env_view(env@), expr@) == Outcome::Done(shape_view(s))
               ,
            Verdict::Error => eval_shape(shape_env_view(env@), expr@) is Error,
            Verdict::Refused => eval_shape(shape_env_view(env@), expr@) is Refused,
        },
    decreases expr@.len(),
{
    let enc_p = text_vec("enc ");
    match text::strip_prefix(expr, enc_p.as_slice()) {
        Some(inner) => {
            let t = text::trim(inner.as_slice());
            proof {
                reveal_strlit("enc ");
                lemma_trim_len(inner@);
            }
            match eval_shape_of(env, t.as_slice()) {
                Verdict::Done(ShapeOf::Plain(_)) => Verdict::Done(ShapeOf::Cipher(2)),
                Verdict::Done(ShapeOf::Cipher(_)) => Verdict::Error,
                Verdict::Error => Verdict::Error,
                Verdict::Refused => Verdict::Refused,
            }
        },
        None => {
            let mut found: Option<(char, usize)> = None;
            match find_top_level_op(expr, '+') {
                Some(k) => {
                    found = Some(('+', k));
                },
                None => match find_top_level_op(expr, '-') {
                    Some(k) => {
                        found = Some(('-', k));
                    },
                    None => match find_top_level_op(expr, '*') {
                        Some(k) => {
                            found = Some(('*', k));
                        },
                        None => {},
                    },
                },
            }
            assert(found matches Some((op, k)) ==> split_op(expr@) == Some((op, k as int)));
            assert(found is None ==> split_op(expr@) is None);
            match found {
                Some((op, k)) => {
                    proof {
                        lemma_split_op_bounds(expr@);
                    }
                    assert(split_op(expr@) == Some((op, k as int)));
                    assert(1 <= k < expr.len());
                    let l = text::slice_of(expr, 0, k);
                    let lt = text::trim(l.as_slice());
                    assert(l@ =~= expr@.take(k as int));
                    proof {
                        lemma_trim_len(l@);
                    }
                    let left = match eval_shape_of(env, lt.as_slice()) {
                        Verdict::Done(v) => v,
                        Verdict::Error => {
                            return Verdict::Error;
                        },
                        Verdict::Refused => {
                            return Verdict::Refused;
                        },
                    };
                    let r = text::slice_of(expr, k + 1, expr.len());
                    let rt = text::trim(r.as_slice());
                    assert(r@ =~= expr@.skip(k + 1));
                    proof {
                        lemma_trim_len(r@);
                    }
                    let right = match eval_shape_of(env, rt.as_slice()) {
                        Verdict::Done(v) => v,
                        Verdict::Error => {
                            return Verdict::Error;
                        },
                        Verdict::Refused => {
                            return Verdict::Refused;
                        },
                    };
                    apply_shapes(op, left, right)
                },
                None => if is_enclosed(expr) {
                    let inner = text::slice_of(expr, 1, expr.len() - 1);
                    let t = text::trim(inner.as_slice());
                    proof {
                        lemma_trim_len(inner@);
                    }
                    eval_shape_of(env, t.as_slice())
                } else {
                    match text::parse_i64(expr) {
                        Some(n) => Verdict::Done(ShapeOf::Plain(n)),
                        None => match lookup_shape(env, expr) {
                            Some(i) => {
                                assert(shape_env_view(env@)[i as int].1 == shape_view(env@[i as int].1));
                                Verdict::Done(copy_shape(&env[i].1))
                            },
                            None => Verdict::Error,
                        },
                    }
                },
            }
        },
    }
}

/// Bind `name` to shape `s` in a shape environment.
fn bind_shape(env: &mut Vec<(Vec<char>, ShapeOf)>, name: &[char], s: ShapeOf)
    ensures
        shape_env_view(final(env)@) == env_insert(shape_env_view(old(env)@), name@, shape_view(s)),
{
    let ghost sh = shape_env_view(env@);
    let key = text::slice_of(name, 0, name.len());
    assert(key@ =~= name@);
    match lookup_shape(env, name) {
        Some(i) => {
            env.set(i, (key, s));
            assert(shape_env_view(env@) =~= sh.update(i as int, (name@, shape_view(s))));
        },
        None => {
            env.push((key, s));
            assert(shape_env_view(env@) =~= sh.push((name@, shape_view(s))));
        },
    }
}

impl Session {
    /// Would running this line ask the evaluator for something it refuses
    /// (an integer overflow, or a product of a product)?
    pub fn refuses_line(&self, line: &str) -> (r: bool)
        requires
            self.wf(),
        ensures
            r == self.refuses(line@),
    {
        let ghost sh = self.shapes();
        let mut env: Vec<(Vec<char>, ShapeOf)> = Vec::new();
        let mut i: usize = 0;
        while i < self.env.len()
            invariant
                i <= self.env@.len(),
                self.wf(),
                sh == self.shapes(),
                shape_env_view(env@) == sh.take(i as int),
            decreases self.env.len() - i,
        {
            let key = text::chars_of(self.env[i].0.as_str());
            let s = match &self.env[i].1 {
                Value::Plain(p) => ShapeOf::Plain(*p),
                Value::Cipher(c) => ShapeOf::Cipher(c.parts.len()),
            };
            assert(sh[i as int] == (key@, shape_view(s)));
            let ghost before = env@;
            env.push((key, s));
            assert(shape_env_view(env@) =~= shape_env_view(before).push(sh[i as int]));
            assert(sh.take(i as int).push(sh[i as int]) =~= sh.take(i + 1));
            i = i + 1;
        }
        assert(sh.take(self.env@.len() as int) =~= sh);
        let chars = text::chars_of(line);
        let t = text::trim(chars.as_slice());
        proof {
            reveal_strlit("quit");
            reveal_strlit("exit");
            reveal_strlit("help");
            reveal_strlit("vars");
        }
        if t.len() == 0 || t[0] == '#' {
            return false;
        }
        if text::seq_eq(t.as_slice(), text_vec("quit").as_slice()) || text::seq_eq(
            t.as_slice(),
            text_vec("exit").as_slice(),
        ) || text::seq_eq(t.as_slice(), text_vec("help").as_slice()) || text::seq_eq(
            t.as_slice(),
            text_vec("vars").as_slice(),
        ) {
            return false;
        }
        if text::strip_prefix(t.as_slice(), text_vec("dec ").as_slice()).is_some()
            || text::strip_prefix(t.as_slice(), text_vec("noise ").as_slice()).is_some() {
            return false;
        }
        let expr = match text::split_once(t.as_slice(), '=') {
            Some((_, rhs)) => text::trim(rhs.as_slice()),
            None => t,
        };
        match eval_shape_of(&env, expr.as_slice()) {
            Verdict::Refused => true,
            _ => false,
        }
    }
}

/// Would running this circuit ask the evaluator for something it refuses?
pub fn circuit_refuses(source: &str, inputs: &[(String, i64)]) -> (r: bool)
    ensures
        r == (circuit_end(source@, inputs_view(inputs@)) is Refused),
{
    let chars = text::chars_of(source);
    let ls = text::lines(chars.as_slice());
    let ghost lv = text::line_views(ls@);
    let ghost iv = inputs_view(inputs@);
    let mut env: Vec<(Vec<char>, ShapeOf)> = Vec::new();
    assert(shape_env_view(env@) =~= Seq::<(Seq<char>, Shape)>::empty());
    let mut i: usize = 0;
    while i < ls.len()
        invariant
            i <= ls@.len(),
            lv == text::line_views(ls@),
            lv == text::lines_of(source@),
            iv == inputs_view(inputs@),
            circuit_from(lv, i as int, shape_env_view(env@), iv) == circuit_end(source@, iv),
        decreases ls.len() - i,
    {
        let raw = &ls[i];
        assert(lv[i as int] == raw@);
        let mut k: usize = 0;
        while k < raw.len() && raw[k] != '#'
            invariant
                k <= raw@.len(),
                text::find_char(raw@, '#', k as int) == text::find_char(raw@, '#', 0),
            decreases raw.len() - k,
        {
            k = k + 1;
        }
        let before = text::slice_of(raw.as_slice(), 0, k);
        assert(before@ =~= raw@.take(text::find_char(raw@, '#', 0)));
        let line = text::trim(before.as_slice());
        if line.len() == 0 {
            i = i + 1;
            continue;
        }
        match parse_line(line.as_slice()) {
            None => {
                return false;
            },
            Some(CircuitLine::Input(name)) => {
                match find_input(inputs, name.as_slice()) {
                    None => {
                        return false;
                    },
                    Some(_) => {
                        bind_shape(&mut env, name.as_slice(), ShapeOf::Cipher(2));
                    },
                }
            },
            Some(CircuitLine::Assign(name, expr)) => {
                match eval_shape_of(&env, expr.as_slice()) {
                    Verdict::Error => {
                        return false;
                    },
                    Verdict::Refused => {
                        return true;
                    },
                    Verdict::Done(s) => {
                        bind_shape(&mut env, name.as_slice(), s);
                    },
                }
            },
            Some(CircuitLine::Return(_)) => {
                return false;
            },
        }
        i = i + 1;
    }
    false
}

} // verus!
