//! Laws of the polynomial ring `ℤ[X]/(X^n + 1)` and of RLWE ciphertexts
//! over it. Negacyclic multiplication is commutative and associative,
//! bilinear, respects congruence modulo `q`, and keeps small-times-ternary
//! products small. On top of these: the phase of a fresh RLWE encryption is
//! the message plus bounded noise, phases add, the phase of a tensor product
//! is the product of the phases, and rescaling by rounding moves a phase by
//! a bounded amount. BFV and CKKS decryption rest on these facts.

use vstd::prelude::*;
use crate::ring::{
    nc_term, nc_sum, negacyclic, centre_value, padd, pneg, pmul, phase, is_ternary, is_small,
    lemma_centre_value, round_div_value,
};
use crate::bigint::tdiv;

verus! {

/// `Σ_{j < i} f(j)`.
pub open spec fn sum_to(f: spec_fn(int) -> int, i: int) -> int
    decreases i,
{
    if i <= 0 {
        0
    } else {
        sum_to(f, i - 1) + f(i - 1)
    }
}

/// Sums of pointwise-equal terms are equal.
pub proof fn lemma_sum_congr(f: spec_fn(int) -> int, g: spec_fn(int) -> int, i: int)
    requires
        forall|j: int| #![trigger f(j)] #![trigger g(j)] 0 <= j < i ==> f(j) == g(j),
    ensures
        sum_to(f, i) == sum_to(g, i),
    decreases i,
{
    if i > 0 {
        lemma_sum_congr(f, g, i - 1);
    }
}

/// The sum of pointwise sums is the sum of the sums.
pub proof fn lemma_sum_add(f: spec_fn(int) -> int, g: spec_fn(int) -> int, h: spec_fn(int) -> int, i: int)
    requires
        forall|j: int| #![trigger h(j)] 0 <= j < i ==> h(j) == f(j) + g(j),
    ensures
        sum_to(h, i) == sum_to(f, i) + sum_to(g, i),
    decreases i,
{
    if i > 0 {
        lemma_sum_add(f, g, h, i - 1);
    }
}

/// A constant factor comes out of a sum.
pub proof fn lemma_sum_scale(f: spec_fn(int) -> int, g: spec_fn(int) -> int, c: int, i: int)
    requires
        forall|j: int| #![trigger g(j)] 0 <= j < i ==> g(j) == c * f(j),
    ensures
        sum_to(g, i) == c * sum_to(f, i),
    decreases i,
{
    if i > 0 {
        lemma_sum_scale(f, g, c, i - 1);
        assert(c * sum_to(f, i - 1) + c * f(i - 1) == c * (sum_to(f, i - 1) + f(i - 1))) by (nonlinear_arith);
    }
}

/// A sum whose terms all vanish but the one at `j0` is that term.
pub proof fn lemma_sum_delta(f: spec_fn(int) -> int, i: int, j0: int)
    requires
        forall|j: int| #![trigger f(j)] 0 <= j < i && j != j0 ==> f(j) == 0,
    ensures
        sum_to(f, i) == if 0 <= j0 < i { f(j0) } else { 0 },
    decreases i,
{
    if i > 0 {
        lemma_sum_delta(f, i - 1, j0);
    }
}

/// A sum of zeros is zero.
pub proof fn lemma_sum_zero(f: spec_fn(int) -> int, i: int)
    requires
        forall|j: int| #![trigger f(j)] 0 <= j < i ==> f(j) == 0,
    ensures
        sum_to(f, i) == 0,
{
    lemma_sum_delta(f, i, -1);
}

/// Summation order of a double sum can be exchanged.
pub proof fn lemma_sum_swap(f: spec_fn(int, int) -> int, n: int, m: int)
    ensures
        sum_to(|i: int| sum_to(|j: int| f(i, j), m), n) == sum_to(|j: int| sum_to(|i: int| f(i, j), n), m),
    decreases n,
{
    let lhs = |i: int| sum_to(|j: int| f(i, j), m);
    let g = |j: int| sum_to(|i: int| f(i, j), n);
    if n <= 0 {
        assert forall|j: int| 0 <= j < m implies #[trigger] g(j) == 0 by {}
        lemma_sum_zero(g, m);
    } else {
        lemma_sum_swap(f, n - 1, m);
        let g1 = |j: int| sum_to(|i: int| f(i, j), n - 1);
        let last = |j: int| f(n - 1, j);
        assert forall|j: int| 0 <= j < m implies #[trigger] g(j) == g1(j) + last(j) by {
            assert(sum_to(|i: int| f(i, j), n) == sum_to(|i: int| f(i, j), n - 1) + f(n - 1, j));
        }
        lemma_sum_add(g1, last, g, m);
        assert(sum_to(lhs, n) == sum_to(lhs, n - 1) + lhs(n - 1));
        assert(lhs(n - 1) == sum_to(last, m));
        assert(sum_to(lhs, n - 1) == sum_to(g1, m));
    }
}

/// A sum of `i` terms of absolute value at most `b` is at most `i · b` in absolute value.
pub proof fn lemma_sum_bound(f: spec_fn(int) -> int, i: int, b: int)
    requires
        i >= 0,
        forall|j: int| #![trigger f(j)] 0 <= j < i ==> -b <= f(j) <= b,
    ensures
        -(i * b) <= sum_to(f, i) <= i * b,
    decreases i,
{
    if i > 0 {
        lemma_sum_bound(f, i - 1, b);
        assert((i - 1) * b + b == i * b) by (nonlinear_arith);
    }
}

/// Sums of pointwise-congruent terms are congruent.
pub proof fn lemma_sum_mod(f: spec_fn(int) -> int, g: spec_fn(int) -> int, i: int, q: int)
    requires
        q > 0,
        forall|j: int| #![trigger f(j)] #![trigger g(j)] 0 <= j < i ==> f(j) % q == g(j) % q,
    ensures
        sum_to(f, i) % q == sum_to(g, i) % q,
    decreases i,
{
    if i > 0 {
        lemma_sum_mod(f, g, i - 1, q);
        vstd::arithmetic::div_mod::lemma_add_mod_noop(sum_to(f, i - 1), f(i - 1), q);
        vstd::arithmetic::div_mod::lemma_add_mod_noop(sum_to(g, i - 1), g(i - 1), q);
    }
}


/// Coefficient `k` of `X^r · b` in `ℤ[X]/(X^n + 1)`.
pub open spec fn rot(b: Seq<int>, n: int, r: int, k: int) -> int {
    if r <= k {
        b[k - r]
    } else {
        -b[k - r + n]
    }
}

/// The sign with which `X^r · X^j` lands on `X^l`: `+1` for `r + j = l`,
/// `-1` for `r + j = l + n`, else 0.
pub open spec fn sign_w(r: int, j: int, l: int, n: int) -> int {
    if r + j == l {
        1
    } else if r + j == l + n {
        -1
    } else {
        0
    }
}

/// The sign with which `X^x` (`x < 3n`) lands on `X^k`.
pub open spec fn omega(x: int, k: int, n: int) -> int {
    if x == k {
        1
    } else if x == k + n {
        -1
    } else if x == k + 2 * n {
        1
    } else {
        0
    }
}

/// `Σ_l (X^r·s)_l · (X^l·u)_k`: coefficient `k` of `(X^r · s) · u`.
pub open spec fn tri(s: Seq<int>, u: Seq<int>, n: int, r: int, k: int) -> int {
    sum_to(|l: int| rot(s, n, r, l) * rot(u, n, l, k), n)
}

/// `Σ_j Σ_m s_j · u_m · ω(r + j + m, k)`.
pub open spec fn dsum(s: Seq<int>, u: Seq<int>, n: int, r: int, k: int) -> int {
    sum_to(|j: int| sum_to(|m: int| s[j] * u[m] * omega(r + j + m, k, n), n), n)
}

/// A coefficient of the negacyclic product as a sum over rows.
pub proof fn lemma_nc_sum_rows(a: Seq<int>, b: Seq<int>, n: int, i: int, k: int)
    ensures
        nc_sum(a, b, n, i, k) == sum_to(|r: int| a[r] * rot(b, n, r, k), i),
    decreases i,
{
    if i > 0 {
        lemma_nc_sum_rows(a, b, n, i - 1, k);
        let r = i - 1;
        if r > k {
            assert(-(a[r] * b[k - r + n]) == a[r] * (-b[k - r + n])) by (nonlinear_arith);
        }
        assert(nc_term(a, b, n, r, k) == a[r] * rot(b, n, r, k));
    }
}

/// Coefficient `l` of `X^r · b` as a signed sum over `b`.
pub proof fn lemma_rot_as_sum(b: Seq<int>, n: int, r: int, l: int)
    requires
        0 <= r < n,
        0 <= l < n,
    ensures
        rot(b, n, r, l) == sum_to(|j: int| b[j] * sign_w(r, j, l, n), n),
{
    let f = |j: int| b[j] * sign_w(r, j, l, n);
    let j0 = if r <= l { l - r } else { l - r + n };
    assert forall|j: int| 0 <= j < n && j != j0 implies #[trigger] f(j) == 0 by {
        assert(sign_w(r, j, l, n) == 0);
    }
    lemma_sum_delta(f, n, j0);
}

/// The sign of `X^r · X^j` landing on `X^l0`, times that of `X^l0 · X^m` landing on `X^k`.
proof fn lemma_sign_chain(r: int, j: int, m: int, k: int, n: int)
    requires
        0 <= r < n,
        0 <= j < n,
        0 <= m < n,
        0 <= k < n,
    ensures
        ({
            let l0 = if r + j < n { r + j } else { r + j - n };
            sign_w(r, j, l0, n) * sign_w(l0, m, k, n) == omega(r + j + m, k, n)
        }),
{
}

/// `(X^r · s) · u` has coefficient `k` equal to the symmetric double sum.
pub proof fn lemma_tri_dsum(s: Seq<int>, u: Seq<int>, n: int, r: int, k: int)
    requires
        0 <= r < n,
        0 <= k < n,
    ensures
        tri(s, u, n, r, k) == dsum(s, u, n, r, k),
{
    let big_f = |l: int, j: int| s[j] * sign_w(r, j, l, n) * rot(u, n, l, k);
    let row = |l: int| rot(s, n, r, l) * rot(u, n, l, k);
    // expand rot(s, r, l) as a sum over j
    let rowsum = |i: int| sum_to(|j: int| big_f(i, j), n);
    assert forall|l: int| 0 <= l < n implies #[trigger] row(l) == rowsum(l) by {
        lemma_rot_as_sum(s, n, r, l);
        let c = rot(u, n, l, k);
        let f = |j: int| s[j] * sign_w(r, j, l, n);
        let g = |j: int| big_f(l, j);
        assert forall|j: int| 0 <= j < n implies #[trigger] g(j) == c * f(j) by {
            assert(s[j] * sign_w(r, j, l, n) * c == c * (s[j] * sign_w(r, j, l, n))) by (nonlinear_arith);
        }
        lemma_sum_scale(f, g, c, n);
        assert(row(l) == sum_to(f, n) * c);
        assert(sum_to(f, n) * c == c * sum_to(f, n)) by (nonlinear_arith);
    }
    lemma_sum_congr(row, rowsum, n);
    lemma_sum_swap(big_f, n, n);
    // each column sums to the inner sum of dsum
    let inner = |j: int| sum_to(|m: int| s[j] * u[m] * omega(r + j + m, k, n), n);
    let colsum = |j: int| sum_to(|i: int| big_f(i, j), n);
    assert forall|j: int| 0 <= j < n implies #[trigger] colsum(j) == inner(j) by {
        let l0 = if r + j < n { r + j } else { r + j - n };
        let sg = sign_w(r, j, l0, n);
        let col = |l: int| big_f(l, j);
        assert forall|l: int| 0 <= l < n && l != l0 implies #[trigger] col(l) == 0 by {
            let w = sign_w(r, j, l, n);
            assert(w == 0);
            assert(s[j] * w * rot(u, n, l, k) == 0) by (nonlinear_arith)
                requires
                    w == 0,
            ;
        }
        lemma_sum_delta(col, n, l0);
        lemma_rot_as_sum(u, n, l0, k);
        let fu = |m: int| u[m] * sign_w(l0, m, k, n);
        let gm = |m: int| s[j] * u[m] * omega(r + j + m, k, n);
        assert forall|m: int| 0 <= m < n implies #[trigger] gm(m) == (s[j] * sg) * fu(m) by {
            lemma_sign_chain(r, j, m, k, n);
            assert(s[j] * u[m] * (sg * sign_w(l0, m, k, n)) == (s[j] * sg) * (u[m] * sign_w(l0, m, k, n))) by (nonlinear_arith);
        }
        lemma_sum_scale(fu, gm, s[j] * sg, n);
        assert(col(l0) == s[j] * sg * rot(u, n, l0, k));
    }
    lemma_sum_congr(colsum, inner, n);
}

/// The symmetric double sum does not care which factor comes first.
pub proof fn lemma_dsum_symmetric(s: Seq<int>, u: Seq<int>, n: int, r: int, k: int)
    ensures
        dsum(s, u, n, r, k) == dsum(u, s, n, r, k),
{
    let f = |i: int, j: int| u[i] * s[j] * omega(r + i + j, k, n);
    lemma_sum_swap(f, n, n);
    let outer_a = |j: int| sum_to(|i: int| f(i, j), n);
    let outer_b = |j: int| sum_to(|m: int| s[j] * u[m] * omega(r + j + m, k, n), n);
    assert forall|j: int| 0 <= j < n implies #[trigger] outer_a(j) == outer_b(j) by {
        let g1 = |i: int| f(i, j);
        let g2 = |m: int| s[j] * u[m] * omega(r + j + m, k, n);
        assert forall|i: int| 0 <= i < n implies #[trigger] g1(i) == g2(i) by {
            assert(u[i] * s[j] == s[j] * u[i]) by (nonlinear_arith);
            assert(r + i + j == r + j + i);
        }
        lemma_sum_congr(g1, g2, n);
    }
    lemma_sum_congr(outer_a, outer_b, n);
    let inner_u = |i: int| sum_to(|j: int| f(i, j), n);
    let inner_d = |j: int| sum_to(|m: int| u[j] * s[m] * omega(r + j + m, k, n), n);
    assert forall|i: int| 0 <= i < n implies #[trigger] inner_u(i) == inner_d(i) by {
        lemma_sum_congr(|j: int| f(i, j), |m: int| u[i] * s[m] * omega(r + i + m, k, n), n);
    }
    lemma_sum_congr(inner_u, inner_d, n);
}

/// Coefficient `k` of `(a · s) · u` as a sum over the rows of `a`.
pub proof fn lemma_triple_rows(a: Seq<int>, s: Seq<int>, u: Seq<int>, n: int, k: int)
    requires
        0 <= k < n,
    ensures
        negacyclic(negacyclic(a, s, n), u, n)[k] == sum_to(|r: int| a[r] * tri(s, u, n, r, k), n),
{
    let as_ = negacyclic(a, s, n);
    lemma_nc_sum_rows(as_, u, n, n, k);
    let big_f = |l: int, r: int| a[r] * rot(s, n, r, l) * rot(u, n, l, k);
    let row = |l: int| as_[l] * rot(u, n, l, k);
    let rowsum = |i: int| sum_to(|j: int| big_f(i, j), n);
    assert forall|l: int| 0 <= l < n implies #[trigger] row(l) == rowsum(l) by {
        lemma_nc_sum_rows(a, s, n, n, l);
        let c = rot(u, n, l, k);
        let f = |r: int| a[r] * rot(s, n, r, l);
        let g = |r: int| big_f(l, r);
        assert forall|r: int| 0 <= r < n implies #[trigger] g(r) == c * f(r) by {
            assert(a[r] * rot(s, n, r, l) * c == c * (a[r] * rot(s, n, r, l))) by (nonlinear_arith);
        }
        lemma_sum_scale(f, g, c, n);
        assert(sum_to(f, n) * c == c * sum_to(f, n)) by (nonlinear_arith);
    }
    lemma_sum_congr(row, rowsum, n);
    lemma_sum_swap(big_f, n, n);
    let target = |r: int| a[r] * tri(s, u, n, r, k);
    let colsum = |j: int| sum_to(|i: int| big_f(i, j), n);
    assert forall|r: int| 0 <= r < n implies #[trigger] colsum(r) == target(r) by {
        let f = |l: int| rot(s, n, r, l) * rot(u, n, l, k);
        let g = |l: int| big_f(l, r);
        assert forall|l: int| 0 <= l < n implies #[trigger] g(l) == a[r] * f(l) by {
            assert(a[r] * rot(s, n, r, l) * rot(u, n, l, k) == a[r] * (rot(s, n, r, l) * rot(u, n, l, k))) by (nonlinear_arith);
        }
        lemma_sum_scale(f, g, a[r], n);
    }
    lemma_sum_congr(colsum, target, n);
}

/// Negacyclic products commute past each other: `(a · s) · u = (a · u) · s`.
pub proof fn lemma_mul_exchange(a: Seq<int>, s: Seq<int>, u: Seq<int>, n: int)
    requires
        n >= 0,
    ensures
        negacyclic(negacyclic(a, s, n), u, n) == negacyclic(negacyclic(a, u, n), s, n),
{
    assert forall|k: int| 0 <= k < n implies #[trigger] negacyclic(negacyclic(a, s, n), u, n)[k]
        == negacyclic(negacyclic(a, u, n), s, n)[k] by {
        lemma_triple_rows(a, s, u, n, k);
        lemma_triple_rows(a, u, s, n, k);
        let f = |r: int| a[r] * tri(s, u, n, r, k);
        let g = |r: int| a[r] * tri(u, s, n, r, k);
        assert forall|r: int| 0 <= r < n implies #[trigger] f(r) == g(r) by {
            lemma_tri_dsum(s, u, n, r, k);
            lemma_tri_dsum(u, s, n, r, k);
            lemma_dsum_symmetric(s, u, n, r, k);
        }
        lemma_sum_congr(f, g, n);
    }
    assert(negacyclic(negacyclic(a, s, n), u, n) =~= negacyclic(negacyclic(a, u, n), s, n));
}


/// Congruence and linearity in the first factor: if `x ≡ c1·y + c2·w (mod q)`
/// coefficient-wise, then `x·z ≡ c1·(y·z) + c2·(w·z) (mod q)`.
pub proof fn lemma_nc_linear_mod(
    x: Seq<int>,
    y: Seq<int>,
    w: Seq<int>,
    z: Seq<int>,
    c1: int,
    c2: int,
    n: int,
    q: int,
    k: int,
)
    requires
        q > 0,
        0 <= k < n,
        forall|i: int| 0 <= i < n ==> #[trigger] x[i] % q == (c1 * y[i] + c2 * w[i]) % q,
    ensures
        negacyclic(x, z, n)[k] % q == (c1 * negacyclic(y, z, n)[k] + c2 * negacyclic(w, z, n)[k]) % q,
{
    lemma_nc_sum_rows(x, z, n, n, k);
    lemma_nc_sum_rows(y, z, n, n, k);
    lemma_nc_sum_rows(w, z, n, n, k);
    let fx = |r: int| x[r] * rot(z, n, r, k);
    let fy = |r: int| y[r] * rot(z, n, r, k);
    let fw = |r: int| w[r] * rot(z, n, r, k);
    let gy = |r: int| c1 * fy(r);
    let gw = |r: int| c2 * fw(r);
    let lin = |r: int| gy(r) + gw(r);
    assert forall|r: int| 0 <= r < n implies #[trigger] fx(r) % q == lin(r) % q by {
        let rz = rot(z, n, r, k);
        vstd::arithmetic::div_mod::lemma_mul_mod_noop_left(x[r], rz, q);
        vstd::arithmetic::div_mod::lemma_mul_mod_noop_left(c1 * y[r] + c2 * w[r], rz, q);
        assert((c1 * y[r] + c2 * w[r]) * rz == c1 * (y[r] * rz) + c2 * (w[r] * rz)) by (nonlinear_arith);
    }
    lemma_sum_mod(fx, lin, n, q);
    lemma_sum_add(gy, gw, lin, n);
    lemma_sum_scale(fy, gy, c1, n);
    lemma_sum_scale(fw, gw, c2, n);
}

/// A small polynomial times a ternary one stays small: every coefficient of
/// `e · u` is at most `n · eta` in absolute value.
pub proof fn lemma_nc_small(e: Seq<int>, u: Seq<int>, n: int, eta: int, k: int)
    requires
        0 <= k < n,
        e.len() == n,
        u.len() == n,
        forall|i: int| 0 <= i < e.len() ==> -eta <= #[trigger] e[i] <= eta,
        forall|i: int| 0 <= i < u.len() ==> -1 <= #[trigger] u[i] <= 1,
    ensures
        -(n * eta) <= negacyclic(e, u, n)[k] <= n * eta,
{
    lemma_nc_sum_rows(e, u, n, n, k);
    let f = |r: int| e[r] * rot(u, n, r, k);
    assert forall|r: int| 0 <= r < n implies -eta <= #[trigger] f(r) <= eta by {
        let c = rot(u, n, r, k);
        assert(-1 <= c <= 1);
        let x = e[r];
        assert(-eta <= x <= eta);
        assert(-eta <= x * c <= eta) by (nonlinear_arith)
            requires
                -1 <= c <= 1,
                -eta <= x <= eta,
        ;
    }
    lemma_sum_bound(f, n, eta);
}


/// `a ≡ a2` and `b ≡ b2` give `a + b ≡ a2 + b2 (mod q)`.
pub proof fn lemma_cong_add(a: int, b: int, a2: int, b2: int, q: int)
    requires
        q > 0,
        a % q == a2 % q,
        b % q == b2 % q,
    ensures
        (a + b) % q == (a2 + b2) % q,
{
    vstd::arithmetic::div_mod::lemma_add_mod_noop(a, b, q);
    vstd::arithmetic::div_mod::lemma_add_mod_noop(a2, b2, q);
}

/// `a ≡ a2` gives `-a ≡ -a2 (mod q)`.
pub proof fn lemma_cong_neg(a: int, a2: int, q: int)
    requires
        q > 0,
        a % q == a2 % q,
    ensures
        (-a) % q == (-a2) % q,
{
    vstd::arithmetic::div_mod::lemma_sub_mod_noop(0, a, q);
    vstd::arithmetic::div_mod::lemma_sub_mod_noop(0, a2, q);
}

/// The noise in coefficient `k` of a fresh RLWE encryption: `e1 + e2·s - e·u`.
pub open spec fn rlwe_noise(
    e: Seq<int>,
    s: Seq<int>,
    u: Seq<int>,
    e1: Seq<int>,
    e2: Seq<int>,
    n: int,
    k: int,
) -> int {
    e1[k] + negacyclic(e2, s, n)[k] - negacyclic(e, u, n)[k]
}

/// The RLWE phase of a fresh encryption. With `b = -(a·s + e)` and
/// `(c0, c1) = (b·u + e1 + mp, a·u + e2)` in `R_q`, coefficient `k` of
/// `c0 + c1·s` is `mp_k + (e1 + e2·s - e·u)_k` modulo `q`, and that noise is
/// at most `(2n + 1)·eta` in absolute value when `s`, `u` are ternary and
/// `e`, `e1`, `e2` bounded by `eta`.
pub proof fn lemma_rlwe_phase(
    n: nat,
    q: int,
    eta: int,
    a: Seq<int>,
    s: Seq<int>,
    e: Seq<int>,
    mp: Seq<int>,
    u: Seq<int>,
    e1: Seq<int>,
    e2: Seq<int>,
    k: int,
)
    requires
        q > 0,
        a.len() == n && s.len() == n && e.len() == n,
        u.len() == n && e1.len() == n && e2.len() == n,
        mp.len() == n,
        is_ternary(s) && is_ternary(u),
        is_small(e, eta) && is_small(e1, eta) && is_small(e2, eta),
        0 <= k < n,
    ensures
        ({
            let b = pneg(padd(pmul(a, s, q), e, q), q);
            let c0 = padd(padd(pmul(b, u, q), e1, q), mp, q);
            let c1 = padd(pmul(a, u, q), e2, q);
            let v = rlwe_noise(e, s, u, e1, e2, n as int, k);
            &&& phase(seq![c0, c1], s, q)[k] % q == (mp[k] + v) % q
            &&& -((2 * n + 1) * eta) <= v <= (2 * n + 1) * eta
        }),
{
    let ni = n as int;
    let b = pneg(padd(pmul(a, s, q), e, q), q);
    let c0 = padd(padd(pmul(b, u, q), e1, q), mp, q);
    let c1 = padd(pmul(a, u, q), e2, q);
    let as_ = negacyclic(a, s, ni);
    let au = negacyclic(a, u, ni);
    // b ≡ -(a·s) - e coefficient-wise
    assert forall|i: int| 0 <= i < ni implies #[trigger] b[i] % q == ((-1) * as_[i] + (-1) * e[i]) % q by {
        let pm = pmul(a, s, q)[i];
        lemma_centre_value(as_[i], q);
        lemma_centre_value(pm + e[i], q);
        lemma_cong_add(pm, e[i], as_[i], e[i], q);
        let pi = padd(pmul(a, s, q), e, q)[i];
        lemma_centre_value(-pi, q);
        lemma_cong_neg(pi, as_[i] + e[i], q);
    }
    // c1 ≡ a·u + e2 coefficient-wise
    assert forall|i: int| 0 <= i < ni implies #[trigger] c1[i] % q == (1 * au[i] + 1 * e2[i]) % q by {
        let pm = pmul(a, u, q)[i];
        lemma_centre_value(au[i], q);
        lemma_centre_value(pm + e2[i], q);
        lemma_cong_add(pm, e2[i], au[i], e2[i], q);
    }
    lemma_mul_exchange(a, s, u, ni);
    let bu = negacyclic(b, u, ni)[k];
    let eu = negacyclic(e, u, ni)[k];
    let e2s = negacyclic(e2, s, ni)[k];
    let asu = negacyclic(as_, u, ni)[k];
    let c1s = negacyclic(c1, s, ni)[k];
    // (b·u)_k ≡ -(a·s·u)_k - (e·u)_k
    lemma_nc_linear_mod(b, as_, e, u, -1, -1, ni, q, k);
    // (c1·s)_k ≡ (a·u·s)_k + (e2·s)_k = (a·s·u)_k + (e2·s)_k
    lemma_nc_linear_mod(c1, au, e2, s, 1, 1, ni, q, k);
    // the centred pieces
    let pbu = pmul(b, u, q)[k];
    lemma_centre_value(bu, q);
    let x = padd(pmul(b, u, q), e1, q)[k];
    lemma_centre_value(pbu + e1[k], q);
    let c0k = c0[k];
    lemma_centre_value(x + mp[k], q);
    let pc1s = pmul(c1, s, q)[k];
    lemma_centre_value(c1s, q);
    let ph = phase(seq![c0, c1], s, q)[k];
    lemma_centre_value(c0k + pc1s, q);
    assert(ph == centre_value(c0k + pc1s, q));
    // assemble: ph ≡ c0k + c1s ≡ x + mp + c1s ≡ bu + e1 + mp + c1s
    let v = e1[k] + e2s - eu;
    lemma_cong_add(pbu, e1[k], bu, e1[k], q);
    lemma_cong_add(x, mp[k], bu + e1[k], mp[k], q);
    lemma_cong_add(c0k, pc1s, (bu + e1[k]) + mp[k], c1s, q);
    lemma_cong_add(bu, e1[k] + mp[k] + c1s, (-1) * asu + (-1) * eu, e1[k] + mp[k] + c1s, q);
    lemma_cong_add(
        (-1) * asu + (-1) * eu + e1[k] + mp[k],
        c1s,
        (-1) * asu + (-1) * eu + e1[k] + mp[k],
        1 * asu + 1 * e2s,
        q,
    );
    assert((-1) * asu + (-1) * eu + e1[k] + mp[k] + (1 * asu + 1 * e2s) == mp[k] + v);
    // the noise is small
    lemma_nc_small(e2, s, ni, eta, k);
    lemma_nc_small(e, u, ni, eta, k);
    assert(-((2 * n + 1) * eta) <= v <= (2 * n + 1) * eta) by (nonlinear_arith)
        requires
            -(ni * eta) <= e2s <= ni * eta,
            -(ni * eta) <= eu <= ni * eta,
            -eta <= e1[k] <= eta,
            v == e1[k] + e2s - eu,
            ni == n,
    ;
}


/// Phases add: the phase of the coefficient-wise sum of two two-part
/// ciphertexts is the sum of their phases modulo `q`.
pub proof fn lemma_phase_add(
    c0: Seq<int>,
    c1: Seq<int>,
    d0: Seq<int>,
    d1: Seq<int>,
    s: Seq<int>,
    q: int,
    n: nat,
    k: int,
)
    requires
        q > 0,
        c0.len() == n && c1.len() == n && d0.len() == n && d1.len() == n,
        0 <= k < n,
    ensures
        phase(seq![padd(c0, d0, q), padd(c1, d1, q)], s, q)[k] % q == (phase(seq![c0, c1], s, q)[k]
            + phase(seq![d0, d1], s, q)[k]) % q,
{
    let ni = n as int;
    let s0 = padd(c0, d0, q);
    let s1 = padd(c1, d1, q);
    let p1 = phase(seq![c0, c1], s, q)[k];
    let p2 = phase(seq![d0, d1], s, q)[k];
    assert forall|i: int| 0 <= i < ni implies #[trigger] s1[i] % q == (1 * c1[i] + 1 * d1[i]) % q by {
        lemma_centre_value(c1[i] + d1[i], q);
    }
    lemma_nc_linear_mod(s1, c1, d1, s, 1, 1, ni, q, k);
    let nc1 = negacyclic(c1, s, ni)[k];
    let nd1 = negacyclic(d1, s, ni)[k];
    let ns1 = negacyclic(s1, s, ni)[k];
    lemma_centre_value(ns1, q);
    lemma_centre_value(nc1, q);
    lemma_centre_value(nd1, q);
    lemma_centre_value(c0[k] + d0[k], q);
    lemma_centre_value(s0[k] + pmul(s1, s, q)[k], q);
    lemma_centre_value(c0[k] + pmul(c1, s, q)[k], q);
    lemma_centre_value(d0[k] + pmul(d1, s, q)[k], q);
    lemma_cong_add(s0[k], pmul(s1, s, q)[k], c0[k] + d0[k], 1 * nc1 + 1 * nd1, q);
    lemma_cong_add(c0[k], pmul(c1, s, q)[k], c0[k], nc1, q);
    lemma_cong_add(d0[k], pmul(d1, s, q)[k], d0[k], nd1, q);
    lemma_cong_add(p1, p2, c0[k] + nc1, d0[k] + nd1, q);
    assert((c0[k] + d0[k]) + (1 * nc1 + 1 * nd1) == (c0[k] + nc1) + (d0[k] + nd1));
}


/// Exact linearity in the first factor: if `x = c1·y + c2·w` coefficient-wise,
/// then `x·z = c1·(y·z) + c2·(w·z)`.
pub proof fn lemma_nc_linear(
    x: Seq<int>,
    y: Seq<int>,
    w: Seq<int>,
    z: Seq<int>,
    c1: int,
    c2: int,
    n: int,
    k: int,
)
    requires
        0 <= k < n,
        forall|i: int| 0 <= i < n ==> #[trigger] x[i] == c1 * y[i] + c2 * w[i],
    ensures
        negacyclic(x, z, n)[k] == c1 * negacyclic(y, z, n)[k] + c2 * negacyclic(w, z, n)[k],
{
    lemma_nc_sum_rows(x, z, n, n, k);
    lemma_nc_sum_rows(y, z, n, n, k);
    lemma_nc_sum_rows(w, z, n, n, k);
    let fx = |r: int| x[r] * rot(z, n, r, k);
    let fy = |r: int| y[r] * rot(z, n, r, k);
    let fw = |r: int| w[r] * rot(z, n, r, k);
    let gy = |r: int| c1 * fy(r);
    let gw = |r: int| c2 * fw(r);
    let lin = |r: int| gy(r) + gw(r);
    assert forall|r: int| 0 <= r < n implies #[trigger] fx(r) == lin(r) by {
        let rz = rot(z, n, r, k);
        assert((c1 * y[r] + c2 * w[r]) * rz == c1 * (y[r] * rz) + c2 * (w[r] * rz)) by (nonlinear_arith);
    }
    lemma_sum_congr(fx, lin, n);
    lemma_sum_add(gy, gw, lin, n);
    lemma_sum_scale(fy, gy, c1, n);
    lemma_sum_scale(fw, gw, c2, n);
}

/// The unit polynomial `1`.
pub open spec fn unit_poly(n: nat) -> Seq<int> {
    Seq::new(n, |i: int| if i == 0 { 1int } else { 0int })
}

/// `1 · x = x`.
pub proof fn lemma_nc_unit(x: Seq<int>, n: nat)
    requires
        x.len() == n,
    ensures
        negacyclic(unit_poly(n), x, n as int) == x,
{
    let ni = n as int;
    let one = unit_poly(n);
    assert forall|k: int| 0 <= k < ni implies #[trigger] negacyclic(one, x, ni)[k] == x[k] by {
        lemma_nc_sum_rows(one, x, ni, ni, k);
        let f = |r: int| one[r] * rot(x, ni, r, k);
        assert forall|r: int| 0 <= r < ni && r != 0 implies #[trigger] f(r) == 0 by {
            assert(one[r] == 0);
        }
        lemma_sum_delta(f, ni, 0);
    }
    assert(negacyclic(one, x, ni) =~= x);
}

/// Negacyclic multiplication is commutative.
pub proof fn lemma_nc_comm(x: Seq<int>, y: Seq<int>, n: nat)
    requires
        x.len() == n,
        y.len() == n,
    ensures
        negacyclic(x, y, n as int) == negacyclic(y, x, n as int),
{
    let ni = n as int;
    lemma_mul_exchange(unit_poly(n), x, y, ni);
    lemma_nc_unit(x, n);
    lemma_nc_unit(y, n);
}

/// Negacyclic multiplication is associative.
pub proof fn lemma_nc_assoc(x: Seq<int>, y: Seq<int>, z: Seq<int>, n: nat)
    requires
        x.len() == n,
        y.len() == n,
        z.len() == n,
    ensures
        negacyclic(x, negacyclic(y, z, n as int), n as int) == negacyclic(negacyclic(x, y, n as int), z, n as int),
{
    let ni = n as int;
    lemma_nc_comm(x, negacyclic(y, z, ni), n);
    lemma_mul_exchange(y, z, x, ni);
    lemma_nc_comm(y, x, n);
}

/// A product of polynomials bounded by `bx` and `by` is bounded by `n · bx · by`.
pub proof fn lemma_nc_bound(x: Seq<int>, y: Seq<int>, n: int, bx: int, by: int, k: int)
    requires
        0 <= k < n,
        bx >= 0,
        by >= 0,
        forall|i: int| 0 <= i < n ==> -bx <= #[trigger] x[i] <= bx,
        forall|i: int| 0 <= i < n ==> -by <= #[trigger] y[i] <= by,
    ensures
        -(n * (bx * by)) <= negacyclic(x, y, n)[k] <= n * (bx * by),
{
    lemma_nc_sum_rows(x, y, n, n, k);
    let f = |r: int| x[r] * rot(y, n, r, k);
    assert forall|r: int| 0 <= r < n implies -(bx * by) <= #[trigger] f(r) <= bx * by by {
        let c = rot(y, n, r, k);
        if r <= k {
            assert(-by <= y[k - r] <= by);
        } else {
            assert(-by <= y[k - r + n] <= by);
        }
        assert(-by <= c <= by);
        let xr = x[r];
        assert(-bx <= xr <= bx);
        assert(-(bx * by) <= xr * c <= bx * by) by (nonlinear_arith)
            requires
                -by <= c <= by,
                -bx <= xr <= bx,
        ;
    }
    lemma_sum_bound(f, n, bx * by);
}

/// The exact phase `c0 + c1·s` of a two-part ciphertext.
pub open spec fn exact_phase(c0: Seq<int>, c1: Seq<int>, s: Seq<int>, n: nat) -> Seq<int> {
    Seq::new(n, |k: int| c0[k] + negacyclic(c1, s, n as int)[k])
}

/// The middle tensor component `c0·d1 + c1·d0`.
pub open spec fn tensor_mid(c0: Seq<int>, c1: Seq<int>, d0: Seq<int>, d1: Seq<int>, n: nat) -> Seq<int> {
    Seq::new(n, |k: int| negacyclic(c0, d1, n as int)[k] + negacyclic(c1, d0, n as int)[k])
}

/// The tensor product read under `(1, s, s²)` is the product of the phases:
/// `c0·d0 + (c0·d1 + c1·d0)·s + (c1·d1)·s² = (c0 + c1·s)·(d0 + d1·s)`.
pub proof fn lemma_tensor_phase(c0: Seq<int>, c1: Seq<int>, d0: Seq<int>, d1: Seq<int>, s: Seq<int>, n: nat, k: int)
    requires
        c0.len() == n && c1.len() == n && d0.len() == n && d1.len() == n && s.len() == n,
        0 <= k < n,
    ensures
        ({
            let ni = n as int;
            negacyclic(c0, d0, ni)[k] + negacyclic(tensor_mid(c0, c1, d0, d1, n), s, ni)[k]
                + negacyclic(negacyclic(c1, d1, ni), negacyclic(s, s, ni), ni)[k]
                == negacyclic(exact_phase(c0, c1, s, n), exact_phase(d0, d1, s, n), ni)[k]
        }),
{
    let ni = n as int;
    let pc = exact_phase(c0, c1, s, n);
    let pd = exact_phase(d0, d1, s, n);
    let cs = negacyclic(c1, s, ni);
    let ds = negacyclic(d1, s, ni);
    // (c0 + c1·s)·pd = c0·pd + (c1·s)·pd
    lemma_nc_linear(pc, c0, cs, pd, 1, 1, ni, k);
    // c0·pd = pd·c0 = d0·c0 + (d1·s)·c0 = c0·d0 + (c0·d1)·s
    lemma_nc_comm(c0, pd, n);
    lemma_nc_linear(pd, d0, ds, c0, 1, 1, ni, k);
    lemma_nc_comm(d0, c0, n);
    lemma_mul_exchange(d1, s, c0, ni);
    lemma_nc_comm(d1, c0, n);
    // (c1·s)·pd = pd·(c1·s) = d0·(c1·s) + (d1·s)·(c1·s)
    lemma_nc_comm(cs, pd, n);
    lemma_nc_linear(pd, d0, ds, cs, 1, 1, ni, k);
    // d0·(c1·s) = (d0·c1)·s = (c1·d0)·s
    lemma_nc_assoc(d0, c1, s, n);
    lemma_nc_comm(d0, c1, n);
    // (d1·s)·(c1·s) = ((d1·s)·c1)·s = ((d1·c1)·s)·s = (d1·c1)·(s·s) = (c1·d1)·(s·s)
    lemma_nc_assoc(ds, c1, s, n);
    lemma_mul_exchange(d1, s, c1, ni);
    lemma_nc_assoc(negacyclic(d1, c1, ni), s, s, n);
    lemma_nc_comm(d1, c1, n);
    // (c0·d1 + c1·d0)·s = (c0·d1)·s + (c1·d0)·s
    let mid = tensor_mid(c0, c1, d0, d1, n);
    lemma_nc_linear(mid, negacyclic(c0, d1, ni), negacyclic(c1, d0, ni), s, 1, 1, ni, k);
}



/// The phase of a three-part ciphertext whose components are congruent to
/// `D0`, `D1`, `D2` is, modulo `q`, `D0 + D1·s + D2·s²`.
pub proof fn lemma_phase3_mod(
    r0: Seq<int>,
    r1: Seq<int>,
    r2: Seq<int>,
    dd0: Seq<int>,
    dd1: Seq<int>,
    dd2: Seq<int>,
    s: Seq<int>,
    q: int,
    n: nat,
    k: int,
)
    requires
        q > 0,
        r0.len() == n && r1.len() == n && r2.len() == n && s.len() == n,
        dd0.len() == n && dd1.len() == n && dd2.len() == n,
        forall|j: int| 0 <= j < n ==> #[trigger] r0[j] % q == dd0[j] % q,
        forall|j: int| 0 <= j < n ==> #[trigger] r1[j] % q == dd1[j] % q,
        forall|j: int| 0 <= j < n ==> #[trigger] r2[j] % q == dd2[j] % q,
        0 <= k < n,
    ensures
        ({
            let ni = n as int;
            phase(seq![r0, r1, r2], s, q)[k] % q == (dd0[k] + negacyclic(dd1, s, ni)[k] + negacyclic(
                dd2,
                negacyclic(s, s, ni),
                ni,
            )[k]) % q
        }),
{
    let ni = n as int;
    let s2 = negacyclic(s, s, ni);
    let s2c = pmul(s, s, q);
    assert forall|j: int| 0 <= j < ni implies #[trigger] r1[j] % q == (1 * dd1[j] + 0 * dd1[j]) % q by {}
    assert forall|j: int| 0 <= j < ni implies #[trigger] r2[j] % q == (1 * dd2[j] + 0 * dd2[j]) % q by {}
    assert forall|j: int| 0 <= j < ni implies #[trigger] s2c[j] % q == (1 * s2[j] + 0 * s2[j]) % q by {
        lemma_centre_value(s2[j], q);
    }
    lemma_nc_linear_mod(r1, dd1, dd1, s, 1, 0, ni, q, k);
    let t1 = negacyclic(r1, s, ni)[k];
    lemma_centre_value(t1, q);
    lemma_nc_linear_mod(r2, dd2, dd2, s2c, 1, 0, ni, q, k);
    lemma_nc_comm(dd2, s2c, n);
    lemma_nc_linear_mod(s2c, s2, s2, dd2, 1, 0, ni, q, k);
    lemma_nc_comm(s2, dd2, n);
    let t2 = negacyclic(r2, s2c, ni)[k];
    lemma_centre_value(t2, q);
    let acc1 = padd(r0, pmul(r1, s, q), q);
    lemma_centre_value(r0[k] + pmul(r1, s, q)[k], q);
    lemma_centre_value(acc1[k] + pmul(r2, s2c, q)[k], q);
    lemma_cong_add(r0[k], pmul(r1, s, q)[k], dd0[k], negacyclic(dd1, s, ni)[k], q);
    lemma_cong_add(acc1[k], pmul(r2, s2c, q)[k], dd0[k] + negacyclic(dd1, s, ni)[k], negacyclic(dd2, s2, ni)[k], q);
}

/// Rounding to the nearest multiple of `q` moves a number by at most `q`.
pub proof fn lemma_round_error(num: int, q: int)
    requires
        q > 0,
    ensures
        -q <= q * round_div_value(num, q) - num <= q,
{
    let half = tdiv(q, 2);
    vstd::arithmetic::div_mod::lemma_fundamental_div_mod(q, 2);
    assert(half == q / 2);
    if num >= 0 {
        vstd::arithmetic::div_mod::lemma_fundamental_div_mod(num + half, q);
        assert(tdiv(num + half, q) == (num + half) / q);
    } else {
        vstd::arithmetic::div_mod::lemma_fundamental_div_mod(half - num, q);
        assert(tdiv(num - half, q) == -((half - num) / q));
        assert(q * (-((half - num) / q)) == -(q * ((half - num) / q))) by (nonlinear_arith);
    }
}

/// The rounded (not yet centred) rescale `round(t·c / q)`.
pub open spec fn rounded_values(c: Seq<int>, t: int, q: int) -> Seq<int> {
    Seq::new(c.len(), |i: int| round_div_value(c[i] * t, q))
}

/// Rescaling is exact up to a bounded error: for ternary `s`,
/// `q·(ρ0 + ρ1·s + ρ2·s²) = t·(D0 + D1·s + D2·s²) + E` with
/// `|E| ≤ q·(1 + n + n²)`, where `ρi = round(t·Di / q)`.
pub proof fn lemma_rescale_error(dd0: Seq<int>, dd1: Seq<int>, dd2: Seq<int>, s: Seq<int>, t: int, q: int, n: nat, k: int)
    requires
        q > 0,
        dd0.len() == n && dd1.len() == n && dd2.len() == n && s.len() == n,
        is_ternary(s),
        0 <= k < n,
    ensures
        ({
            let ni = n as int;
            let (r0, r1, r2) = (rounded_values(dd0, t, q), rounded_values(dd1, t, q), rounded_values(dd2, t, q));
            let s2 = negacyclic(s, s, ni);
            let rp = r0[k] + negacyclic(r1, s, ni)[k] + negacyclic(r2, s2, ni)[k];
            let dp = dd0[k] + negacyclic(dd1, s, ni)[k] + negacyclic(dd2, s2, ni)[k];
            -(q * (1 + ni + ni * ni)) <= q * rp - t * dp <= q * (1 + ni + ni * ni)
        }),
{
    let ni = n as int;
    let (r0, r1, r2) = (rounded_values(dd0, t, q), rounded_values(dd1, t, q), rounded_values(dd2, t, q));
    let s2 = negacyclic(s, s, ni);
    let e0 = Seq::new(n, |j: int| q * r0[j] - t * dd0[j]);
    let e1 = Seq::new(n, |j: int| q * r1[j] - t * dd1[j]);
    let e2 = Seq::new(n, |j: int| q * r2[j] - t * dd2[j]);
    assert forall|j: int| 0 <= j < ni implies -q <= #[trigger] e0[j] <= q && -q <= e1[j] <= q && -q <= e2[j] <= q by {
        lemma_round_error(dd0[j] * t, q);
        lemma_round_error(dd1[j] * t, q);
        lemma_round_error(dd2[j] * t, q);
        assert(dd0[j] * t == t * dd0[j] && dd1[j] * t == t * dd1[j] && dd2[j] * t == t * dd2[j]) by (nonlinear_arith);
    }
    assert forall|j: int| 0 <= j < ni implies #[trigger] e1[j] == q * r1[j] + (-t) * dd1[j] by {
        assert((-t) * dd1[j] == -(t * dd1[j])) by (nonlinear_arith);
    }
    assert forall|j: int| 0 <= j < ni implies #[trigger] e2[j] == q * r2[j] + (-t) * dd2[j] by {
        assert((-t) * dd2[j] == -(t * dd2[j])) by (nonlinear_arith);
    }
    lemma_nc_linear(e1, r1, dd1, s, q, -t, ni, k);
    lemma_nc_linear(e2, r2, dd2, s2, q, -t, ni, k);
    // bounds on the error terms
    assert forall|j: int| 0 <= j < ni implies -1 <= #[trigger] s[j] <= 1 by {}
    assert forall|j: int| 0 <= j < ni implies -q <= #[trigger] e1[j] <= q by {
        assert(-q <= e0[j] <= q && -q <= e1[j] <= q && -q <= e2[j] <= q);
    }
    assert forall|j: int| 0 <= j < ni implies -q <= #[trigger] e2[j] <= q by {
        assert(-q <= e0[j] <= q && -q <= e1[j] <= q && -q <= e2[j] <= q);
    }
    assert forall|j: int| 0 <= j < ni implies -ni <= #[trigger] s2[j] <= ni by {
        lemma_nc_bound(s, s, ni, 1, 1, j);
    }
    lemma_nc_bound(e1, s, ni, q, 1, k);
    lemma_nc_bound(e2, s2, ni, q, ni, k);
    assert(-q <= e0[k] <= q && -q <= e1[k] <= q && -q <= e2[k] <= q);
    let x0 = e0[k];
    let x1 = negacyclic(e1, s, ni)[k];
    let x2 = negacyclic(e2, s2, ni)[k];
    let rp = r0[k] + negacyclic(r1, s, ni)[k] + negacyclic(r2, s2, ni)[k];
    let dp = dd0[k] + negacyclic(dd1, s, ni)[k] + negacyclic(dd2, s2, ni)[k];
    assert(q * rp - t * dp == x0 + x1 + x2) by (nonlinear_arith)
        requires
            x0 == q * r0[k] - t * dd0[k],
            x1 == q * negacyclic(r1, s, ni)[k] + (-t) * negacyclic(dd1, s, ni)[k],
            x2 == q * negacyclic(r2, s2, ni)[k] + (-t) * negacyclic(dd2, s2, ni)[k],
            rp == r0[k] + negacyclic(r1, s, ni)[k] + negacyclic(r2, s2, ni)[k],
            dp == dd0[k] + negacyclic(dd1, s, ni)[k] + negacyclic(dd2, s2, ni)[k],
    ;
    assert(-(q * (1 + ni + ni * ni)) <= x0 + x1 + x2 <= q * (1 + ni + ni * ni)) by (nonlinear_arith)
        requires
            -q <= x0 <= q,
            -(ni * (q * 1)) <= x1 <= ni * (q * 1),
            -(ni * (q * ni)) <= x2 <= ni * (q * ni),
    ;
}



/// The phase of a two-part ciphertext whose components are congruent to
/// `D0`, `D1` is, modulo `q`, `D0 + D1·s`.
pub proof fn lemma_phase2_mod(r0: Seq<int>, r1: Seq<int>, dd0: Seq<int>, dd1: Seq<int>, s: Seq<int>, q: int, n: nat, k: int)
    requires
        q > 0,
        r0.len() == n && r1.len() == n && s.len() == n,
        dd0.len() == n && dd1.len() == n,
        forall|j: int| 0 <= j < n ==> #[trigger] r0[j] % q == dd0[j] % q,
        forall|j: int| 0 <= j < n ==> #[trigger] r1[j] % q == dd1[j] % q,
        0 <= k < n,
    ensures
        phase(seq![r0, r1], s, q)[k] % q == (dd0[k] + negacyclic(dd1, s, n as int)[k]) % q,
{
    let ni = n as int;
    assert forall|j: int| 0 <= j < ni implies #[trigger] r1[j] % q == (1 * dd1[j] + 0 * dd1[j]) % q by {}
    lemma_nc_linear_mod(r1, dd1, dd1, s, 1, 0, ni, q, k);
    lemma_centre_value(negacyclic(r1, s, ni)[k], q);
    lemma_centre_value(r0[k] + pmul(r1, s, q)[k], q);
    lemma_cong_add(r0[k], pmul(r1, s, q)[k], dd0[k], negacyclic(dd1, s, ni)[k], q);
}

/// Congruence modulo `q = qs · d` gives congruence modulo `qs`.
pub proof fn lemma_mod_transfer(x: int, y: int, q: int, qs: int, d: int)
    requires
        qs > 0,
        d > 0,
        q == qs * d,
        x % q == y % q,
    ensures
        x % qs == y % qs,
{
    assert(q > 0) by (nonlinear_arith)
        requires
            qs > 0,
            d > 0,
            q == qs * d,
    ;
    vstd::arithmetic::div_mod::lemma_mod_equivalence(x, y, q);
    vstd::arithmetic::div_mod::lemma_fundamental_div_mod(x - y, q);
    let k = (x - y) / q;
    assert(x - y == (d * k) * qs) by (nonlinear_arith)
        requires
            x - y == q * k,
            q == qs * d,
    ;
    vstd::arithmetic::div_mod::lemma_mod_multiples_basic(d * k, qs);
    vstd::arithmetic::div_mod::lemma_mod_equivalence(x, y, qs);
}

} // verus!
