//! Coefficient arithmetic in `R_q = ℤ_q[X]/(X^n + 1)`, shared by the BFV and
//! CKKS polynomials.
//!
//! Coefficients are kept in the centred residue system of [`centre_value`];
//! products are negacyclic: `X^n = -1`.

use vstd::prelude::*;
use crate::bigint::{IBig, magnitude_below_2_96, tdiv, trem};

verus! {

/// The values of a sequence of big integers.
pub open spec fn ints(s: Seq<IBig>) -> Seq<int> {
    s.map_values(|c: IBig| c@)
}

/// The values of a sequence of machine integers.
pub open spec fn wide_ints(s: Seq<i128>) -> Seq<int> {
    s.map_values(|c: i128| c as int)
}

/// The centred representative of `x` modulo `q`: the remainder `r` of `x / q`
/// (rounding toward zero), moved by `q` when it exceeds `q / 2` or does not
/// exceed `-(q / 2)`.
pub open spec fn centre_value(x: int, q: int) -> int {
    let half = tdiv(q, 2);
    let r = trem(x, q);
    if r > half {
        r - q
    } else if r <= -half {
        r + q
    } else {
        r
    }
}

/// Row `i`'s contribution to coefficient `k` of the negacyclic product.
pub open spec fn nc_term(a: Seq<int>, b: Seq<int>, n: int, i: int, k: int) -> int {
    if i <= k {
        a[i] * b[k - i]
    } else {
        -(a[i] * b[k - i + n])
    }
}

/// Coefficient `k` of the negacyclic product, summed over rows `0..i`.
pub open spec fn nc_sum(a: Seq<int>, b: Seq<int>, n: int, i: int, k: int) -> int
    decreases i,
{
    if i <= 0 {
        0
    } else {
        nc_sum(a, b, n, i - 1, k) + nc_term(a, b, n, i - 1, k)
    }
}

/// The product of `a` and `b` (first `n` coefficients each) in `ℤ[X]/(X^n + 1)`.
pub open spec fn negacyclic(a: Seq<int>, b: Seq<int>, n: int) -> Seq<int> {
    Seq::new(n as nat, |k: int| nc_sum(a, b, n, n, k))
}

/// Coefficient-wise sum, centred modulo `q`.
pub open spec fn padd(a: Seq<int>, b: Seq<int>, q: int) -> Seq<int> {
    Seq::new(a.len(), |i: int| centre_value(a[i] + b[i], q))
}

/// Coefficient-wise difference, centred modulo `q`.
pub open spec fn psub(a: Seq<int>, b: Seq<int>, q: int) -> Seq<int> {
    Seq::new(a.len(), |i: int| centre_value(a[i] - b[i], q))
}

/// Coefficient-wise negation, centred modulo `q`.
pub open spec fn pneg(a: Seq<int>, q: int) -> Seq<int> {
    Seq::new(a.len(), |i: int| centre_value(-a[i], q))
}

/// Coefficient-wise multiple `k · a`, centred modulo `q`.
pub open spec fn pscalar(a: Seq<int>, k: int, q: int) -> Seq<int> {
    Seq::new(a.len(), |i: int| centre_value(a[i] * k, q))
}

/// Every coefficient centred modulo `q`.
pub open spec fn pcentre(a: Seq<int>, q: int) -> Seq<int> {
    Seq::new(a.len(), |i: int| centre_value(a[i], q))
}

/// The product in `R_q` (degree `a.len()`), centred modulo `q`.
pub open spec fn pmul(a: Seq<int>, b: Seq<int>, q: int) -> Seq<int> {
    pcentre(negacyclic(a, b, a.len() as int), q)
}

/// `num / den` rounded to the nearest integer, ties away from zero.
pub open spec fn round_div_value(num: int, den: int) -> int {
    let half = tdiv(den, 2);
    if num >= 0 {
        tdiv(num + half, den)
    } else {
        tdiv(num - half, den)
    }
}

/// The polynomial `c₀ + c₁·s (+ c₂·s²)` in `R_q` that decryption reads.
pub open spec fn phase(parts: Seq<Seq<int>>, s: Seq<int>, q: int) -> Seq<int> {
    let acc1 = if parts.len() >= 2 {
        padd(parts[0], pmul(parts[1], s, q), q)
    } else {
        parts[0]
    };
    if parts.len() >= 3 {
        padd(acc1, pmul(parts[2], pmul(s, s, q), q), q)
    } else {
        acc1
    }
}

/// The largest absolute value in `s`, zero when `s` is empty.
pub open spec fn max_abs(s: Seq<int>) -> int
    decreases s.len(),
{
    if s.len() == 0 {
        0
    } else {
        let m = max_abs(s.drop_last());
        let a = if s.last() < 0 { -s.last() } else { s.last() };
        if a > m { a } else { m }
    }
}

/// `c` is the centred representative of some residue `0 <= u < q`.
pub open spec fn is_residue(c: int, q: int) -> bool {
    exists|u: int| 0 <= u < q && centre_value(u, q) == c
}

/// Coefficients in `{-1, 0, 1}`.
pub open spec fn is_ternary(s: Seq<int>) -> bool {
    forall|i: int| 0 <= i < s.len() ==> -1 <= #[trigger] s[i] <= 1
}

/// Coefficients of absolute value at most `eta`.
pub open spec fn is_small(s: Seq<int>, eta: int) -> bool {
    forall|i: int| 0 <= i < s.len() ==> -eta <= #[trigger] s[i] <= eta
}

/// The column of row `i` that lands on coefficient `k`.
pub open spec fn nc_col(n: int, i: int, k: int) -> int {
    if i <= k {
        k - i
    } else {
        k - i + n
    }
}

/// `centre_value(x, q)` is congruent to `x` and lies in `(-q/2 - 1, q/2 + 1]`.
pub proof fn lemma_centre_value(x: int, q: int)
    requires
        q > 0,
    ensures
        centre_value(x, q) % q == x % q,
        -(q / 2) - 1 <= centre_value(x, q) <= q / 2 + 1,
        x % q == centre_value(x, q) % q,
{
    crate::util::lemma_trem(x, q);
    vstd::arithmetic::div_mod::lemma_fundamental_div_mod(q, 2);
    let t = tdiv(x, q);
    let r = trem(x, q);
    assert(r == x + q * (-t)) by (nonlinear_arith)
        requires
            r == x - q * t,
    ;
    vstd::arithmetic::div_mod::lemma_mod_multiples_vanish(-t, x, q);
    let c = centre_value(x, q);
    if r > tdiv(q, 2) {
        vstd::arithmetic::div_mod::lemma_mod_sub_multiples_vanish(r, q);
    } else if r <= -tdiv(q, 2) {
        vstd::arithmetic::div_mod::lemma_mod_add_multiples_vanish(r, q);
    }
}

/// The centred representative of anything congruent to `x` is `x` itself
/// when `-(q/2) < x < q/2`.
pub proof fn lemma_centre_exact(y: int, x: int, q: int)
    requires
        q > 0,
        y % q == x % q,
        -(q / 2) < x < q / 2,
    ensures
        centre_value(y, q) == x,
{
    crate::util::lemma_trem(y, q);
    vstd::arithmetic::div_mod::lemma_fundamental_div_mod(q, 2);
    lemma_centre_value(y, q);
    let c = centre_value(y, q);
    let half = tdiv(q, 2);
    assert(half == q / 2);
    let r = trem(y, q);
    if y >= 0 {
        vstd::arithmetic::div_mod::lemma_mod_bound(y, q);
    }
    assert(-q < c - x < q);
    vstd::arithmetic::div_mod::lemma_mod_equivalence(c, x, q);
    vstd::arithmetic::div_mod::lemma_fundamental_div_mod(c - x, q);
    let k = (c - x) / q;
    assert(c - x == q * k);
    assert(k == 0) by (nonlinear_arith)
        requires
            c - x == q * k,
            -q < c - x < q,
            q > 0,
    ;
}

proof fn lemma_nc_sum_congruent(
    a: Seq<int>,
    b: Seq<int>,
    a2: Seq<int>,
    b2: Seq<int>,
    n: int,
    i: int,
    k: int,
)
    requires
        0 <= k < n,
        i <= n,
        forall|j: int| 0 <= j < n ==> a[j] == a2[j] && b[j] == b2[j],
    ensures
        nc_sum(a, b, n, i, k) == nc_sum(a2, b2, n, i, k),
    decreases i,
{
    if i > 0 {
        lemma_nc_sum_congruent(a, b, a2, b2, n, i - 1, k);
    }
}

proof fn lemma_mul_zero(x: int, y: int)
    by (nonlinear_arith)
    requires
        x == 0,
    ensures
        x * y == 0,
{
}

/// The centred representative of `x` modulo `q`.
pub fn centre(x: &IBig, q: &IBig) -> (r: IBig)
    requires
        q@ != 0,
    ensures
        r@ == centre_value(x@, q@),
{
    let two = IBig::from_i64(2);
    let half = q.div(&two);
    let mut r = x.rem(q);
    if half.lt(&r) {
        r = r.sub(q);
    } else if r.le(&half.neg()) {
        r = r.add(q);
    }
    r
}

/// Coefficient-wise `a + b`, centred modulo `q`.
pub fn add_centred(a: &Vec<IBig>, b: &Vec<IBig>, q: &IBig) -> (r: Vec<IBig>)
    requires
        q@ != 0,
        a.len() <= b.len(),
    ensures
        ints(r@) == padd(ints(a@), ints(b@), q@),
        r.len() == a.len(),
        forall|i: int| 0 <= i < a.len() ==> #[trigger] r@[i]@ == centre_value(a@[i]@ + b@[i]@, q@),
{
    let n = a.len();
    let mut out: Vec<IBig> = Vec::new();
    for i in 0..n
        invariant
            n == a.len(),
            a.len() <= b.len(),
            q@ != 0,
            out.len() == i,
            forall|j: int| 0 <= j < i ==> #[trigger] out@[j]@ == centre_value(a@[j]@ + b@[j]@, q@),
    {
        out.push(centre(&a[i].add(&b[i]), q));
    }
    assert(ints(out@) =~= padd(ints(a@), ints(b@), q@));
    out
}

/// Coefficient-wise `a - b`, centred modulo `q`.
pub fn sub_centred(a: &Vec<IBig>, b: &Vec<IBig>, q: &IBig) -> (r: Vec<IBig>)
    requires
        q@ != 0,
        a.len() <= b.len(),
    ensures
        ints(r@) == psub(ints(a@), ints(b@), q@),
        r.len() == a.len(),
        forall|i: int| 0 <= i < a.len() ==> #[trigger] r@[i]@ == centre_value(a@[i]@ - b@[i]@, q@),
{
    let n = a.len();
    let mut out: Vec<IBig> = Vec::new();
    for i in 0..n
        invariant
            n == a.len(),
            a.len() <= b.len(),
            q@ != 0,
            out.len() == i,
            forall|j: int| 0 <= j < i ==> #[trigger] out@[j]@ == centre_value(a@[j]@ - b@[j]@, q@),
    {
        out.push(centre(&a[i].sub(&b[i]), q));
    }
    assert(ints(out@) =~= psub(ints(a@), ints(b@), q@));
    out
}

/// Coefficient-wise negation, centred modulo `q`.
pub fn neg_centred(a: &Vec<IBig>, q: &IBig) -> (r: Vec<IBig>)
    requires
        q@ != 0,
    ensures
        ints(r@) == pneg(ints(a@), q@),
        r.len() == a.len(),
        forall|i: int| 0 <= i < a.len() ==> #[trigger] r@[i]@ == centre_value(-a@[i]@, q@),
{
    let n = a.len();
    let mut out: Vec<IBig> = Vec::new();
    for i in 0..n
        invariant
            n == a.len(),
            q@ != 0,
            out.len() == i,
            forall|j: int| 0 <= j < i ==> #[trigger] out@[j]@ == centre_value(-a@[j]@, q@),
    {
        out.push(centre(&a[i].neg(), q));
    }
    assert(ints(out@) =~= pneg(ints(a@), q@));
    out
}

/// Coefficient-wise multiplication by `k`, centred modulo `q`.
pub fn scalar_centred(a: &Vec<IBig>, k: &IBig, q: &IBig) -> (r: Vec<IBig>)
    requires
        q@ != 0,
    ensures
        ints(r@) == pscalar(ints(a@), k@, q@),
        r.len() == a.len(),
        forall|i: int| 0 <= i < a.len() ==> #[trigger] r@[i]@ == centre_value(a@[i]@ * k@, q@),
{
    let n = a.len();
    let mut out: Vec<IBig> = Vec::new();
    for i in 0..n
        invariant
            n == a.len(),
            q@ != 0,
            out.len() == i,
            forall|j: int| 0 <= j < i ==> #[trigger] out@[j]@ == centre_value(a@[j]@ * k@, q@),
    {
        out.push(centre(&a[i].mul(k), q));
    }
    assert(ints(out@) =~= pscalar(ints(a@), k@, q@));
    out
}

/// Centre every coefficient modulo `q`.
pub fn centre_all(a: &Vec<IBig>, q: &IBig) -> (r: Vec<IBig>)
    requires
        q@ != 0,
    ensures
        ints(r@) == pcentre(ints(a@), q@),
        r.len() == a.len(),
        forall|i: int| 0 <= i < a.len() ==> #[trigger] r@[i]@ == centre_value(a@[i]@, q@),
{
    let n = a.len();
    let mut out: Vec<IBig> = Vec::new();
    for i in 0..n
        invariant
            n == a.len(),
            q@ != 0,
            out.len() == i,
            forall|j: int| 0 <= j < i ==> #[trigger] out@[j]@ == centre_value(a@[j]@, q@),
    {
        out.push(centre(&a[i], q));
    }
    assert(ints(out@) =~= pcentre(ints(a@), q@));
    out
}

/// `n` zero coefficients.
pub fn zeros(n: usize) -> (r: Vec<IBig>)
    ensures
        r.len() == n,
        forall|i: int| 0 <= i < n ==> #[trigger] r@[i]@ == 0,
{
    let mut out: Vec<IBig> = Vec::new();
    for i in 0..n
        invariant
            out.len() == i,
            forall|j: int| 0 <= j < i ==> #[trigger] out@[j]@ == 0,
    {
        out.push(IBig::zero());
    }
    out
}

/// The first `n` coefficients as machine integers, when each is below 2^96
/// in magnitude.
fn to_wide(a: &Vec<IBig>, n: usize) -> (r: Option<Vec<i128>>)
    requires
        n <= a.len(),
    ensures
        r matches Some(v) ==> v.len() == n && forall|i: int| 0 <= i < n ==> #[trigger] v@[i] as int
            == a@[i]@,
        r is Some <==> forall|i: int| 0 <= i < n ==> #[trigger] magnitude_below_2_96(a@[i]@),
{
    let mut out: Vec<i128> = Vec::new();
    for i in 0..n
        invariant
            n <= a.len(),
            out.len() == i,
            forall|j: int| 0 <= j < i ==> #[trigger] out@[j] as int == a@[j]@,
            forall|j: int| 0 <= j < i ==> #[trigger] magnitude_below_2_96(a@[j]@),
    {
        match a[i].to_i128() {
            Some(x) => out.push(x),
            None => {
                assert(!magnitude_below_2_96(a@[i as int]@));
                return None;
            },
        }
    }
    Some(out)
}

/// Whether `x` lies in the range of `i128`.
pub open spec fn fits_i128(x: int) -> bool {
    i128::MIN <= x <= i128::MAX
}

/// Whether the schoolbook negacyclic product of the first `n` coefficients of
/// `a` and `b` can be accumulated in `i128`: every product of two
/// coefficients, and every coefficient after each row `i` is added, fits.
pub open spec fn nc_fits_i128(a: Seq<int>, b: Seq<int>, n: int) -> bool {
    &&& forall|i: int, j: int| #![trigger a[i], b[j]] 0 <= i < n && 0 <= j < n ==> fits_i128(a[i] * b[j])
    &&& forall|i: int, k: int| 1 <= i <= n && 0 <= k < n ==> fits_i128(#[trigger] nc_sum(a, b, n, i, k))
}

/// Negacyclic product with machine integers; `None` exactly when a
/// coefficient product or a running sum leaves the `i128` range.
fn negacyclic_wide(a: &Vec<i128>, b: &Vec<i128>) -> (r: Option<Vec<i128>>)
    requires
        a.len() == b.len(),
    ensures
        r matches Some(v) ==> v.len() == a.len() && forall|k: int| 0 <= k < a.len() ==> #[trigger] v@[k]
            as int == nc_sum(wide_ints(a@), wide_ints(b@), a.len() as int, a.len() as int, k),
        r is Some <==> nc_fits_i128(wide_ints(a@), wide_ints(b@), a.len() as int),
{
    let n = a.len();
    let ghost aa = wide_ints(a@);
    let ghost bb = wide_ints(b@);
    let mut acc: Vec<i128> = Vec::new();
    for t in 0..n
        invariant
            acc.len() == t,
            forall|k: int| 0 <= k < t ==> #[trigger] acc@[k] == 0,
    {
        acc.push(0);
    }
    for i in 0..n
        invariant
            n == a.len() == b.len(),
            aa == wide_ints(a@),
            bb == wide_ints(b@),
            acc.len() == n,
            forall|k: int| 0 <= k < n ==> #[trigger] acc@[k] as int == nc_sum(aa, bb, n as int, i as int, k),
            forall|i2: int, j2: int|
                #![trigger aa[i2], bb[j2]]
                0 <= i2 < i && 0 <= j2 < n ==> fits_i128(aa[i2] * bb[j2]),
            forall|i2: int, k: int|
                1 <= i2 <= i && 0 <= k < n ==> fits_i128(#[trigger] nc_sum(aa, bb, n as int, i2, k)),
    {
        for j in 0..n
            invariant
                n == a.len() == b.len(),
                i < n,
                aa == wide_ints(a@),
                bb == wide_ints(b@),
                acc.len() == n,
                forall|k: int|
                    0 <= k < n ==> #[trigger] acc@[k] as int == nc_sum(aa, bb, n as int, i as int, k) + (
                    if nc_col(n as int, i as int, k) < j {
                        nc_term(aa, bb, n as int, i as int, k)
                    } else {
                        0
                    }),
                forall|i2: int, j2: int|
                    #![trigger aa[i2], bb[j2]]
                    0 <= i2 < i && 0 <= j2 < n ==> fits_i128(aa[i2] * bb[j2]),
                forall|j2: int| 0 <= j2 < j ==> fits_i128(aa[i as int] * #[trigger] bb[j2]),
                forall|i2: int, k: int|
                    1 <= i2 <= i && 0 <= k < n ==> fits_i128(#[trigger] nc_sum(aa, bb, n as int, i2, k)),
                forall|k: int|
                    0 <= k < n && nc_col(n as int, i as int, k) < j ==> fits_i128(
                        #[trigger] nc_sum(aa, bb, n as int, i + 1, k),
                    ),
        {
            assert(aa[i as int] == a@[i as int] && bb[j as int] == b@[j as int]);
            let prod = match a[i].checked_mul(b[j]) {
                Some(p) => p,
                None => {
                    assert(!fits_i128(aa[i as int] * bb[j as int]));
                    return None;
                },
            };
            if j < n - i {
                let k = i + j;
                assert(nc_col(n as int, i as int, k as int) == j);
                assert(nc_term(aa, bb, n as int, i as int, k as int) == prod as int);
                assert(nc_sum(aa, bb, n as int, i + 1, k as int) == acc@[k as int] + prod);
                let v = match acc[k].checked_add(prod) {
                    Some(v) => v,
                    None => {
                        assert(!fits_i128(nc_sum(aa, bb, n as int, i + 1, k as int)));
                        return None;
                    },
                };
                acc.set(k, v);
            } else {
                let k = j - (n - i);
                assert(nc_col(n as int, i as int, k as int) == j);
                assert(nc_term(aa, bb, n as int, i as int, k as int) == -(prod as int));
                assert(nc_sum(aa, bb, n as int, i + 1, k as int) == acc@[k as int] - prod);
                let v = match acc[k].checked_sub(prod) {
                    Some(v) => v,
                    None => {
                        assert(!fits_i128(nc_sum(aa, bb, n as int, i + 1, k as int)));
                        return None;
                    },
                };
                acc.set(k, v);
            }
        }
        assert forall|k: int| 0 <= k < n implies #[trigger] acc@[k] as int == nc_sum(
            aa,
            bb,
            n as int,
            (i + 1) as int,
            k,
        ) by {
            assert(nc_sum(aa, bb, n as int, (i + 1) as int, k) == nc_sum(aa, bb, n as int, i as int, k)
                + nc_term(aa, bb, n as int, i as int, k));
        }
    }
    Some(acc)
}

/// Negacyclic product with big integers.
fn negacyclic_big(a: &Vec<IBig>, b: &Vec<IBig>, n: usize) -> (r: Vec<IBig>)
    requires
        n <= a.len(),
        n <= b.len(),
    ensures
        r.len() == n,
        forall|k: int| 0 <= k < n ==> #[trigger] r@[k]@ == nc_sum(ints(a@), ints(b@), n as int, n as int, k),
{
    let ghost aa = ints(a@);
    let ghost bb = ints(b@);
    let mut acc = zeros(n);
    for i in 0..n
        invariant
            n <= a.len(),
            n <= b.len(),
            aa == ints(a@),
            bb == ints(b@),
            acc.len() == n,
            forall|k: int| 0 <= k < n ==> #[trigger] acc@[k]@ == nc_sum(aa, bb, n as int, i as int, k),
    {
        if a[i].is_zero() {
            assert forall|k: int| 0 <= k < n implies #[trigger] acc@[k]@ == nc_sum(
                aa,
                bb,
                n as int,
                (i + 1) as int,
                k,
            ) by {
                lemma_mul_zero(aa[i as int], bb[nc_col(n as int, i as int, k)]);
                assert(nc_sum(aa, bb, n as int, (i + 1) as int, k) == nc_sum(aa, bb, n as int, i as int, k)
                    + nc_term(aa, bb, n as int, i as int, k));
            }
        } else {
            for j in 0..n
                invariant
                    n <= a.len(),
                    n <= b.len(),
                    i < n,
                    aa == ints(a@),
                    bb == ints(b@),
                    acc.len() == n,
                    forall|k: int|
                        0 <= k < n ==> #[trigger] acc@[k]@ == nc_sum(aa, bb, n as int, i as int, k) + (
                        if nc_col(n as int, i as int, k) < j {
                            nc_term(aa, bb, n as int, i as int, k)
                        } else {
                            0
                        }),
            {
                let prod = a[i].mul(&b[j]);
                if j < n - i {
                    let k = i + j;
                    let v = acc[k].add(&prod);
                    acc.set(k, v);
                    assert(nc_term(aa, bb, n as int, i as int, k as int) == prod@);
                } else {
                    let k = j - (n - i);
                    let v = acc[k].sub(&prod);
                    acc.set(k, v);
                    assert(nc_term(aa, bb, n as int, i as int, k as int) == -prod@);
                }
            }
            assert forall|k: int| 0 <= k < n implies #[trigger] acc@[k]@ == nc_sum(
                aa,
                bb,
                n as int,
                (i + 1) as int,
                k,
            ) by {
                assert(nc_sum(aa, bb, n as int, (i + 1) as int, k) == nc_sum(aa, bb, n as int, i as int, k)
                    + nc_term(aa, bb, n as int, i as int, k));
            }
        }
    }
    acc
}

/// The exact product of the first `n` coefficients of `a` and `b` in
/// `ℤ[X]/(X^n + 1)`, without any modular reduction.
pub fn negacyclic_exact(a: &Vec<IBig>, b: &Vec<IBig>, n: usize) -> (r: Vec<IBig>)
    requires
        n <= a.len(),
        n <= b.len(),
    ensures
        ints(r@) == negacyclic(ints(a@), ints(b@), n as int),
{
    let wa = to_wide(a, n);
    let wb = to_wide(b, n);
    if let (Some(va), Some(vb)) = (wa, wb) {
        if let Some(w) = negacyclic_wide(&va, &vb) {
            let mut out: Vec<IBig> = Vec::new();
            for k in 0..n
                invariant
                    n == w.len() == va.len() == vb.len(),
                    n <= a.len(),
                    n <= b.len(),
                    forall|i: int| 0 <= i < n ==> #[trigger] va@[i] as int == a@[i]@,
                    forall|i: int| 0 <= i < n ==> #[trigger] vb@[i] as int == b@[i]@,
                    forall|j: int| 0 <= j < n ==> #[trigger] w@[j] as int == nc_sum(wide_ints(va@), wide_ints(vb@), n as int, n as int, j),
                    out.len() == k,
                    forall|j: int| 0 <= j < k ==> #[trigger] out@[j]@ == nc_sum(ints(a@), ints(b@), n as int, n as int, j),
            {
                proof {
                    lemma_nc_sum_congruent(wide_ints(va@), wide_ints(vb@), ints(a@), ints(b@), n as int, n as int, k as int);
                }
                out.push(IBig::from_i128(w[k]));
            }
            assert(ints(out@) =~= negacyclic(ints(a@), ints(b@), n as int));
            return out;
        }
    }
    let out = negacyclic_big(a, b, n);
    assert(ints(out@) =~= negacyclic(ints(a@), ints(b@), n as int));
    out
}

/// The product of `a` and `b` in `R_q`, coefficients centred modulo `q`.
pub fn negacyclic_centred(a: &Vec<IBig>, b: &Vec<IBig>, q: &IBig) -> (r: Vec<IBig>)
    requires
        q@ != 0,
        a.len() <= b.len(),
    ensures
        ints(r@) == pmul(ints(a@), ints(b@), q@),
        r.len() == a.len(),
        forall|k: int| 0 <= k < a.len() ==> #[trigger] r@[k]@ == centre_value(
            negacyclic(ints(a@), ints(b@), a.len() as int)[k],
            q@,
        ),
{
    let p = negacyclic_exact(a, b, a.len());
    assert(p.len() == ints(p@).len());
    let r = centre_all(&p, q);
    assert forall|k: int| 0 <= k < a.len() implies #[trigger] r@[k]@ == centre_value(
        negacyclic(ints(a@), ints(b@), a.len() as int)[k],
        q@,
    ) by {
        assert(ints(p@)[k] == p@[k]@);
    }
    assert(ints(r@) =~= pmul(ints(a@), ints(b@), q@));
    r
}

/// `num / den` rounded to the nearest integer, ties away from zero.
pub fn round_div(num: &IBig, den: &IBig) -> (r: IBig)
    requires
        den@ != 0,
    ensures
        r@ == round_div_value(num@, den@),
{
    let two = IBig::from_i64(2);
    let half = den.div(&two);
    let zero = IBig::zero();
    if zero.le(num) {
        num.add(&half).div(den)
    } else {
        num.sub(&half).div(den)
    }
}

} // verus!
