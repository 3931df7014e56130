//! # BFV-lite — a leveled somewhat-homomorphic scheme
//!
//! * **KeyGen**: ternary secret `s`, public key `(b, a) = (-(a·s + e), a)`.
//! * **Encrypt(m)**: `(c₀, c₁) = (b·u + e₁ + Δ·m, a·u + e₂)` for ternary `u`
//!   and small `e₁, e₂`, where `Δ = ⌊q/t⌋`.
//! * **Decrypt**: `m = round(t · (c₀ + c₁·s (+ c₂·s²)) / q) mod t`.
//! * **Add**: component-wise. **Mul**: tensor product rescaled by `t/q`,
//!   giving three components that decrypt under `(1, s, s²)`.
//!
//! Polynomials live in `R_q = ℤ_q[X]/(X^n + 1)` with centred coefficients.
//!
//! As long as the noise stays below the margins stated with them, fresh
//! encryptions decrypt to their plaintext ([`lemma_decrypt_encrypt`]), sums to
//! the sum ([`lemma_decrypt_add`]) and products to the negacyclic product
//! modulo `t` ([`lemma_decrypt_mul`]).

use vstd::prelude::*;
use rand_chacha::ChaCha20Rng;
use crate::bigint::{IBig, tdiv, trem, bit_len};
use crate::ring::{
    self, ints, centre_value, padd, pneg, pscalar, pmul, pcentre, negacyclic, round_div_value, phase, max_abs, is_ternary, is_small, is_residue,
};
use crate::util;
use crate::poly_laws::{
    rlwe_noise, exact_phase, tensor_mid, rounded_values, lemma_tensor_phase, lemma_nc_linear,
    lemma_nc_comm, lemma_rescale_error,
};

verus! {

/// BFV parameter set. Public, no secrets.
#[derive(Clone, Debug)]
pub struct Params {
    /// Ring degree `n`. Must be a power of two.
    pub n: usize,
    /// Ciphertext modulus `q`.
    pub q: IBig,
    /// Plaintext modulus `t`.
    pub t: IBig,
    /// Noise distribution parameter (binomial η).
    pub eta: u32,
}

impl View for Params {
    type V = (nat, int, int, nat);

    open spec fn view(&self) -> (nat, int, int, nat) {
        (self.n as nat, self.q@, self.t@, self.eta as nat)
    }
}

impl Params {
    /// A small toy parameter set: 60-bit `q`, `n = 1024`, `t = 256`.
    pub fn toy() -> (r: Self)
        ensures
            r@ == (1024nat, 1152921504606846883int, 256int, 6nat),
    {
        Params {
            n: 1024,
            q: IBig::from_i64(1152921504606846883),
            t: IBig::from_i64(256),
            eta: 6,
        }
    }

    /// A larger demo parameter set: `n = 2048`, `q = 2^120 - 243`, `t = 1024`.
    pub fn medium() -> (r: Self)
        ensures
            r@ == (2048nat, 0xff_ffff_ffff_ffff_ffff_ffff_ffff_ff0dint, 1024int, 6nat),
    {
        Params {
            n: 2048,
            q: IBig::from_i128(0xff_ffff_ffff_ffff_ffff_ffff_ffff_ff0d),
            t: IBig::from_i64(1024),
            eta: 6,
        }
    }

    /// `Δ = ⌊q / t⌋`, the scaling factor that lifts plaintexts into `R_q`.
    pub fn delta(&self) -> (r: IBig)
        requires
            self.t@ != 0,
        ensures
            r@ == tdiv(self.q@, self.t@),
    {
        self.q.div(&self.t)
    }

    pub fn copy(&self) -> (r: Self)
        ensures
            r@ == self@,
    {
        Params { n: self.n, q: self.q.copy(), t: self.t.copy(), eta: self.eta }
    }
}

/// A polynomial in `R_q = ℤ_q[X]/(X^n + 1)`, stored as coefficients of
/// degree `0..n-1`.
#[derive(Clone, Debug)]
pub struct Poly {
    /// The coefficients, length exactly `params.n`.
    pub coeffs: Vec<IBig>,
}

impl View for Poly {
    type V = Seq<int>;

    open spec fn view(&self) -> Seq<int> {
        ints(self.coeffs@)
    }
}

impl Poly {
    /// All-zero polynomial.
    pub fn zero(n: usize) -> (r: Self)
        ensures
            r@ == Seq::new(n as nat, |i: int| 0int),
    {
        let c = ring::zeros(n);
        let r = Poly { coeffs: c };
        assert(r@ =~= Seq::new(n as nat, |i: int| 0int));
        r
    }

    /// Sample a uniformly random polynomial in `R_q`.
    pub fn rand_uniform(rng: &mut ChaCha20Rng, params: &Params) -> (r: Self)
        requires
            params.q@ > 0,
        ensures
            r@.len() == params.n,
            forall|i: int| 0 <= i < params.n ==> is_residue(#[trigger] r@[i], params.q@),
    {
        let q_u = params.q.magnitude();
        let mut out: Vec<IBig> = Vec::new();
        for i in 0..params.n
            invariant
                params.q@ > 0,
                q_u@ == params.q@,
                out.len() == i,
                forall|j: int| 0 <= j < i ==> is_residue(#[trigger] out@[j]@, params.q@),
        {
            let r = util::rand_below(rng, &q_u);
            let c = ring::centre(&IBig::from_ubig(&r), &params.q);
            assert(is_residue(c@, params.q@)) by {
                assert(0 <= r@ < params.q@ && centre_value(r@ as int, params.q@) == c@);
            }
            out.push(c);
        }
        let p = Poly { coeffs: out };
        assert forall|i: int| 0 <= i < params.n implies is_residue(#[trigger] p@[i], params.q@) by {
            assert(p@[i] == out@[i]@);
        }
        p
    }

    /// Sample a small noise polynomial (binomial-distributed coefficients).
    pub fn rand_noise(rng: &mut ChaCha20Rng, params: &Params) -> (r: Self)
        ensures
            r@.len() == params.n,
            is_small(r@, params.eta as int),
    {
        let mut out: Vec<IBig> = Vec::new();
        for i in 0..params.n
            invariant
                out.len() == i,
                forall|j: int| 0 <= j < i ==> -(params.eta as int) <= #[trigger] out@[j]@ <= params.eta,
        {
            out.push(IBig::from_i64(util::sample_small_noise(rng, params.eta)));
        }
        Poly { coeffs: out }
    }

    /// Sample a ternary polynomial in `{-1, 0, 1}^n`. Used for secret keys.
    pub fn rand_ternary(rng: &mut ChaCha20Rng, params: &Params) -> (r: Self)
        ensures
            r@.len() == params.n,
            is_ternary(r@),
    {
        let mut out: Vec<IBig> = Vec::new();
        for i in 0..params.n
            invariant
                out.len() == i,
                forall|j: int| 0 <= j < i ==> -1 <= #[trigger] out@[j]@ <= 1,
        {
            let bits = util::random_u32(rng);
            let low = bits & 3;
            let v: i64 = if low == 0 {
                -1
            } else if low == 1 {
                1
            } else {
                0
            };
            out.push(IBig::from_i64(v));
        }
        Poly { coeffs: out }
    }

    /// Lift a small plaintext into `R_q`: zero-padded or truncated to `n`.
    pub fn from_plain(plain: &[u64], params: &Params) -> (r: Self)
        ensures
            r@ == Seq::new(
                params.n as nat,
                |i: int| if i < plain@.len() { plain@[i] as int } else { 0 },
            ),
    {
        let mut coeffs = ring::zeros(params.n);
        let m = if plain.len() < params.n {
            plain.len()
        } else {
            params.n
        };
        for i in 0..m
            invariant
                m <= plain.len(),
                m <= params.n,
                coeffs.len() == params.n,
                forall|j: int|
                    0 <= j < params.n ==> #[trigger] coeffs@[j]@ == if j < i { plain@[j] as int } else {
                        0
                    },
        {
            coeffs.set(i, IBig::from_i128(plain[i] as i128));
        }
        let r = Poly { coeffs };
        assert(r@ =~= Seq::new(
            params.n as nat,
            |i: int| if i < plain@.len() { plain@[i] as int } else { 0 },
        ));
        r
    }

    /// Reduce all coefficients into the centred range.
    pub fn reduce(&mut self, q: &IBig)
        requires
            q@ != 0,
        ensures
            final(self)@ == pcentre(old(self)@, q@),
    {
        let c = ring::centre_all(&self.coeffs, q);
        self.coeffs = c;
    }

    /// The infinity norm — the largest absolute coefficient.
    pub fn inf_norm(&self) -> (r: IBig)
        ensures
            r@ == max_abs(self@),
    {
        let mut m = IBig::zero();
        for i in 0..self.coeffs.len()
            invariant
                m@ == max_abs(self@.take(i as int)),
        {
            let a = self.coeffs[i].abs();
            assert(self@.take(i + 1).drop_last() =~= self@.take(i as int));
            if m.lt(&a) {
                m = a;
            }
        }
        assert(self@.take(self.coeffs.len() as int) =~= self@);
        m
    }

    pub fn copy(&self) -> (r: Self)
        ensures
            r@ == self@,
    {
        let mut out: Vec<IBig> = Vec::new();
        for i in 0..self.coeffs.len()
            invariant
                out.len() == i,
                forall|j: int| 0 <= j < i ==> #[trigger] out@[j]@ == self.coeffs@[j]@,
        {
            out.push(self.coeffs[i].copy());
        }
        let r = Poly { coeffs: out };
        assert(r@ =~= self@);
        r
    }
}

/// Polynomial addition in `R_q`.
pub fn poly_add(a: &Poly, b: &Poly, q: &IBig) -> (r: Poly)
    requires
        q@ != 0,
        a@.len() == b@.len(),
    ensures
        r@ == padd(a@, b@, q@),
{
    Poly { coeffs: ring::add_centred(&a.coeffs, &b.coeffs, q) }
}

/// Polynomial subtraction in `R_q`.
pub fn poly_sub(a: &Poly, b: &Poly, q: &IBig) -> (r: Poly)
    requires
        q@ != 0,
        a@.len() <= b@.len(),
    ensures
        r@ == ring::psub(a@, b@, q@),
{
    Poly { coeffs: ring::sub_centred(&a.coeffs, &b.coeffs, q) }
}

/// Schoolbook negacyclic multiplication in `R_q = ℤ_q[X]/(X^n + 1)`.
pub fn poly_mul(a: &Poly, b: &Poly, q: &IBig) -> (r: Poly)
    requires
        q@ != 0,
        a@.len() == b@.len(),
    ensures
        r@ == pmul(a@, b@, q@),
{
    Poly { coeffs: ring::negacyclic_centred(&a.coeffs, &b.coeffs, q) }
}

/// Multiply every coefficient by a scalar, then reduce.
pub fn poly_scalar(a: &Poly, k: &IBig, q: &IBig) -> (r: Poly)
    requires
        q@ != 0,
    ensures
        r@ == pscalar(a@, k@, q@),
{
    Poly { coeffs: ring::scalar_centred(&a.coeffs, k, q) }
}

/// Negate every coefficient in `R_q`.
pub fn poly_neg(p: &Poly, q: &IBig) -> (r: Poly)
    requires
        q@ != 0,
    ensures
        r@ == pneg(p@, q@),
{
    Poly { coeffs: ring::neg_centred(&p.coeffs, q) }
}

/// BFV public key.
#[derive(Clone, Debug)]
pub struct PublicKey {
    /// First component, `b = -(a·s + e)`.
    pub b: Poly,
    /// Second component, uniform random `a`.
    pub a: Poly,
    /// Parameters in use.
    pub params: Params,
}

/// BFV secret key.
#[derive(Clone, Debug)]
pub struct SecretKey {
    /// The ternary secret `s`.
    pub s: Poly,
    /// Parameters in use.
    pub params: Params,
}

/// A BFV ciphertext: two components when fresh, three after a multiplication.
#[derive(Clone, Debug)]
pub struct Ciphertext {
    /// The polynomial components.
    pub parts: Vec<Poly>,
    /// Parameters used.
    pub params: Params,
}

impl Ciphertext {
    /// How many polynomial components this ciphertext currently has.
    pub fn size(&self) -> (r: usize)
        ensures
            r == self.parts.len(),
    {
        self.parts.len()
    }

    pub fn copy(&self) -> (r: Self)
        ensures
            r.params@ == self.params@,
            parts_view(r.parts@) == parts_view(self.parts@),
            r.parts.len() == self.parts.len(),
    {
        let mut parts: Vec<Poly> = Vec::new();
        for i in 0..self.parts.len()
            invariant
                parts.len() == i,
                forall|j: int| 0 <= j < i ==> #[trigger] parts@[j]@ == self.parts@[j]@,
        {
            parts.push(self.parts[i].copy());
        }
        assert(parts_view(parts@) =~= parts_view(self.parts@));
        Ciphertext { parts, params: self.params.copy() }
    }
}

/// Generate a fresh BFV key pair under the given parameters.
pub fn keygen(params: &Params) -> (r: (PublicKey, SecretKey))
    requires
        params.q@ > 0,
    ensures
        r.0.params@ == params@,
        r.1.params@ == params@,
        r.1.s@.len() == params.n,
        is_ternary(r.1.s@),
        r.0.a@.len() == params.n,
        exists|e: Seq<int>|
            e.len() == params.n && is_small(e, params.eta as int) && #[trigger] r.0.b@ == pneg(
                padd(pmul(r.0.a@, r.1.s@, params.q@), e, params.q@),
                params.q@,
            ),
{
    let mut rng = util::rng();
    let s = Poly::rand_ternary(&mut rng, params);
    let a = Poly::rand_uniform(&mut rng, params);
    let e = Poly::rand_noise(&mut rng, params);
    let a_s = poly_mul(&a, &s, &params.q);
    let a_s_plus_e = poly_add(&a_s, &e, &params.q);
    let b = poly_neg(&a_s_plus_e, &params.q);
    assert(b@ == pneg(padd(pmul(a@, s@, params.q@), e@, params.q@), params.q@));
    (PublicKey { b, a, params: params.copy() }, SecretKey { s, params: params.copy() })
}

/// Encrypt a vector of plaintext coefficients (zero-padded or truncated to `n`).
pub fn encrypt(pk: &PublicKey, plain: &[u64]) -> (ct: Ciphertext)
    requires
        pk.params.q@ != 0,
        pk.params.t@ != 0,
        pk.b@.len() == pk.params.n,
        pk.a@.len() == pk.params.n,
    ensures
        ct.params@ == pk.params@,
        ct.parts.len() == 2,
        exists|u: Seq<int>, e1: Seq<int>, e2: Seq<int>|
            #![trigger encrypt_parts(pk@, plain@, u, e1, e2)]
            u.len() == pk.params.n && is_ternary(u) && e1.len() == pk.params.n && is_small(
                e1,
                pk.params.eta as int,
            ) && e2.len() == pk.params.n && is_small(e2, pk.params.eta as int) && (ct.parts@[0]@,
            ct.parts@[1]@) == encrypt_parts(pk@, plain@, u, e1, e2),
{
    let mut rng = util::rng();
    let params = &pk.params;
    let m = Poly::from_plain(plain, params);
    let delta = params.delta();
    let delta_m = poly_scalar(&m, &delta, &params.q);
    let u = Poly::rand_ternary(&mut rng, params);
    let e1 = Poly::rand_noise(&mut rng, params);
    let e2 = Poly::rand_noise(&mut rng, params);
    let bu = poly_mul(&pk.b, &u, &params.q);
    let au = poly_mul(&pk.a, &u, &params.q);
    let c0 = poly_add(&poly_add(&bu, &e1, &params.q), &delta_m, &params.q);
    let c1 = poly_add(&au, &e2, &params.q);
    let mut parts: Vec<Poly> = Vec::new();
    parts.push(c0);
    parts.push(c1);
    let ct = Ciphertext { parts, params: params.copy() };
    assert((ct.parts@[0]@, ct.parts@[1]@) == encrypt_parts(pk@, plain@, u@, e1@, e2@));
    ct
}

/// The public values a public key is made of.
impl View for PublicKey {
    type V = (Seq<int>, Seq<int>, (nat, int, int, nat));

    open spec fn view(&self) -> (Seq<int>, Seq<int>, (nat, int, int, nat)) {
        (self.b@, self.a@, self.params@)
    }
}

/// The two components of a fresh encryption of `plain` under `pk` with
/// ternary `u` and noise `e1`, `e2`: `(b·u + e1 + Δ·m, a·u + e2)`.
pub open spec fn encrypt_parts(
    pk: (Seq<int>, Seq<int>, (nat, int, int, nat)),
    plain: Seq<u64>,
    u: Seq<int>,
    e1: Seq<int>,
    e2: Seq<int>,
) -> (Seq<int>, Seq<int>) {
    let (b, a, params) = pk;
    let (n, q, t, eta) = params;
    let m = Seq::new(n, |i: int| if i < plain.len() { plain[i] as int } else { 0 });
    let delta_m = pscalar(m, tdiv(q, t), q);
    (padd(padd(pmul(b, u, q), e1, q), delta_m, q), padd(pmul(a, u, q), e2, q))
}

/// One decrypted plaintext coefficient: `round(t·c / q) mod t`, or 0 when
/// that value does not fit in a `u64`.
pub open spec fn decrypt_coeff(c: int, t: int, q: int) -> int {
    let r = trem(round_div_value(c * t, q), t);
    let r2 = if r < 0 { r + t } else { r };
    if 0 <= r2 <= u64::MAX { r2 } else { 0 }
}

/// The views of a ciphertext's components.
pub open spec fn parts_view(parts: Seq<Poly>) -> Seq<Seq<int>> {
    parts.map_values(|p: Poly| p@)
}

/// Decrypt a ciphertext of two or three components to plaintext coefficients.
pub fn decrypt(sk: &SecretKey, ct: &Ciphertext) -> (out: Vec<u64>)
    requires
        sk.params.q@ != 0,
        sk.params.t@ != 0,
        1 <= ct.parts.len() <= 3,
        forall|i: int| 1 <= i < ct.parts.len() ==> #[trigger] ct.parts@[i]@.len() == ct.parts@[0]@.len(),
        ct.parts.len() >= 2 ==> ct.parts@[1]@.len() == sk.s@.len(),
    ensures
        out@.len() == ct.parts@[0]@.len(),
        forall|k: int|
            0 <= k < out@.len() ==> #[trigger] out@[k] as int == decrypt_coeff(
                phase(parts_view(ct.parts@), sk.s@, sk.params.q@)[k],
                sk.params.t@,
                sk.params.q@,
            ),
{
    let params = &sk.params;
    let mut acc = ct.parts[0].copy();
    if ct.parts.len() >= 2 {
        let term = poly_mul(&ct.parts[1], &sk.s, &params.q);
        acc = poly_add(&acc, &term, &params.q);
    }
    if ct.parts.len() >= 3 {
        let s_sq_poly = poly_mul(&sk.s, &sk.s, &params.q);
        let term = poly_mul(&ct.parts[2], &s_sq_poly, &params.q);
        acc = poly_add(&acc, &term, &params.q);
    }
    assert(acc@ == phase(parts_view(ct.parts@), sk.s@, sk.params.q@));
    let t = &params.t;
    let q = &params.q;
    let mut out: Vec<u64> = Vec::new();
    for k in 0..acc.coeffs.len()
        invariant
            q@ != 0,
            t@ != 0,
            q@ == sk.params.q@,
            t@ == sk.params.t@,
            out.len() == k,
            forall|j: int|
                0 <= j < k ==> #[trigger] out@[j] as int == decrypt_coeff(acc@[j], t@, q@),
    {
        let scaled = acc.coeffs[k].mul(t);
        let rounded = ring::round_div(&scaled, q);
        let mut reduced = rounded.rem(t);
        if reduced.is_negative() {
            reduced = reduced.add(t);
        }
        let v = match reduced.to_u64() {
            Some(x) => x,
            None => 0,
        };
        assert(acc@[k as int] == acc.coeffs@[k as int]@);
        out.push(v);
    }
    out
}

/// The number of plaintext coefficients shown once trailing zeros are
/// trimmed: up to the last non-zero one, and at least one when there is any.
pub open spec fn trimmed_len(s: Seq<u64>) -> nat
    decreases s.len(),
{
    if s.len() <= 1 {
        s.len()
    } else if s.last() != 0 {
        s.len()
    } else {
        trimmed_len(s.drop_last())
    }
}

/// Decrypted coefficients without their trailing zeros (keeping at least one).
pub fn trim_plain(plain: &[u64]) -> (r: Vec<u64>)
    ensures
        r@ == plain@.take(trimmed_len(plain@) as int),
        trimmed_len(plain@) <= plain@.len(),
{
    let mut k: usize = plain.len();
    assert(plain@.take(k as int) =~= plain@);
    while k > 1 && plain[k - 1] == 0
        invariant
            k <= plain@.len(),
            trimmed_len(plain@.take(k as int)) == trimmed_len(plain@),
        decreases k,
    {
        assert(plain@.take(k as int).drop_last() =~= plain@.take(k - 1));
        k = k - 1;
    }
    assert(trimmed_len(plain@.take(k as int)) == k);
    let mut out: Vec<u64> = Vec::new();
    let mut i: usize = 0;
    while i < k
        invariant
            k <= plain@.len(),
            i <= k,
            out@ == plain@.take(i as int),
        decreases k - i,
    {
        out.push(plain[i]);
        assert(plain@.take(i as int).push(plain@[i as int]) =~= plain@.take(i + 1));
        i = i + 1;
    }
    out
}

/// Homomorphic addition: component-wise sum; the longer ciphertext's extra
/// components are carried over.
pub fn add(a: &Ciphertext, b: &Ciphertext) -> (r: Ciphertext)
    requires
        a.params.q@ != 0,
        forall|i: int|
            0 <= i < a.parts.len() && 0 <= i < b.parts.len() ==> #[trigger] a.parts@[i]@.len()
                == b.parts@[i]@.len(),
    ensures
        r.params@ == a.params@,
        r.parts.len() == if a.parts.len() >= b.parts.len() { a.parts.len() } else { b.parts.len() },
        forall|i: int|
            0 <= i < r.parts.len() ==> #[trigger] r.parts@[i]@ == if i < a.parts.len() && i
                < b.parts.len() {
                padd(a.parts@[i]@, b.parts@[i]@, a.params.q@)
            } else if i < a.parts.len() {
                a.parts@[i]@
            } else {
                b.parts@[i]@
            },
{
    let q = &a.params.q;
    let n = if a.parts.len() >= b.parts.len() {
        a.parts.len()
    } else {
        b.parts.len()
    };
    let mut parts: Vec<Poly> = Vec::new();
    for i in 0..n
        invariant
            q@ == a.params.q@,
            q@ != 0,
            n == if a.parts.len() >= b.parts.len() { a.parts.len() } else { b.parts.len() },
            forall|i: int|
                0 <= i < a.parts.len() && 0 <= i < b.parts.len() ==> #[trigger] a.parts@[i]@.len()
                    == b.parts@[i]@.len(),
            parts.len() == i,
            forall|j: int|
                0 <= j < i ==> #[trigger] parts@[j]@ == if j < a.parts.len() && j < b.parts.len() {
                    padd(a.parts@[j]@, b.parts@[j]@, a.params.q@)
                } else if j < a.parts.len() {
                    a.parts@[j]@
                } else {
                    b.parts@[j]@
                },
    {
        if i < a.parts.len() && i < b.parts.len() {
            parts.push(poly_add(&a.parts[i], &b.parts[i], q));
        } else if i < a.parts.len() {
            parts.push(a.parts[i].copy());
        } else {
            parts.push(b.parts[i].copy());
        }
    }
    Ciphertext { parts, params: a.params.copy() }
}

/// The BFV rescale of an exact product: `round(t·c / q)`, centred modulo `q`.
pub open spec fn rescale_values(c: Seq<int>, t: int, q: int) -> Seq<int> {
    Seq::new(c.len(), |i: int| centre_value(round_div_value(c[i] * t, q), q))
}

/// Homomorphic multiplication of two size-2 ciphertexts, giving a size-3
/// ciphertext that decrypts under `(1, s, s²)`:
/// `d₀ = ⌊t/q · c₀c₀'⌉`, `d₁ = ⌊t/q · (c₀c₁' + c₁c₀')⌉`, `d₂ = ⌊t/q · c₁c₁'⌉`.
pub fn mul(a: &Ciphertext, b: &Ciphertext) -> (r: Ciphertext)
    requires
        a.parts.len() == 2,
        b.parts.len() == 2,
        a.params.q@ != 0,
        forall|i: int| 0 <= i < 2 ==> #[trigger] a.parts@[i]@.len() >= a.params.n,
        forall|i: int| 0 <= i < 2 ==> #[trigger] b.parts@[i]@.len() >= a.params.n,
    ensures
        r.params@ == a.params@,
        r.parts.len() == 3,
        ({
            let n = a.params.n as int;
            let (q, t) = (a.params.q@, a.params.t@);
            let (a0, a1, b0, b1) = (a.parts@[0]@, a.parts@[1]@, b.parts@[0]@, b.parts@[1]@);
            &&& r.parts@[0]@ == rescale_values(negacyclic(a0, b0, n), t, q)
            &&& r.parts@[1]@ == rescale_values(
                Seq::new(n as nat, |k: int| negacyclic(a0, b1, n)[k] + negacyclic(a1, b0, n)[k]),
                t,
                q,
            )
            &&& r.parts@[2]@ == rescale_values(negacyclic(a1, b1, n), t, q)
        }),
{
    let params = &a.params;
    let q = &params.q;
    let t = &params.t;
    let n = params.n;
    assert(a.parts@[0]@.len() >= n && a.parts@[1]@.len() >= n);
    assert(b.parts@[0]@.len() >= n && b.parts@[1]@.len() >= n);
    let d0 = ring::negacyclic_exact(&a.parts[0].coeffs, &b.parts[0].coeffs, n);
    let d1_a = ring::negacyclic_exact(&a.parts[0].coeffs, &b.parts[1].coeffs, n);
    let d1_b = ring::negacyclic_exact(&a.parts[1].coeffs, &b.parts[0].coeffs, n);
    let mut d1: Vec<IBig> = Vec::new();
    for k in 0..n
        invariant
            ints(d1_a@).len() == n,
            ints(d1_b@).len() == n,
            d1.len() == k,
            forall|j: int| 0 <= j < k ==> #[trigger] d1@[j]@ == d1_a@[j]@ + d1_b@[j]@,
    {
        assert(d1_a@.len() == n && d1_b@.len() == n);
        d1.push(d1_a[k].add(&d1_b[k]));
    }
    let d2 = ring::negacyclic_exact(&a.parts[1].coeffs, &b.parts[1].coeffs, n);
    let p0 = rescale(&d0, t, q);
    let p1 = rescale(&d1, t, q);
    let p2 = rescale(&d2, t, q);
    proof {
        let (a0, a1, b0, b1) = (a.parts@[0]@, a.parts@[1]@, b.parts@[0]@, b.parts@[1]@);
        assert(ints(d1@) =~= Seq::new(
            n as nat,
            |k: int| negacyclic(a0, b1, n as int)[k] + negacyclic(a1, b0, n as int)[k],
        )) by {
            assert forall|k: int| 0 <= k < n implies #[trigger] ints(d1@)[k] == negacyclic(a0, b1, n as int)[k]
                + negacyclic(a1, b0, n as int)[k] by {
                assert(ints(d1_a@)[k] == d1_a@[k]@);
                assert(ints(d1_b@)[k] == d1_b@[k]@);
            }
        }
    }
    let mut parts: Vec<Poly> = Vec::new();
    parts.push(p0);
    parts.push(p1);
    parts.push(p2);
    Ciphertext { parts, params: params.copy() }
}

/// Apply the BFV rescale `round(t · c / q)`, centred modulo `q`, coefficient-wise.
fn rescale(coeffs: &Vec<IBig>, t: &IBig, q: &IBig) -> (r: Poly)
    requires
        q@ != 0,
    ensures
        r@ == rescale_values(ints(coeffs@), t@, q@),
{
    let mut out: Vec<IBig> = Vec::new();
    for i in 0..coeffs.len()
        invariant
            q@ != 0,
            out.len() == i,
            forall|j: int|
                0 <= j < i ==> #[trigger] out@[j]@ == centre_value(round_div_value(coeffs@[j]@ * t@, q@), q@),
    {
        let scaled = coeffs[i].mul(t);
        let rounded = ring::round_div(&scaled, q);
        out.push(ring::centre(&rounded, q));
    }
    let r = Poly { coeffs: out };
    assert(r@ =~= rescale_values(ints(coeffs@), t@, q@));
    r
}

/// `⌊log₂ |x|⌋` for display, 0 for `x = 0`.
pub open spec fn log2_value(x: int) -> nat {
    let m = if x < 0 { -x } else { x };
    if m == 0 { 0 } else { (bit_len(m as nat) - 1) as nat }
}

/// A positive number is at least 2 to the power of its bit length less one.
proof fn lemma_pow2_bit_len_le(v: nat)
    requires
        v > 0,
    ensures
        vstd::arithmetic::power2::pow2((bit_len(v) - 1) as nat) <= v,
    decreases v,
{
    vstd::arithmetic::power2::lemma2_to64();
    assert(bit_len(v) == 1 + bit_len(v / 2));
    if v >= 2 {
        let h = bit_len(v / 2);
        lemma_pow2_bit_len_le(v / 2);
        assert(h > 0);
        vstd::arithmetic::power2::lemma_pow2_unfold(h);
        assert(vstd::arithmetic::power2::pow2(h) == 2 * vstd::arithmetic::power2::pow2((h - 1) as nat));
        assert((bit_len(v) - 1) as nat == h);
    } else {
        assert(bit_len(0) == 0);
        assert((bit_len(v) - 1) as nat == 0);
    }
}

/// The `⌊log₂⌋` figure reported for a noise size is exact: for `x ≠ 0`,
/// `2^L ≤ |x| < 2^(L+1)` where `L = log2_value(x)`; for `x = 0` it is 0.
pub proof fn law_log2_figure(x: int)
    ensures
        x == 0 ==> log2_value(x) == 0,
        x != 0 ==> vstd::arithmetic::power2::pow2(log2_value(x)) <= (if x < 0 { -x } else { x })
            < vstd::arithmetic::power2::pow2(log2_value(x) + 1),
{
    let m: nat = (if x < 0 { -x } else { x }) as nat;
    if m > 0 {
        lemma_pow2_bit_len_le(m);
        util::lemma_below_pow2_bit_len(m);
        assert(bit_len(m) > 0);
        assert(log2_value(x) + 1 == bit_len(m));
    }
}

/// Approximate `log2(|x|)`: one less than the bit count, 0 for `x = 0`.
pub fn bigint_log2(x: &IBig) -> (r: u64)
    ensures
        r == log2_value(x@),
{
    if x.is_zero() {
        return 0;
    }
    let bits = x.bits();
    proof {
        let m = if x@ < 0 { -x@ } else { x@ };
        assert(m > 0);
        assert(bit_len(m as nat) > 0);
    }
    bits - 1
}

/// The largest distance of a coefficient of `c` to the nearest multiple of `Δ`.
pub open spec fn max_noise(c: Seq<int>, delta: int) -> int {
    max_abs(Seq::new(c.len(), |i: int| c[i] - round_div_value(c[i], delta) * delta))
}

/// Estimate the noise inside a ciphertext, given the secret key.
///
/// Returns `(noise_size, log2_noise, log2_budget)`: the largest coefficient
/// distance to a multiple of `Δ`, its `⌊log₂⌋`, and the headroom
/// `log₂ q - log₂ t - 1 - log₂ noise` (never below 0), all in whole bits.
pub fn noise_estimate(sk: &SecretKey, ct: &Ciphertext) -> (r: (IBig, u64, u64))
    requires
        sk.params.q@ != 0,
        sk.params.t@ != 0,
        tdiv(sk.params.q@, sk.params.t@) != 0,
        1 <= ct.parts.len(),
        forall|i: int| 1 <= i < ct.parts.len() ==> #[trigger] ct.parts@[i]@.len() == ct.parts@[0]@.len(),
        ct.parts.len() >= 2 ==> ct.parts@[1]@.len() == sk.s@.len(),
    ensures
        ({
            let q = sk.params.q@;
            let ph = phase(parts_view(ct.parts@), sk.s@, q);
            let noise = max_noise(ph, tdiv(q, sk.params.t@));
            let budget = log2_value(q) - log2_value(sk.params.t@) - 1 - log2_value(noise);
            &&& r.0@ == noise
            &&& r.1 == log2_value(noise)
            &&& r.2 == if budget > 0 { budget } else { 0 }
        }),
{
    let params = &sk.params;
    let mut acc = ct.parts[0].copy();
    if ct.parts.len() >= 2 {
        acc = poly_add(&acc, &poly_mul(&ct.parts[1], &sk.s, &params.q), &params.q);
    }
    if ct.parts.len() >= 3 {
        let s_sq = poly_mul(&sk.s, &sk.s, &params.q);
        acc = poly_add(&acc, &poly_mul(&ct.parts[2], &s_sq, &params.q), &params.q);
    }
    assert(acc@ == phase(parts_view(ct.parts@), sk.s@, sk.params.q@));
    let delta = params.delta();
    let ghost dists = Seq::new(
        acc@.len(),
        |i: int| acc@[i] - round_div_value(acc@[i], delta@) * delta@,
    );
    let mut max_noise_v = IBig::zero();
    for i in 0..acc.coeffs.len()
        invariant
            delta@ != 0,
            dists == Seq::new(
                acc@.len(),
                |i: int| acc@[i] - round_div_value(acc@[i], delta@) * delta@,
            ),
            max_noise_v@ == max_abs(dists.take(i as int)),
    {
        let qq = ring::round_div(&acc.coeffs[i], &delta);
        let noise = acc.coeffs[i].sub(&qq.mul(&delta));
        let abs = noise.abs();
        assert(dists.take(i + 1).drop_last() =~= dists.take(i as int));
        assert(acc@[i as int] == acc.coeffs@[i as int]@);
        if max_noise_v.lt(&abs) {
            max_noise_v = abs;
        }
    }
    assert(dists.take(acc.coeffs.len() as int) =~= dists);
    let log2_noise = bigint_log2(&max_noise_v);
    let log2_q = bigint_log2(&params.q);
    let log2_t = bigint_log2(&params.t);
    let budget: i128 = (log2_q as i128 - log2_t as i128 - 1) - log2_noise as i128;
    let b = if budget > 0 {
        budget as u64
    } else {
        0
    };
    (max_noise_v, log2_noise, b)
}


/// Rounding recovers the plaintext: when `c ≡ Δ·m + v (mod q)` with
/// `|m| ≤ mb`, `|v| ≤ bound`, `2·(bound·t + t·mb) < q` and `m mod t` a `u64`,
/// the decrypted coefficient of `c` is `m mod t`.
pub proof fn lemma_round_recovers(c: int, m: int, v: int, q: int, t: int, bound: int, mb: int)
    requires
        q > 0,
        t > 0,
        -mb <= m <= mb,
        m % t <= u64::MAX,
        -bound <= v <= bound,
        2 * (bound * t + t * mb) < q,
        c % q == (m * tdiv(q, t) + v) % q,
    ensures
        decrypt_coeff(c, t, q) == m % t,
{
    let delta = q / t;
    let rho = q % t;
    vstd::arithmetic::div_mod::lemma_fundamental_div_mod(q, t);
    assert(tdiv(q, t) == delta);
    // c = Δ·m + v + q·j
    let x = m * delta + v;
    vstd::arithmetic::div_mod::lemma_mod_equivalence(c, x, q);
    vstd::arithmetic::div_mod::lemma_fundamental_div_mod(c - x, q);
    let j0 = (c - x) / q;
    assert(c == x + q * j0);
    // write m = α·t + m0
    let m0 = m % t;
    let alpha = m / t;
    vstd::arithmetic::div_mod::lemma_fundamental_div_mod(m, t);
    let j = j0 + alpha;
    // c·t = q·(m0 + j·t) + (v·t - ρ·m)
    let qv = m0 + j * t;
    let err = v * t - rho * m;
    assert(c * t == q * qv + err) by (nonlinear_arith)
        requires
            c == m * delta + v + q * j0,
            q == t * delta + rho,
            m == t * alpha + m0,
            j == j0 + alpha,
            qv == m0 + j * t,
            err == v * t - rho * m,
    ;
    assert(-(bound * t) <= v * t <= bound * t) by (nonlinear_arith)
        requires
            -bound <= v <= bound,
            t > 0,
    ;
    assert(-(t * mb) <= rho * m <= t * mb) by (nonlinear_arith)
        requires
            0 <= rho < t,
            -mb <= m <= mb,
    ;
    assert(2 * err < q && -q < 2 * err);
    // rounding gives qv
    let half = tdiv(q, 2);
    vstd::arithmetic::div_mod::lemma_fundamental_div_mod(q, 2);
    assert(half == q / 2);
    let num = c * t;
    assert(round_div_value(num, q) == qv) by {
        if num >= 0 {
            assert(0 <= err + half < q);
            vstd::arithmetic::div_mod::lemma_fundamental_div_mod_converse(num + half, q, qv, err + half);
            assert(tdiv(num + half, q) == (num + half) / q);
        } else {
            assert(0 <= half - err < q);
            assert(half - num == (-qv) * q + (half - err)) by (nonlinear_arith)
                requires
                    num == q * qv + err,
            ;
            vstd::arithmetic::div_mod::lemma_fundamental_div_mod_converse(half - num, q, -qv, half - err);
            assert(tdiv(num - half, q) == -((half - num) / q));
        }
    }
    // the remainder of qv = m0 + j·t modulo t is m0 (shifted into [0, t))
    let r = trem(qv, t);
    if qv >= 0 {
        vstd::arithmetic::div_mod::lemma_fundamental_div_mod_converse(qv, t, j, m0);
        assert(tdiv(qv, t) == j);
        assert(r == m0) by (nonlinear_arith)
            requires
                r == qv - t * tdiv(qv, t),
                tdiv(qv, t) == j,
                qv == m0 + j * t,
        ;
    } else {
        if m0 > 0 {
            assert(-qv == (-j - 1) * t + (t - m0)) by (nonlinear_arith)
                requires
                    qv == m0 + j * t,
            ;
            vstd::arithmetic::div_mod::lemma_fundamental_div_mod_converse(-qv, t, -j - 1, t - m0);
            assert(tdiv(qv, t) == j + 1);
            assert(r == m0 - t) by (nonlinear_arith)
                requires
                    r == qv - t * tdiv(qv, t),
                    tdiv(qv, t) == j + 1,
                    qv == m0 + j * t,
            ;
        } else {
            assert(-qv == (-j) * t + 0) by (nonlinear_arith)
                requires
                    qv == m0 + j * t,
                    m0 == 0,
            ;
            vstd::arithmetic::div_mod::lemma_fundamental_div_mod_converse(-qv, t, -j, 0);
            assert(tdiv(qv, t) == j);
            assert(r == 0) by (nonlinear_arith)
                requires
                    r == qv - t * tdiv(qv, t),
                    tdiv(qv, t) == j,
                    qv == m0 + j * t,
                    m0 == 0,
            ;
        }
    }
}

/// The plaintext coefficients `encrypt_parts` scales: `plain`, zero-padded to `n`.
pub open spec fn padded_plain(plain: Seq<u64>, n: nat) -> Seq<int> {
    Seq::new(n, |i: int| if i < plain.len() { plain[i] as int } else { 0 })
}

/// What a key pair and an encryption built as `keygen` and `encrypt` build
/// them satisfy: lengths `n`, ternary `s` and `u`, noise bounded by `eta`.
pub open spec fn honest_parts(
    params: (nat, int, int, nat),
    a: Seq<int>,
    s: Seq<int>,
    e: Seq<int>,
    u: Seq<int>,
    e1: Seq<int>,
    e2: Seq<int>,
) -> bool {
    let (n, q, t, eta) = params;
    &&& q > 0
    &&& t > 0
    &&& a.len() == n && s.len() == n && e.len() == n
    &&& u.len() == n && e1.len() == n && e2.len() == n
    &&& is_ternary(s) && is_ternary(u)
    &&& is_small(e, eta as int) && is_small(e1, eta as int) && is_small(e2, eta as int)
}

/// The phase of a fresh encryption is `Δ·m + (e1 + e2·s - e·u)` modulo `q`,
/// and that noise is at most `(2n + 1)·eta` in absolute value.
pub proof fn lemma_fresh_phase(
    params: (nat, int, int, nat),
    a: Seq<int>,
    s: Seq<int>,
    e: Seq<int>,
    plain: Seq<u64>,
    u: Seq<int>,
    e1: Seq<int>,
    e2: Seq<int>,
    k: int,
)
    requires
        honest_parts(params, a, s, e, u, e1, e2),
        0 <= k < params.0,
    ensures
        ({
            let (n, q, t, eta) = params;
            let b = pneg(padd(pmul(a, s, q), e, q), q);
            let (c0, c1) = encrypt_parts((b, a, params), plain, u, e1, e2);
            let v = rlwe_noise(e, s, u, e1, e2, n as int, k);
            &&& phase(seq![c0, c1], s, q)[k] % q == (padded_plain(plain, n)[k] * tdiv(q, t) + v) % q
            &&& -((2 * n + 1) * eta) <= v <= (2 * n + 1) * eta
        }),
{
    let (n, q, t, eta) = params;
    let m = padded_plain(plain, n);
    let delta = tdiv(q, t);
    let dm = pscalar(m, delta, q);
    crate::poly_laws::lemma_rlwe_phase(n, q, eta as int, a, s, e, dm, u, e1, e2, k);
    let b = pneg(padd(pmul(a, s, q), e, q), q);
    let (c0, c1) = encrypt_parts((b, a, params), plain, u, e1, e2);
    assert(m =~= Seq::new(n, |i: int| if i < plain.len() { plain[i] as int } else { 0 }));
    let v = rlwe_noise(e, s, u, e1, e2, n as int, k);
    ring::lemma_centre_value(m[k] * delta, q);
    crate::poly_laws::lemma_cong_add(dm[k], v, m[k] * delta, v, q);
}

/// Decryption inverts encryption. Take a key pair as `keygen` makes it
/// (ternary `s`, any `a`, noise `e` with `b = -(a·s + e)`) and an encryption
/// as `encrypt` makes it (ternary `u`, noise `e1`, `e2`), all noise bounded
/// by `eta`. If every plaintext coefficient is below `t` and the noise
/// margin `2·((2n + 1)·eta·t + t²) < q` holds, every decrypted coefficient
/// is the plaintext coefficient (zero past the end of the plaintext).
pub proof fn lemma_decrypt_encrypt(
    params: (nat, int, int, nat),
    a: Seq<int>,
    s: Seq<int>,
    e: Seq<int>,
    plain: Seq<u64>,
    u: Seq<int>,
    e1: Seq<int>,
    e2: Seq<int>,
)
    requires
        honest_parts(params, a, s, e, u, e1, e2),
        forall|i: int| 0 <= i < plain.len() ==> (#[trigger] plain[i]) < params.2,
        2 * ((2 * params.0 + 1) * params.3 * params.2 + params.2 * params.2) < params.1,
    ensures
        ({
            let (n, q, t, eta) = params;
            let b = pneg(padd(pmul(a, s, q), e, q), q);
            let (c0, c1) = encrypt_parts((b, a, params), plain, u, e1, e2);
            let ph = phase(seq![c0, c1], s, q);
            forall|k: int|
                0 <= k < n ==> decrypt_coeff(#[trigger] ph[k], t, q) == padded_plain(plain, n)[k]
        }),
{
    let (n, q, t, eta) = params;
    let b = pneg(padd(pmul(a, s, q), e, q), q);
    let (c0, c1) = encrypt_parts((b, a, params), plain, u, e1, e2);
    let phs = phase(seq![c0, c1], s, q);
    let m = padded_plain(plain, n);
    assert forall|k: int| 0 <= k < n implies decrypt_coeff(#[trigger] phs[k], t, q) == m[k] by {
        lemma_fresh_phase(params, a, s, e, plain, u, e1, e2, k);
        let bound: int = ((2 * n + 1) * eta) as int;
        if k < plain.len() {
            assert(plain[k] < t);
        }
        assert(t * m[k] <= t * t) by (nonlinear_arith)
            requires
                0 <= m[k] < t,
        ;
        vstd::arithmetic::div_mod::lemma_small_mod(m[k] as nat, t as nat);
        lemma_round_recovers(phs[k], m[k], rlwe_noise(e, s, u, e1, e2, n as int, k), q, t, bound, m[k]);
    }
}

/// Rounding to the nearest multiple of `Δ` leaves `w` when `c = Δ·m + w`
/// and `|w|` is below `⌊Δ/2⌋`.
pub proof fn lemma_distance_to_multiple(c: int, delta: int, m: int, w: int)
    requires
        delta > 0,
        c == m * delta + w,
        -tdiv(delta, 2) < w < tdiv(delta, 2),
    ensures
        c - round_div_value(c, delta) * delta == w,
{
    let half = tdiv(delta, 2);
    assert(half == delta / 2);
    vstd::arithmetic::div_mod::lemma_fundamental_div_mod(delta, 2);
    if c >= 0 {
        assert(c + half == m * delta + (w + half));
        vstd::arithmetic::div_mod::lemma_fundamental_div_mod_converse(c + half, delta, m, w + half);
        assert(round_div_value(c, delta) == (c + half) / delta);
    } else {
        assert(half - c == (-m) * delta + (half - w)) by (nonlinear_arith)
            requires
                c == m * delta + w,
        ;
        vstd::arithmetic::div_mod::lemma_fundamental_div_mod_converse(half - c, delta, -m, half - w);
        assert(round_div_value(c, delta) == -((half - c) / delta));
    }
}

/// Every entry of `s` lies in `[-bound, bound]`: so does its largest
/// absolute value.
pub proof fn lemma_max_abs_le(s: Seq<int>, bound: int)
    requires
        bound >= 0,
        forall|i: int| 0 <= i < s.len() ==> -bound <= #[trigger] s[i] <= bound,
    ensures
        0 <= max_abs(s) <= bound,
    decreases s.len(),
{
    if s.len() > 0 {
        assert forall|i: int| 0 <= i < s.drop_last().len() implies -bound <= #[trigger] s.drop_last()[i]
            <= bound by {
            assert(s.drop_last()[i] == s[i]);
        }
        lemma_max_abs_le(s.drop_last(), bound);
        assert(-bound <= s[s.len() - 1] <= bound);
    }
}

/// A centred residue congruent to `Δ·m + v`, with `0 ≤ m < k·t`,
/// `|v| ≤ bound` and `2·(bound + k·t) ≤ Δ`, lies within
/// `bound + k·(q mod t)` of a multiple of `Δ`.
proof fn lemma_phase_distance(c: int, q: int, t: int, m: int, v: int, k: int, bound: int)
    requires
        q > 0,
        t > 0,
        k >= 1,
        0 <= m < k * t,
        0 <= bound,
        -bound <= v <= bound,
        2 * (bound + k * t) <= q / t,
        -(q - q / 2) < c <= q - q / 2,
        c % q == (m * (q / t) + v) % q,
    ensures
        ({
            let delta = tdiv(q, t);
            let d = c - round_div_value(c, delta) * delta;
            -(bound + k * (q % t)) <= d <= bound + k * (q % t)
        }),
{
    let delta = q / t;
    let rho = q % t;
    vstd::arithmetic::div_mod::lemma_fundamental_div_mod(q, t);
    assert(tdiv(q, t) == delta);
    assert(q == t * delta + rho);
    assert(delta > 0) by (nonlinear_arith)
        requires
            2 * (bound + k * t) <= delta,
            k >= 1,
            t > 0,
            bound >= 0,
    ;
    assert(k * rho <= k * (t - 1)) by (nonlinear_arith)
        requires
            0 <= rho < t,
            k >= 1,
    ;
    let half = tdiv(delta, 2);
    assert(half == delta / 2);
    assert(k * (t - 1) == k * t - k) by (nonlinear_arith);
    assert(bound + k * rho < half);
    let x = m * delta + v;
    vstd::arithmetic::div_mod::lemma_mod_equivalence(c, x, q);
    vstd::arithmetic::div_mod::lemma_fundamental_div_mod(c - x, q);
    let j = (c - x) / q;
    assert(c - x == q * j);
    assert(m * delta <= (k * t - 1) * delta) by (nonlinear_arith)
        requires
            0 <= m < k * t,
            delta > 0,
    ;
    assert((k * t - 1) * delta == k * q - k * rho - delta) by (nonlinear_arith)
        requires
            q == t * delta + rho,
    ;
    assert(0 <= m * delta) by (nonlinear_arith)
        requires
            0 <= m,
            delta > 0,
    ;
    assert(k * rho >= 0) by (nonlinear_arith)
        requires
            k >= 1,
            rho >= 0,
    ;
    assert(q >= delta) by (nonlinear_arith)
        requires
            q == t * delta + rho,
            t >= 1,
            rho >= 0,
            delta > 0,
    ;
    assert(-(k * q) - q < c - x < q);
    assert(-k <= j <= 0) by (nonlinear_arith)
        requires
            -(k * q) - q < q * j < q,
            q > 0,
            k >= 1,
    ;
    assert(c == (m + j * t) * delta + (v + j * rho)) by (nonlinear_arith)
        requires
            c - x == q * j,
            x == m * delta + v,
            q == t * delta + rho,
    ;
    assert(-(k * rho) <= j * rho <= 0) by (nonlinear_arith)
        requires
            -k <= j <= 0,
            rho >= 0,
    ;
    lemma_distance_to_multiple(c, delta, m + j * t, v + j * rho);
}

/// One coefficient of a fresh encryption lies within `(2n + 1)·η + (q mod t)`
/// of a multiple of `Δ`.
#[verifier::spinoff_prover]
proof fn lemma_fresh_distance(
    params: (nat, int, int, nat),
    a: Seq<int>,
    s: Seq<int>,
    e: Seq<int>,
    plain: Seq<u64>,
    u: Seq<int>,
    e1: Seq<int>,
    e2: Seq<int>,
    k: int,
)
    requires
        honest_parts(params, a, s, e, u, e1, e2),
        forall|i: int| 0 <= i < plain.len() ==> (#[trigger] plain[i]) < params.2,
        2 * ((2 * params.0 + 1) * params.3 * params.2 + params.2 * params.2) < params.1,
        0 <= k < params.0,
    ensures
        ({
            let (n, q, t, eta) = params;
            let b = pneg(padd(pmul(a, s, q), e, q), q);
            let (c0, c1) = encrypt_parts((b, a, params), plain, u, e1, e2);
            let ph = phase(seq![c0, c1], s, q);
            let delta = tdiv(q, t);
            let d = ph[k] - round_div_value(ph[k], delta) * delta;
            &&& ph.len() == n
            &&& -((2 * n + 1) * eta + q % t) <= d <= (2 * n + 1) * eta + q % t
        }),
{
    let (n, q, t, eta) = params;
    let b = pneg(padd(pmul(a, s, q), e, q), q);
    let (c0, c1) = encrypt_parts((b, a, params), plain, u, e1, e2);
    let ph = phase(seq![c0, c1], s, q);
    lemma_fresh_phase(params, a, s, e, plain, u, e1, e2, k);
    let m = padded_plain(plain, n)[k];
    let v = rlwe_noise(e, s, u, e1, e2, n as int, k);
    let bound: int = ((2 * n + 1) * eta) as int;
    let delta = q / t;
    let rho = q % t;
    vstd::arithmetic::div_mod::lemma_fundamental_div_mod(q, t);
    assert(tdiv(q, t) == delta);
    assert(0 <= m < t) by {
        if k < plain.len() {
            assert(plain[k] < t);
        }
    }
    assert(bound * t == (2 * n + 1) * eta * t) by (nonlinear_arith)
        requires
            bound == (2 * n + 1) * eta,
    ;
    assert(2 * (bound + 1 * t) <= delta) by (nonlinear_arith)
        requires
            2 * (bound * t + t * t) < q,
            q == t * delta + rho,
            0 <= rho < t,
            t > 0,
    ;
    let y = c0[k] + pmul(c1, s, q)[k];
    assert(ph[k] == centre_value(y, q));
    util::lemma_trem(y, q);
    assert(-(q - q / 2) < ph[k] <= q - q / 2);
    lemma_phase_distance(ph[k], q, t, m, v, 1, bound);
}

/// The noise figure of a fresh encryption is small, whatever the message.
/// Take a key pair as `keygen` makes it and an encryption as `encrypt`
/// makes it (noise bounded by `eta`), plaintext coefficients below `t` and
/// the noise margin `2·((2n + 1)·eta·t + t²) < q`: every phase coefficient
/// lies within `(2n + 1)·eta + (q mod t)` of a multiple of `Δ`, so the noise
/// figure `noise_estimate` reports is at most that. (The `q mod t` term is
/// the shift a coefficient takes when `Δ·m` plus its noise passes `q/2`
/// and wraps around.)
pub proof fn law_fresh_noise(
    params: (nat, int, int, nat),
    a: Seq<int>,
    s: Seq<int>,
    e: Seq<int>,
    plain: Seq<u64>,
    u: Seq<int>,
    e1: Seq<int>,
    e2: Seq<int>,
)
    requires
        honest_parts(params, a, s, e, u, e1, e2),
        forall|i: int| 0 <= i < plain.len() ==> (#[trigger] plain[i]) < params.2,
        2 * ((2 * params.0 + 1) * params.3 * params.2 + params.2 * params.2) < params.1,
    ensures
        ({
            let (n, q, t, eta) = params;
            let b = pneg(padd(pmul(a, s, q), e, q), q);
            let (c0, c1) = encrypt_parts((b, a, params), plain, u, e1, e2);
            let noise = max_noise(phase(seq![c0, c1], s, q), tdiv(q, t));
            0 <= noise <= (2 * n + 1) * eta + q % t
        }),
{
    let (n, q, t, eta) = params;
    let b = pneg(padd(pmul(a, s, q), e, q), q);
    let (c0, c1) = encrypt_parts((b, a, params), plain, u, e1, e2);
    let ph = phase(seq![c0, c1], s, q);
    let delta = tdiv(q, t);
    let bound: int = (2 * n + 1) * eta + q % t;
    let dists = Seq::new(ph.len(), |i: int| ph[i] - round_div_value(ph[i], delta) * delta);
    assert(ph.len() == n);
    assert forall|i: int| 0 <= i < dists.len() implies -bound <= #[trigger] dists[i] <= bound by {
        lemma_fresh_distance(params, a, s, e, plain, u, e1, e2, i);
    }
    lemma_max_abs_le(dists, bound);
}

/// The noise figure of a sum of two fresh encryptions is at most twice the
/// fresh bound: with keys and encryptions as `keygen` and `encrypt` make
/// them, plaintext coefficients below `t` and the doubled margin
/// `2·(2·(2n + 1)·eta·t + 2t²) < q`, every phase coefficient of the sum lies
/// within `2·(2n + 1)·eta + 2·(q mod t)` of a multiple of `Δ`.
#[verifier::spinoff_prover]
pub proof fn law_sum_noise(
    params: (nat, int, int, nat),
    a: Seq<int>,
    s: Seq<int>,
    e: Seq<int>,
    plain1: Seq<u64>,
    u1: Seq<int>,
    e11: Seq<int>,
    e21: Seq<int>,
    plain2: Seq<u64>,
    u2: Seq<int>,
    e12: Seq<int>,
    e22: Seq<int>,
)
    requires
        honest_parts(params, a, s, e, u1, e11, e21),
        honest_parts(params, a, s, e, u2, e12, e22),
        forall|i: int| 0 <= i < plain1.len() ==> (#[trigger] plain1[i]) < params.2,
        forall|i: int| 0 <= i < plain2.len() ==> (#[trigger] plain2[i]) < params.2,
        2 * (2 * (2 * params.0 + 1) * params.3 * params.2 + 2 * params.2 * params.2) < params.1,
    ensures
        ({
            let (n, q, t, eta) = params;
            let b = pneg(padd(pmul(a, s, q), e, q), q);
            let (c0, c1) = encrypt_parts((b, a, params), plain1, u1, e11, e21);
            let (d0, d1) = encrypt_parts((b, a, params), plain2, u2, e12, e22);
            let noise = max_noise(phase(seq![padd(c0, d0, q), padd(c1, d1, q)], s, q), tdiv(q, t));
            0 <= noise <= 2 * ((2 * n + 1) * eta) + 2 * (q % t)
        }),
{
    let (n, q, t, eta) = params;
    let ni = n as int;
    let b = pneg(padd(pmul(a, s, q), e, q), q);
    let (c0, c1) = encrypt_parts((b, a, params), plain1, u1, e11, e21);
    let (d0, d1) = encrypt_parts((b, a, params), plain2, u2, e12, e22);
    let ph = phase(seq![padd(c0, d0, q), padd(c1, d1, q)], s, q);
    let delta = tdiv(q, t);
    let bound: int = 2 * ((2 * n + 1) * eta) + 2 * (q % t);
    let dists = Seq::new(ph.len(), |i: int| ph[i] - round_div_value(ph[i], delta) * delta);
    let m1 = padded_plain(plain1, n);
    let m2 = padded_plain(plain2, n);
    let fb: int = (2 * ((2 * n + 1) * eta)) as int;
    let dq = q / t;
    let rho = q % t;
    vstd::arithmetic::div_mod::lemma_fundamental_div_mod(q, t);
    assert(fb * t == 2 * (2 * n + 1) * eta * t) by (nonlinear_arith)
        requires
            fb == 2 * ((2 * n + 1) * eta),
    ;
    assert(2 * (fb + 2 * t) <= dq) by (nonlinear_arith)
        requires
            2 * (fb * t + 2 * t * t) < q,
            q == t * dq + rho,
            0 <= rho < t,
            t > 0,
    ;
    assert(ph.len() == n);
    assert forall|k: int| 0 <= k < dists.len() implies -bound <= #[trigger] dists[k] <= bound by {
        lemma_fresh_phase(params, a, s, e, plain1, u1, e11, e21, k);
        lemma_fresh_phase(params, a, s, e, plain2, u2, e12, e22, k);
        let v1 = rlwe_noise(e, s, u1, e11, e21, ni, k);
        let v2 = rlwe_noise(e, s, u2, e12, e22, ni, k);
        let p1 = phase(seq![c0, c1], s, q)[k];
        let p2 = phase(seq![d0, d1], s, q)[k];
        crate::poly_laws::lemma_phase_add(c0, c1, d0, d1, s, q, n, k);
        crate::poly_laws::lemma_cong_add(p1, p2, m1[k] * delta + v1, m2[k] * delta + v2, q);
        let m = m1[k] + m2[k];
        let v = v1 + v2;
        assert(m1[k] * delta + v1 + (m2[k] * delta + v2) == m * delta + v) by (nonlinear_arith)
            requires
                m == m1[k] + m2[k],
                v == v1 + v2,
        ;
        if k < plain1.len() {
            assert(plain1[k] < t);
        }
        if k < plain2.len() {
            assert(plain2[k] < t);
        }
        let y = padd(c0, d0, q)[k] + pmul(padd(c1, d1, q), s, q)[k];
        assert(ph[k] == centre_value(y, q));
        util::lemma_trem(y, q);
        assert(-(q - q / 2) < ph[k] <= q - q / 2);
        assert(tdiv(q, t) == dq);
        lemma_phase_distance(ph[k], q, t, m, v, 2, fb);
    }
    lemma_max_abs_le(dists, bound);
}

/// Homomorphic addition decrypts to the sum. Adding (coefficient-wise, as
/// `add` does) two fresh encryptions of `plain1` and `plain2` under one key
/// gives a ciphertext whose coefficients decrypt to `(m1 + m2) mod t`,
/// provided every plaintext coefficient is below `t`, `t` fits a `u64`, and
/// the doubled noise margin `2·(2·(2n + 1)·eta·t + 2t²) < q` holds.
pub proof fn lemma_decrypt_add(
    params: (nat, int, int, nat),
    a: Seq<int>,
    s: Seq<int>,
    e: Seq<int>,
    plain1: Seq<u64>,
    u1: Seq<int>,
    e11: Seq<int>,
    e21: Seq<int>,
    plain2: Seq<u64>,
    u2: Seq<int>,
    e12: Seq<int>,
    e22: Seq<int>,
)
    requires
        honest_parts(params, a, s, e, u1, e11, e21),
        honest_parts(params, a, s, e, u2, e12, e22),
        params.2 <= u64::MAX,
        forall|i: int| 0 <= i < plain1.len() ==> (#[trigger] plain1[i]) < params.2,
        forall|i: int| 0 <= i < plain2.len() ==> (#[trigger] plain2[i]) < params.2,
        2 * (2 * (2 * params.0 + 1) * params.3 * params.2 + 2 * params.2 * params.2) < params.1,
    ensures
        ({
            let (n, q, t, eta) = params;
            let b = pneg(padd(pmul(a, s, q), e, q), q);
            let (c0, c1) = encrypt_parts((b, a, params), plain1, u1, e11, e21);
            let (d0, d1) = encrypt_parts((b, a, params), plain2, u2, e12, e22);
            let ph = phase(seq![padd(c0, d0, q), padd(c1, d1, q)], s, q);
            forall|k: int|
                0 <= k < n ==> decrypt_coeff(#[trigger] ph[k], t, q) == (padded_plain(plain1, n)[k]
                    + padded_plain(plain2, n)[k]) % t
        }),
{
    let (n, q, t, eta) = params;
    let ni = n as int;
    let b = pneg(padd(pmul(a, s, q), e, q), q);
    let (c0, c1) = encrypt_parts((b, a, params), plain1, u1, e11, e21);
    let (d0, d1) = encrypt_parts((b, a, params), plain2, u2, e12, e22);
    let s0 = padd(c0, d0, q);
    let s1 = padd(c1, d1, q);
    let phs = phase(seq![s0, s1], s, q);
    let m1 = padded_plain(plain1, n);
    let m2 = padded_plain(plain2, n);
    let delta = tdiv(q, t);
    assert forall|k: int| 0 <= k < n implies decrypt_coeff(#[trigger] phs[k], t, q) == (m1[k] + m2[k]) % t by {
        lemma_fresh_phase(params, a, s, e, plain1, u1, e11, e21, k);
        lemma_fresh_phase(params, a, s, e, plain2, u2, e12, e22, k);
        let v1 = rlwe_noise(e, s, u1, e11, e21, ni, k);
        let v2 = rlwe_noise(e, s, u2, e12, e22, ni, k);
        let p1 = phase(seq![c0, c1], s, q)[k];
        let p2 = phase(seq![d0, d1], s, q)[k];
        // the sum's phase is the sum of the phases
        crate::poly_laws::lemma_phase_add(c0, c1, d0, d1, s, q, n, k);
        crate::poly_laws::lemma_cong_add(p1, p2, m1[k] * delta + v1, m2[k] * delta + v2, q);
        let m = m1[k] + m2[k];
        let v = v1 + v2;
        assert(m1[k] * delta + v1 + (m2[k] * delta + v2) == m * delta + v) by (nonlinear_arith)
            requires
                m == m1[k] + m2[k],
                v == v1 + v2,
        ;
        let bound: int = (2 * ((2 * n + 1) * eta)) as int;
        if k < plain1.len() {
            assert(plain1[k] < t);
        }
        if k < plain2.len() {
            assert(plain2[k] < t);
        }
        assert(t * m <= 2 * (t * t)) by (nonlinear_arith)
            requires
                0 <= m1[k] < t,
                0 <= m2[k] < t,
                m == m1[k] + m2[k],
        ;
        assert(bound * t == 2 * (2 * n + 1) * eta * t) by (nonlinear_arith)
            requires
                bound == 2 * ((2 * n + 1) * eta),
        ;
        assert(2 * (t * t) == 2 * t * t) by (nonlinear_arith);
        assert(2 * (bound * t + t * m) < q);
        vstd::arithmetic::div_mod::lemma_mod_bound(m, t);
        lemma_round_recovers(phs[k], m, v, q, t, bound, m);
    }
}


/// The phase of a three-part ciphertext of rescaled components is, modulo
/// `q`, `ρ0 + ρ1·s + ρ2·s²` for the rounded values `ρi` before centring.
proof fn lemma_phase3(dd0: Seq<int>, dd1: Seq<int>, dd2: Seq<int>, s: Seq<int>, t: int, q: int, n: nat, k: int)
    requires
        q > 0,
        dd0.len() == n && dd1.len() == n && dd2.len() == n && s.len() == n,
        0 <= k < n,
    ensures
        ({
            let ni = n as int;
            let (r0, r1, r2) = (rounded_values(dd0, t, q), rounded_values(dd1, t, q), rounded_values(dd2, t, q));
            phase(seq![rescale_values(dd0, t, q), rescale_values(dd1, t, q), rescale_values(dd2, t, q)], s, q)[k]
                % q == (r0[k] + negacyclic(r1, s, ni)[k] + negacyclic(r2, negacyclic(s, s, ni), ni)[k]) % q
        }),
{
    let ni = n as int;
    let (r0, r1, r2) = (rounded_values(dd0, t, q), rounded_values(dd1, t, q), rounded_values(dd2, t, q));
    let (p0, p1, p2) = (rescale_values(dd0, t, q), rescale_values(dd1, t, q), rescale_values(dd2, t, q));
    let s2 = negacyclic(s, s, ni);
    let s2c = pmul(s, s, q);
    assert forall|j: int| 0 <= j < ni implies #[trigger] p1[j] % q == (1 * r1[j] + 0 * r1[j]) % q by {
        ring::lemma_centre_value(r1[j], q);
    }
    assert forall|j: int| 0 <= j < ni implies #[trigger] p2[j] % q == (1 * r2[j] + 0 * r2[j]) % q by {
        ring::lemma_centre_value(r2[j], q);
    }
    assert forall|j: int| 0 <= j < ni implies #[trigger] s2c[j] % q == (1 * s2[j] + 0 * s2[j]) % q by {
        ring::lemma_centre_value(s2[j], q);
    }
    // ρ1 part
    crate::poly_laws::lemma_nc_linear_mod(p1, r1, r1, s, 1, 0, ni, q, k);
    let t1 = negacyclic(p1, s, ni)[k];
    ring::lemma_centre_value(t1, q);
    // ρ2 part: p2·s2c ≡ r2·s2c = s2c·r2 ≡ s2·r2 = r2·s2
    crate::poly_laws::lemma_nc_linear_mod(p2, r2, r2, s2c, 1, 0, ni, q, k);
    lemma_nc_comm(r2, s2c, n);
    crate::poly_laws::lemma_nc_linear_mod(s2c, s2, s2, r2, 1, 0, ni, q, k);
    lemma_nc_comm(s2, r2, n);
    let t2 = negacyclic(p2, s2c, ni)[k];
    ring::lemma_centre_value(t2, q);
    // assemble
    ring::lemma_centre_value(r0[k], q);
    let acc1 = padd(p0, pmul(p1, s, q), q);
    ring::lemma_centre_value(p0[k] + pmul(p1, s, q)[k], q);
    ring::lemma_centre_value(acc1[k] + pmul(p2, s2c, q)[k], q);
    crate::poly_laws::lemma_cong_add(p0[k], pmul(p1, s, q)[k], r0[k], negacyclic(r1, s, ni)[k], q);
    crate::poly_laws::lemma_cong_add(
        acc1[k],
        pmul(p2, s2c, q)[k],
        r0[k] + negacyclic(r1, s, ni)[k],
        negacyclic(r2, s2, ni)[k],
        q,
    );
}


/// The exact phase of a fresh encryption is `Δ·m + v + q·w` with the noise
/// `v` of [`lemma_fresh_phase`] and a wrap count `|w| ≤ n + 2`.
proof fn lemma_fresh_exact(
    params: (nat, int, int, nat),
    a: Seq<int>,
    s: Seq<int>,
    e: Seq<int>,
    plain: Seq<u64>,
    u: Seq<int>,
    e1: Seq<int>,
    e2: Seq<int>,
    k: int,
)
    requires
        honest_parts(params, a, s, e, u, e1, e2),
        0 <= k < params.0,
        forall|i: int| 0 <= i < plain.len() ==> (#[trigger] plain[i]) < params.2,
        params.1 >= 2 * (params.0 + 1 + (2 * params.0 + 1) * params.3),
    ensures
        ({
            let (n, q, t, eta) = params;
            let b = pneg(padd(pmul(a, s, q), e, q), q);
            let (c0, c1) = encrypt_parts((b, a, params), plain, u, e1, e2);
            let ph = exact_phase(c0, c1, s, n)[k];
            let x = padded_plain(plain, n)[k] * tdiv(q, t) + rlwe_noise(e, s, u, e1, e2, n as int, k);
            let w = (ph - x) / q;
            &&& ph == x + q * w
            &&& -(n + 2) <= w <= n + 2
        }),
{
    let (n, q, t, eta) = params;
    let ni = n as int;
    let b = pneg(padd(pmul(a, s, q), e, q), q);
    let (c0, c1) = encrypt_parts((b, a, params), plain, u, e1, e2);
    let ph = exact_phase(c0, c1, s, n)[k];
    let m = padded_plain(plain, n);
    let delta = tdiv(q, t);
    let v = rlwe_noise(e, s, u, e1, e2, ni, k);
    let x = m[k] * delta + v;
    lemma_fresh_phase(params, a, s, e, plain, u, e1, e2, k);
    // the centred phase is congruent to the exact one
    let ncs = negacyclic(c1, s, ni)[k];
    ring::lemma_centre_value(ncs, q);
    ring::lemma_centre_value(c0[k] + pmul(c1, s, q)[k], q);
    crate::poly_laws::lemma_cong_add(c0[k], pmul(c1, s, q)[k], c0[k], ncs, q);
    vstd::arithmetic::div_mod::lemma_mod_equivalence(ph, x, q);
    vstd::arithmetic::div_mod::lemma_fundamental_div_mod(ph - x, q);
    let w = (ph - x) / q;
    // sizes: |c0|, |c1| ≤ q/2 + 1, |c1·s| ≤ n·(q/2 + 1), 0 ≤ m·Δ ≤ q, |v| ≤ (2n + 1)·eta
    let hb = q / 2 + 1;
    assert forall|j: int| 0 <= j < ni implies -hb <= #[trigger] c1[j] <= hb by {
        ring::lemma_centre_value(pmul(a, u, q)[j] + e2[j], q);
    }
    assert forall|j: int| 0 <= j < ni implies -1 <= #[trigger] s[j] <= 1 by {}
    crate::poly_laws::lemma_nc_bound(c1, s, ni, hb, 1, k);
    ring::lemma_centre_value(padd(pmul(b, u, q), e1, q)[k] + pscalar(m, delta, q)[k], q);
    vstd::arithmetic::div_mod::lemma_fundamental_div_mod(q, t);
    if k < plain.len() {
        assert(plain[k] < t);
    }
    assert(0 <= m[k] * delta <= q) by (nonlinear_arith)
        requires
            0 <= m[k] < t,
            delta == q / t,
            q == t * (q / t) + q % t,
            q % t >= 0,
            t > 0,
            q > 0,
    ;
    let bb = (2 * n + 1) * eta;
    let d = ph - x;
    assert(-(ni * (hb * 1)) - hb - q - bb <= d <= ni * (hb * 1) + hb + q + bb);
    assert(-(q * (ni + 3)) < d < q * (ni + 3)) by (nonlinear_arith)
        requires
            -(ni * (hb * 1)) - hb - q - bb <= d <= ni * (hb * 1) + hb + q + bb,
            hb == q / 2 + 1,
            2 * (q / 2) <= q,
            q >= 2 * (ni + 1 + bb),
            ni >= 1,
            bb >= 0,
    ;
    assert(-(ni + 2) <= w <= ni + 2) by (nonlinear_arith)
        requires
            d == q * w,
            -(q * (ni + 3)) < d < q * (ni + 3),
            q > 0,
    ;
}


/// The scalar bookkeeping behind multiplication: if `q·rp = t·Φ + E` with
/// `Φ = Δ(ΔM + X1) + (ΔX2 + Y) + q(ΔG2 + H2) + q((ΔG1 + H1) + qT)` and
/// `tΔ + ρ = q`, then `rp ≡ Δ·M + V (mod q)` for a `V` bounded by the sizes
/// of the pieces.
proof fn lemma_mul_algebra(
    q: int,
    t: int,
    delta: int,
    rho: int,
    m: int,
    x1: int,
    x2: int,
    y: int,
    g1: int,
    g2: int,
    h1: int,
    h2: int,
    tt: int,
    phi: int,
    err: int,
    rp: int,
    mb: int,
    xb: int,
    yb: int,
    gb: int,
    hb: int,
    eb: int,
)
    requires
        q > 0,
        t > 0,
        delta >= 0,
        t * delta + rho == q,
        0 <= rho < t,
        phi == delta * (delta * m + x1) + (delta * x2 + y) + q * (delta * g2 + h2) + q * ((delta * g1 + h1)
            + q * tt),
        q * rp == t * phi + err,
        -mb <= m <= mb,
        -xb <= x1 <= xb,
        -xb <= x2 <= xb,
        -yb <= y <= yb,
        -gb <= g1 <= gb,
        -gb <= g2 <= gb,
        -hb <= h1 <= hb,
        -hb <= h2 <= hb,
        -(q * eb) <= err <= q * eb,
        q >= t * (2 * xb) + t * yb,
    ensures
        ({
            let v = rp - m * delta - q * (g1 + g2 + t * tt);
            &&& rp % q == (m * delta + v) % q
            &&& -(2 * xb + t * (2 * gb) + t * (2 * hb) + mb + 1 + eb) <= v <= 2 * xb + t * (2 * gb) + t * (2
                * hb) + mb + 1 + eb
        }),
{
    let big_x = delta * m + x1 + x2 + (q - rho) * (g1 + g2) + t * (h1 + h2) + q * t * tt;
    let z = -(rho * delta * m) - rho * (x1 + x2) + t * y + err;
    let dm = delta * m;
    let (a1, a2, a3, a4) = (q * dm, rho * dm, q * x1, rho * x1);
    let (a5, a6, a7) = (q * x2, rho * x2, t * y);
    let (a8, a9, a10) = (q * (q * g2), q * (rho * g2), q * (t * h2));
    let (a11, a12, a13, a14) = (q * (q * g1), q * (rho * g1), q * (t * h1), q * (q * (t * tt)));
    let p1 = t * (delta * (delta * m + x1));
    let p2 = t * (delta * x2 + y);
    let p3 = t * (q * (delta * g2 + h2));
    let p4 = t * (q * ((delta * g1 + h1) + q * tt));
    assert(t * phi == p1 + p2 + p3 + p4) by (nonlinear_arith)
        requires
            phi == delta * (delta * m + x1) + (delta * x2 + y) + q * (delta * g2 + h2) + q * ((delta * g1
                + h1) + q * tt),
            p1 == t * (delta * (delta * m + x1)),
            p2 == t * (delta * x2 + y),
            p3 == t * (q * (delta * g2 + h2)),
            p4 == t * (q * ((delta * g1 + h1) + q * tt)),
    ;
    assert(p1 == a1 - a2 + a3 - a4) by (nonlinear_arith)
        requires
            p1 == t * (delta * (delta * m + x1)),
            t * delta == q - rho,
            dm == delta * m,
            a1 == q * dm,
            a2 == rho * dm,
            a3 == q * x1,
            a4 == rho * x1,
    ;
    assert(p2 == a5 - a6 + a7) by (nonlinear_arith)
        requires
            p2 == t * (delta * x2 + y),
            t * delta == q - rho,
            a5 == q * x2,
            a6 == rho * x2,
            a7 == t * y,
    ;
    // p3 = q·(t·(Δ·g2 + h2)) = q·((q - ρ)·g2 + t·h2)
    let y3 = t * (delta * g2 + h2);
    assert(p3 == q * y3) by (nonlinear_arith)
        requires
            p3 == t * (q * (delta * g2 + h2)),
            y3 == t * (delta * g2 + h2),
    ;
    assert(y3 == (q - rho) * g2 + t * h2) by (nonlinear_arith)
        requires
            y3 == t * (delta * g2 + h2),
            t * delta == q - rho,
    ;
    assert(q * y3 == q * (q * g2) - q * (rho * g2) + q * (t * h2)) by (nonlinear_arith)
        requires
            y3 == (q - rho) * g2 + t * h2,
    ;
    // p4 = q·(t·((Δ·g1 + h1) + q·T)) = q·((q - ρ)·g1 + t·h1 + q·(t·T))
    let y4 = t * ((delta * g1 + h1) + q * tt);
    assert(p4 == q * y4) by (nonlinear_arith)
        requires
            p4 == t * (q * ((delta * g1 + h1) + q * tt)),
            y4 == t * ((delta * g1 + h1) + q * tt),
    ;
    assert(y4 == (q - rho) * g1 + t * h1 + q * (t * tt)) by (nonlinear_arith)
        requires
            y4 == t * ((delta * g1 + h1) + q * tt),
            t * delta == q - rho,
    ;
    assert(q * y4 == q * (q * g1) - q * (rho * g1) + q * (t * h1) + q * (q * (t * tt))) by (nonlinear_arith)
        requires
            y4 == (q - rho) * g1 + t * h1 + q * (t * tt),
    ;
    let gg = (q - rho) * (g1 + g2);
    let hh = t * (h1 + h2);
    let qt = q * t * tt;
    assert(gg == q * g1 + q * g2 - rho * g1 - rho * g2) by (nonlinear_arith)
        requires
            gg == (q - rho) * (g1 + g2),
    ;
    assert(q * big_x == q * dm + q * x1 + q * x2 + q * gg + q * hh + q * qt) by (nonlinear_arith)
        requires
            big_x == dm + x1 + x2 + gg + hh + qt,
    ;
    assert(q * gg == q * (q * g1) + q * (q * g2) - q * (rho * g1) - q * (rho * g2)) by (nonlinear_arith)
        requires
            gg == q * g1 + q * g2 - rho * g1 - rho * g2,
    ;
    assert(q * hh == q * (t * h1) + q * (t * h2)) by (nonlinear_arith)
        requires
            hh == t * (h1 + h2),
    ;
    assert(q * qt == q * (q * (t * tt))) by (nonlinear_arith)
        requires
            qt == q * t * tt,
    ;
    assert(z == -a2 - a4 - a6 + a7 + err) by (nonlinear_arith)
        requires
            z == -(rho * delta * m) - rho * (x1 + x2) + t * y + err,
            dm == delta * m,
            a2 == rho * dm,
            a4 == rho * x1,
            a6 == rho * x2,
            a7 == t * y,
    ;
    assert(t * phi + err == q * big_x + z);
    let w = rp - big_x;
    assert(z == q * w) by (nonlinear_arith)
        requires
            q * rp == t * phi + err,
            t * phi + err == q * big_x + z,
            w == rp - big_x,
    ;
    // |z| ≤ q·(mb + 1 + eb)
    assert(0 <= rho * delta <= q) by (nonlinear_arith)
        requires
            t * delta + rho == q,
            0 <= rho < t,
            delta >= 0,
    ;
    assert(-(q * mb) <= rho * delta * m <= q * mb) by (nonlinear_arith)
        requires
            0 <= rho * delta <= q,
            -mb <= m <= mb,
    ;
    assert(-(t * (2 * xb)) <= rho * (x1 + x2) <= t * (2 * xb)) by (nonlinear_arith)
        requires
            0 <= rho < t,
            -xb <= x1 <= xb,
            -xb <= x2 <= xb,
    ;
    assert(-(t * yb) <= t * y <= t * yb) by (nonlinear_arith)
        requires
            t > 0,
            -yb <= y <= yb,
    ;
    assert(-(q * (mb + 1 + eb)) <= z <= q * (mb + 1 + eb)) by (nonlinear_arith)
        requires
            z == -(rho * delta * m) - rho * (x1 + x2) + t * y + err,
            -(q * mb) <= rho * delta * m <= q * mb,
            -(t * (2 * xb)) <= rho * (x1 + x2) <= t * (2 * xb),
            -(t * yb) <= t * y <= t * yb,
            -(q * eb) <= err <= q * eb,
            q >= t * (2 * xb) + t * yb,
    ;
    assert(-(mb + 1 + eb) <= w <= mb + 1 + eb) by (nonlinear_arith)
        requires
            z == q * w,
            -(q * (mb + 1 + eb)) <= z <= q * (mb + 1 + eb),
            q > 0,
    ;
    // v = x1 + x2 - ρ·(g1 + g2) + t·(h1 + h2) + w
    let v = rp - m * delta - q * (g1 + g2 + t * tt);
    assert(v == x1 + x2 - rho * (g1 + g2) + t * (h1 + h2) + w) by (nonlinear_arith)
        requires
            v == rp - m * delta - q * (g1 + g2 + t * tt),
            w == rp - big_x,
            big_x == delta * m + x1 + x2 + (q - rho) * (g1 + g2) + t * (h1 + h2) + q * t * tt,
    ;
    assert(-(t * (2 * gb)) <= rho * (g1 + g2) <= t * (2 * gb)) by (nonlinear_arith)
        requires
            0 <= rho < t,
            -gb <= g1 <= gb,
            -gb <= g2 <= gb,
    ;
    assert(-(t * (2 * hb)) <= t * (h1 + h2) <= t * (2 * hb)) by (nonlinear_arith)
        requires
            t > 0,
            -hb <= h1 <= hb,
            -hb <= h2 <= hb,
    ;
    // rp = m·Δ + v + q·(g1 + g2 + t·T)
    vstd::arithmetic::div_mod::lemma_mod_multiples_vanish(g1 + g2 + t * tt, m * delta + v, q);
    assert(q * (g1 + g2 + t * tt) + (m * delta + v) == rp);
}


/// The noise a product of two fresh encryptions carries (see [`lemma_decrypt_mul`]).
pub open spec fn mul_noise_bound(n: int, t: int, eta: int) -> int {
    let b = (2 * n + 1) * eta;
    let w = n + 2;
    2 * (n * (t * b)) + t * (2 * (n * (t * w))) + t * (2 * (n * (b * w))) + n * (t * t) + 1 + (1 + n + n * n)
}

/// The margins under which a product of two fresh encryptions decrypts to
/// the product of the plaintexts.
pub open spec fn mul_margin_ok(n: int, q: int, t: int, eta: int) -> bool {
    let b = (2 * n + 1) * eta;
    &&& 2 * (mul_noise_bound(n, t, eta) * t + t * (n * (t * t))) < q
    &&& q >= t * (2 * (n * (t * b))) + t * (n * (b * b))
    &&& q >= 2 * (n + 1 + b)
}

/// Homomorphic multiplication decrypts to the product. Multiplying (as
/// `mul` does: tensor product, rescaled by `t/q`) two fresh encryptions of
/// `plain1` and `plain2` under one key gives a three-part ciphertext whose
/// coefficients decrypt, under `(1, s, s²)`, to the coefficients of the
/// negacyclic product of the plaintexts modulo `t`, provided every plaintext
/// coefficient is below `t`, `t` fits a `u64`, and [`mul_margin_ok`] holds.
pub proof fn lemma_decrypt_mul(
    params: (nat, int, int, nat),
    a: Seq<int>,
    s: Seq<int>,
    e: Seq<int>,
    plain1: Seq<u64>,
    u1: Seq<int>,
    e11: Seq<int>,
    e21: Seq<int>,
    plain2: Seq<u64>,
    u2: Seq<int>,
    e12: Seq<int>,
    e22: Seq<int>,
)
    requires
        honest_parts(params, a, s, e, u1, e11, e21),
        honest_parts(params, a, s, e, u2, e12, e22),
        params.2 <= u64::MAX,
        forall|i: int| 0 <= i < plain1.len() ==> (#[trigger] plain1[i]) < params.2,
        forall|i: int| 0 <= i < plain2.len() ==> (#[trigger] plain2[i]) < params.2,
        mul_margin_ok(params.0 as int, params.1, params.2, params.3 as int),
    ensures
        ({
            let (n, q, t, eta) = params;
            let ni = n as int;
            let b = pneg(padd(pmul(a, s, q), e, q), q);
            let (c0, c1) = encrypt_parts((b, a, params), plain1, u1, e11, e21);
            let (d0, d1) = encrypt_parts((b, a, params), plain2, u2, e12, e22);
            let r0 = rescale_values(negacyclic(c0, d0, ni), t, q);
            let r1 = rescale_values(tensor_mid(c0, c1, d0, d1, n), t, q);
            let r2 = rescale_values(negacyclic(c1, d1, ni), t, q);
            let ph = phase(seq![r0, r1, r2], s, q);
            let prod = negacyclic(padded_plain(plain1, n), padded_plain(plain2, n), ni);
            forall|k: int| 0 <= k < n ==> decrypt_coeff(#[trigger] ph[k], t, q) == prod[k] % t
        }),
{
    let (n, q, t, eta) = params;
    let ni = n as int;
    let eti = eta as int;
    let bb = (2 * ni + 1) * eti;
    let wb = ni + 2;
    let b = pneg(padd(pmul(a, s, q), e, q), q);
    let (c0, c1) = encrypt_parts((b, a, params), plain1, u1, e11, e21);
    let (d0, d1) = encrypt_parts((b, a, params), plain2, u2, e12, e22);
    let dd0 = negacyclic(c0, d0, ni);
    let dd1 = tensor_mid(c0, c1, d0, d1, n);
    let dd2 = negacyclic(c1, d1, ni);
    let ph = phase(seq![rescale_values(dd0, t, q), rescale_values(dd1, t, q), rescale_values(dd2, t, q)], s, q);
    let m1 = padded_plain(plain1, n);
    let m2 = padded_plain(plain2, n);
    let prod = negacyclic(m1, m2, ni);
    let delta = tdiv(q, t);
    vstd::arithmetic::div_mod::lemma_fundamental_div_mod(q, t);
    let rho = q % t;
    // the exact phases, split as Δ·m + v + q·w
    let pc = exact_phase(c0, c1, s, n);
    let pd = exact_phase(d0, d1, s, n);
    let v1 = Seq::new(n, |j: int| rlwe_noise(e, s, u1, e11, e21, ni, j));
    let v2 = Seq::new(n, |j: int| rlwe_noise(e, s, u2, e12, e22, ni, j));
    let am = Seq::new(n, |j: int| m1[j] * delta + v1[j]);
    let bm = Seq::new(n, |j: int| m2[j] * delta + v2[j]);
    let wc = Seq::new(n, |j: int| (pc[j] - am[j]) / q);
    let wd = Seq::new(n, |j: int| (pd[j] - bm[j]) / q);
    assert forall|j: int| 0 <= j < ni implies {
        &&& #[trigger] pc[j] == 1 * am[j] + q * wc[j]
        &&& -wb <= wc[j] <= wb
        &&& -bb <= v1[j] <= bb
        &&& 0 <= m1[j] < t
    } by {
        lemma_fresh_exact(params, a, s, e, plain1, u1, e11, e21, j);
        lemma_fresh_phase(params, a, s, e, plain1, u1, e11, e21, j);
        if j < plain1.len() {
            assert(plain1[j] < t);
        }
    }
    assert forall|j: int| 0 <= j < ni implies {
        &&& #[trigger] pd[j] == 1 * bm[j] + q * wd[j]
        &&& -wb <= wd[j] <= wb
        &&& -bb <= v2[j] <= bb
        &&& 0 <= m2[j] < t
    } by {
        lemma_fresh_exact(params, a, s, e, plain2, u2, e12, e22, j);
        lemma_fresh_phase(params, a, s, e, plain2, u2, e12, e22, j);
        if j < plain2.len() {
            assert(plain2[j] < t);
        }
    }
    assert forall|j: int| 0 <= j < ni implies #[trigger] am[j] == delta * m1[j] + 1 * v1[j] by {
        assert(m1[j] * delta == delta * m1[j]) by (nonlinear_arith);
    }
    assert forall|j: int| 0 <= j < ni implies #[trigger] bm[j] == delta * m2[j] + 1 * v2[j] by {
        assert(m2[j] * delta == delta * m2[j]) by (nonlinear_arith);
    }
    // bounds of the pieces, coefficient-wise
    assert forall|j: int| 0 <= j < ni implies -t <= #[trigger] m1[j] <= t by {
        assert(0 <= m1[j] < t);
    }
    assert forall|j: int| 0 <= j < ni implies -t <= #[trigger] m2[j] <= t by {
        assert(0 <= m2[j] < t);
    }
    assert forall|j: int| 0 <= j < ni implies -bb <= #[trigger] v1[j] <= bb by {
        assert(pc[j] == 1 * am[j] + q * wc[j]);
    }
    assert forall|j: int| 0 <= j < ni implies -bb <= #[trigger] v2[j] <= bb by {
        assert(pd[j] == 1 * bm[j] + q * wd[j]);
    }
    assert forall|j: int| 0 <= j < ni implies -wb <= #[trigger] wc[j] <= wb by {
        assert(-wb <= wc[j] <= wb);
    }
    assert forall|j: int| 0 <= j < ni implies -wb <= #[trigger] wd[j] <= wb by {
        assert(-wb <= wd[j] <= wb);
    }
    assert(bb >= 0) by (nonlinear_arith)
        requires
            bb == (2 * ni + 1) * eti,
            ni >= 0,
            eti >= 0,
    ;
    assert forall|k: int| 0 <= k < ni implies decrypt_coeff(#[trigger] ph[k], t, q) == prod[k] % t by {
        // ph ≡ ρ-phase;  q·ρ-phase = t·(tensor phase) + E;  tensor phase = pc·pd
        lemma_phase3(dd0, dd1, dd2, s, t, q, n, k);
        lemma_rescale_error(dd0, dd1, dd2, s, t, q, n, k);
        lemma_tensor_phase(c0, c1, d0, d1, s, n, k);
        let s2 = negacyclic(s, s, ni);
        let (r0, r1, r2) = (rounded_values(dd0, t, q), rounded_values(dd1, t, q), rounded_values(dd2, t, q));
        let rp = r0[k] + negacyclic(r1, s, ni)[k] + negacyclic(r2, s2, ni)[k];
        let phi = negacyclic(pc, pd, ni)[k];
        let err = q * rp - t * phi;
        // expand pc·pd
        lemma_nc_linear(pc, am, wc, pd, 1, q, ni, k);
        lemma_nc_comm(am, pd, n);
        lemma_nc_linear(pd, bm, wd, am, 1, q, ni, k);
        lemma_nc_comm(bm, am, n);
        lemma_nc_comm(wd, am, n);
        lemma_nc_comm(wc, pd, n);
        lemma_nc_linear(pd, bm, wd, wc, 1, q, ni, k);
        lemma_nc_comm(bm, wc, n);
        lemma_nc_comm(wd, wc, n);
        // am·bm = Δ·(m1·bm) + v1·bm;  am·wd = Δ·(m1·wd) + v1·wd
        lemma_nc_linear(am, m1, v1, bm, delta, 1, ni, k);
        lemma_nc_linear(am, m1, v1, wd, delta, 1, ni, k);
        // m1·bm = bm·m1 = Δ·(m2·m1) + v2·m1;  v1·bm = bm·v1 = Δ·(m2·v1) + v2·v1
        lemma_nc_comm(m1, bm, n);
        lemma_nc_linear(bm, m2, v2, m1, delta, 1, ni, k);
        lemma_nc_comm(v1, bm, n);
        lemma_nc_linear(bm, m2, v2, v1, delta, 1, ni, k);
        lemma_nc_comm(m2, m1, n);
        // wc·bm = bm·wc = Δ·(m2·wc) + v2·wc
        lemma_nc_linear(bm, m2, v2, wc, delta, 1, ni, k);
        let mm = prod[k];
        let x1 = negacyclic(v2, m1, ni)[k];
        let x2 = negacyclic(m2, v1, ni)[k];
        let y = negacyclic(v2, v1, ni)[k];
        let g1 = negacyclic(m2, wc, ni)[k];
        let h1 = negacyclic(v2, wc, ni)[k];
        let g2 = negacyclic(m1, wd, ni)[k];
        let h2 = negacyclic(v1, wd, ni)[k];
        let tt = negacyclic(wc, wd, ni)[k];
        assert(phi == delta * (delta * mm + x1) + (delta * x2 + y) + q * (delta * g2 + h2) + q * ((delta * g1
            + h1) + q * tt));
        // sizes
        crate::poly_laws::lemma_nc_bound(m1, m2, ni, t, t, k);
        crate::poly_laws::lemma_nc_bound(v2, m1, ni, bb, t, k);
        crate::poly_laws::lemma_nc_bound(m2, v1, ni, t, bb, k);
        crate::poly_laws::lemma_nc_bound(v2, v1, ni, bb, bb, k);
        crate::poly_laws::lemma_nc_bound(m2, wc, ni, t, wb, k);
        crate::poly_laws::lemma_nc_bound(m1, wd, ni, t, wb, k);
        crate::poly_laws::lemma_nc_bound(v2, wc, ni, bb, wb, k);
        crate::poly_laws::lemma_nc_bound(v1, wd, ni, bb, wb, k);
        assert(bb * t == t * bb && bb * wb == wb * bb && t * wb == wb * t) by (nonlinear_arith);
        let mb = ni * (t * t);
        let xb = ni * (t * bb);
        let yb = ni * (bb * bb);
        let gb = ni * (t * wb);
        let hb = ni * (bb * wb);
        let eb = 1 + ni + ni * ni;
        lemma_mul_algebra(q, t, delta, rho, mm, x1, x2, y, g1, g2, h1, h2, tt, phi, err, rp, mb, xb, yb, gb, hb, eb);
        let v = rp - mm * delta - q * (g1 + g2 + t * tt);
        assert(mul_noise_bound(ni, t, eti) == 2 * xb + t * (2 * gb) + t * (2 * hb) + mb + 1 + eb);
        vstd::arithmetic::div_mod::lemma_mod_bound(mm, t);
        crate::poly_laws::lemma_cong_add(ph[k], 0, rp, 0, q);
        lemma_round_recovers(ph[k], mm, v, q, t, mul_noise_bound(ni, t, eti), mb);
    }
}

/// The noise a product of two ciphertexts with noise at most `b` carries
/// (see [`lemma_decrypt_mul_noisy`]).
pub open spec fn mul_noise_bound_b(n: int, t: int, b: int) -> int {
    let w = n + 2;
    2 * (n * (t * b)) + t * (2 * (n * (t * w))) + t * (2 * (n * (b * w))) + n * (t * t) + 1 + (1 + n + n * n)
}

/// The margins under which a product of two ciphertexts with noise at most
/// `b` decrypts to the product of the plaintexts.
pub open spec fn mul_margin_ok_b(n: int, q: int, t: int, b: int) -> bool {
    &&& 2 * (mul_noise_bound_b(n, t, b) * t + t * (n * (t * t))) < q
    &&& q >= t * (2 * (n * (t * b))) + t * (n * (b * b))
    &&& q >= 2 * (n + 1 + b)
}

/// A centred component: `n` coefficients, each in `[-(q/2 + 1), q/2 + 1]`.
pub open spec fn centred_poly(c: Seq<int>, n: nat, q: int) -> bool {
    c.len() == n && forall|j: int| 0 <= j < n ==> -(q / 2 + 1) <= #[trigger] c[j] <= q / 2 + 1
}

/// The exact phase `c0 + c1·s` of a two-part ciphertext with centred
/// components, whose phase is `Δ·m + v` modulo `q`, is `Δ·m + v + q·w` with
/// a wrap count `|w| ≤ n + 2`.
proof fn lemma_exact_split(
    q: int,
    t: int,
    s: Seq<int>,
    c0: Seq<int>,
    c1: Seq<int>,
    n: nat,
    m: int,
    v: int,
    bound: int,
    k: int,
)
    requires
        q > 0,
        t > 0,
        n >= 1,
        0 <= k < n,
        s.len() == n,
        is_ternary(s),
        centred_poly(c0, n, q),
        centred_poly(c1, n, q),
        0 <= m < t,
        -bound <= v <= bound,
        q >= 2 * (n + 1 + bound),
        phase(seq![c0, c1], s, q)[k] % q == (m * tdiv(q, t) + v) % q,
    ensures
        ({
            let x = m * tdiv(q, t) + v;
            let w = (exact_phase(c0, c1, s, n)[k] - x) / q;
            &&& exact_phase(c0, c1, s, n)[k] == x + q * w
            &&& -(n + 2) <= w <= n + 2
        }),
{
    let ni = n as int;
    let ph = exact_phase(c0, c1, s, n)[k];
    let delta = tdiv(q, t);
    let x = m * delta + v;
    let ncs = negacyclic(c1, s, ni)[k];
    ring::lemma_centre_value(ncs, q);
    ring::lemma_centre_value(c0[k] + pmul(c1, s, q)[k], q);
    crate::poly_laws::lemma_cong_add(c0[k], pmul(c1, s, q)[k], c0[k], ncs, q);
    vstd::arithmetic::div_mod::lemma_mod_equivalence(ph, x, q);
    vstd::arithmetic::div_mod::lemma_fundamental_div_mod(ph - x, q);
    let w = (ph - x) / q;
    let hb = q / 2 + 1;
    assert forall|j: int| 0 <= j < ni implies -hb <= #[trigger] c1[j] <= hb by {}
    assert forall|j: int| 0 <= j < ni implies -1 <= #[trigger] s[j] <= 1 by {}
    crate::poly_laws::lemma_nc_bound(c1, s, ni, hb, 1, k);
    vstd::arithmetic::div_mod::lemma_fundamental_div_mod(q, t);
    assert(0 <= m * delta <= q) by (nonlinear_arith)
        requires
            0 <= m < t,
            delta == q / t,
            q == t * (q / t) + q % t,
            q % t >= 0,
            t > 0,
            q > 0,
    ;
    let d = ph - x;
    assert(-(ni * (hb * 1)) - hb - q - bound <= d <= ni * (hb * 1) + hb + q + bound);
    assert(-(q * (ni + 3)) < d < q * (ni + 3)) by (nonlinear_arith)
        requires
            -(ni * (hb * 1)) - hb - q - bound <= d <= ni * (hb * 1) + hb + q + bound,
            hb == q / 2 + 1,
            2 * (q / 2) <= q,
            q >= 2 * (ni + 1 + bound),
            ni >= 1,
            bound >= 0,
    ;
    assert(-(ni + 2) <= w <= ni + 2) by (nonlinear_arith)
        requires
            d == q * w,
            -(q * (ni + 3)) < d < q * (ni + 3),
            q > 0,
    ;
}

/// The components of a fresh encryption are centred.
pub proof fn lemma_fresh_centred(
    pk: (Seq<int>, Seq<int>, (nat, int, int, nat)),
    plain: Seq<u64>,
    u: Seq<int>,
    e1: Seq<int>,
    e2: Seq<int>,
)
    requires
        pk.2.1 > 0,
        pk.0.len() == pk.2.0,
        pk.1.len() == pk.2.0,
    ensures
        centred_poly(encrypt_parts(pk, plain, u, e1, e2).0, pk.2.0, pk.2.1),
        centred_poly(encrypt_parts(pk, plain, u, e1, e2).1, pk.2.0, pk.2.1),
{
    let (b, a, params) = pk;
    let (n, q, t, eta) = params;
    let (c0, c1) = encrypt_parts(pk, plain, u, e1, e2);
    let m = Seq::new(n, |i: int| if i < plain.len() { plain[i] as int } else { 0 });
    let x = padd(pmul(b, u, q), e1, q);
    let dm = pscalar(m, tdiv(q, t), q);
    let y = pmul(a, u, q);
    assert forall|j: int| 0 <= j < n implies -(q / 2 + 1) <= #[trigger] c0[j] <= q / 2 + 1 by {
        ring::lemma_centre_value(x[j] + dm[j], q);
    }
    assert forall|j: int| 0 <= j < n implies -(q / 2 + 1) <= #[trigger] c1[j] <= q / 2 + 1 by {
        ring::lemma_centre_value(y[j] + e2[j], q);
    }
}

/// Multiplying a sum of two fresh encryptions by a fresh encryption
/// decrypts to the product of the plaintexts: for plaintexts `m1`, `m2`,
/// `m3` whose coefficients satisfy `m1 + m2 < t` and `m3 < t`, the rescaled
/// tensor product of `(c + d)` and `f` decrypts, under `(1, s, s²)`, to
/// `(m1 + m2)·m3` (negacyclic) modulo `t`, provided [`mul_margin_ok_b`]
/// holds for twice the fresh noise bound.
pub proof fn lemma_decrypt_mul_of_sum(
    params: (nat, int, int, nat),
    a: Seq<int>,
    s: Seq<int>,
    e: Seq<int>,
    plain1: Seq<u64>,
    u1: Seq<int>,
    e11: Seq<int>,
    e21: Seq<int>,
    plain2: Seq<u64>,
    u2: Seq<int>,
    e12: Seq<int>,
    e22: Seq<int>,
    plain3: Seq<u64>,
    u3: Seq<int>,
    e13: Seq<int>,
    e23: Seq<int>,
)
    requires
        honest_parts(params, a, s, e, u1, e11, e21),
        honest_parts(params, a, s, e, u2, e12, e22),
        honest_parts(params, a, s, e, u3, e13, e23),
        params.0 >= 1,
        params.2 <= u64::MAX,
        forall|k: int|
            0 <= k < params.0 ==> #[trigger] padded_plain(plain1, params.0)[k] + padded_plain(plain2, params.0)[k]
                < params.2,
        forall|k: int| 0 <= k < params.0 ==> #[trigger] padded_plain(plain3, params.0)[k] < params.2,
        mul_margin_ok_b(params.0 as int, params.1, params.2, (2 * ((2 * params.0 + 1) * params.3)) as int),
    ensures
        ({
            let (n, q, t, eta) = params;
            let ni = n as int;
            let b = pneg(padd(pmul(a, s, q), e, q), q);
            let (c0, c1) = encrypt_parts((b, a, params), plain1, u1, e11, e21);
            let (d0, d1) = encrypt_parts((b, a, params), plain2, u2, e12, e22);
            let (f0, f1) = encrypt_parts((b, a, params), plain3, u3, e13, e23);
            let (s0, s1) = (padd(c0, d0, q), padd(c1, d1, q));
            let r0 = rescale_values(negacyclic(s0, f0, ni), t, q);
            let r1 = rescale_values(tensor_mid(s0, s1, f0, f1, n), t, q);
            let r2 = rescale_values(negacyclic(s1, f1, ni), t, q);
            let ph = phase(seq![r0, r1, r2], s, q);
            let msum = Seq::new(n, |k: int| padded_plain(plain1, n)[k] + padded_plain(plain2, n)[k]);
            let prod = negacyclic(msum, padded_plain(plain3, n), ni);
            forall|k: int| 0 <= k < n ==> decrypt_coeff(#[trigger] ph[k], t, q) == prod[k] % t
        }),
{
    let (n, q, t, eta) = params;
    let ni = n as int;
    let fb: int = ((2 * n + 1) * eta) as int;
    let bound: int = 2 * fb;
    let b = pneg(padd(pmul(a, s, q), e, q), q);
    let pk = (b, a, params);
    let (c0, c1) = encrypt_parts(pk, plain1, u1, e11, e21);
    let (d0, d1) = encrypt_parts(pk, plain2, u2, e12, e22);
    let (f0, f1) = encrypt_parts(pk, plain3, u3, e13, e23);
    let (s0, s1) = (padd(c0, d0, q), padd(c1, d1, q));
    assert(b.len() == n);
    lemma_fresh_centred(pk, plain1, u1, e11, e21);
    lemma_fresh_centred(pk, plain2, u2, e12, e22);
    lemma_fresh_centred(pk, plain3, u3, e13, e23);
    assert forall|j: int| 0 <= j < n implies -(q / 2 + 1) <= #[trigger] s0[j] <= q / 2 + 1 by {
        ring::lemma_centre_value(c0[j] + d0[j], q);
    }
    assert forall|j: int| 0 <= j < n implies -(q / 2 + 1) <= #[trigger] s1[j] <= q / 2 + 1 by {
        ring::lemma_centre_value(c1[j] + d1[j], q);
    }
    let (m1, m2, m3) = (padded_plain(plain1, n), padded_plain(plain2, n), padded_plain(plain3, n));
    let msum = Seq::new(n, |k: int| m1[k] + m2[k]);
    let vsum = Seq::new(n, |k: int| rlwe_noise(e, s, u1, e11, e21, ni, k) + rlwe_noise(e, s, u2, e12, e22, ni, k));
    let v3 = Seq::new(n, |k: int| rlwe_noise(e, s, u3, e13, e23, ni, k));
    let delta = tdiv(q, t);
    assert forall|j: int| 0 <= j < n implies 0 <= #[trigger] msum[j] < t by {
        assert(m1[j] + m2[j] < t);
        assert(m1[j] >= 0 && m2[j] >= 0);
    }
    assert forall|j: int| 0 <= j < n implies 0 <= #[trigger] m3[j] < t by {
        assert(m3[j] < t);
    }
    assert forall|j: int| 0 <= j < n implies -bound <= #[trigger] vsum[j] <= bound && phase(seq![s0, s1], s, q)[j] % q
        == (msum[j] * delta + vsum[j]) % q by {
        lemma_fresh_phase(params, a, s, e, plain1, u1, e11, e21, j);
        lemma_fresh_phase(params, a, s, e, plain2, u2, e12, e22, j);
        crate::poly_laws::lemma_phase_add(c0, c1, d0, d1, s, q, n, j);
        let v1 = rlwe_noise(e, s, u1, e11, e21, ni, j);
        let v2 = rlwe_noise(e, s, u2, e12, e22, ni, j);
        crate::poly_laws::lemma_cong_add(
            phase(seq![c0, c1], s, q)[j],
            phase(seq![d0, d1], s, q)[j],
            m1[j] * delta + v1,
            m2[j] * delta + v2,
            q,
        );
        assert(m1[j] * delta + v1 + (m2[j] * delta + v2) == msum[j] * delta + vsum[j]) by (nonlinear_arith)
            requires
                msum[j] == m1[j] + m2[j],
                vsum[j] == v1 + v2,
        ;
    }
    assert forall|j: int| 0 <= j < n implies -bound <= #[trigger] v3[j] <= bound && phase(seq![f0, f1], s, q)[j] % q
        == (m3[j] * delta + v3[j]) % q by {
        lemma_fresh_phase(params, a, s, e, plain3, u3, e13, e23, j);
    }
    assert forall|j: int| 0 <= j < n implies phase(seq![s0, s1], s, q)[j] % q == (#[trigger] msum[j] * delta
        + vsum[j]) % q by {
        assert(-bound <= vsum[j] <= bound);
    }
    assert forall|j: int| 0 <= j < n implies phase(seq![f0, f1], s, q)[j] % q == (#[trigger] m3[j] * delta
        + v3[j]) % q by {
        assert(-bound <= v3[j] <= bound);
    }
    assert forall|j: int| 0 <= j < n implies -bound <= #[trigger] vsum[j] <= bound by {
        assert(-bound <= vsum[j] <= bound);
    }
    assert forall|j: int| 0 <= j < n implies -bound <= #[trigger] v3[j] <= bound by {
        assert(-bound <= v3[j] <= bound);
    }
    assert(fb >= 0) by (nonlinear_arith)
        requires
            fb == (2 * n + 1) * eta,
    ;
    assert(is_ternary(s) && s.len() == n);
    lemma_decrypt_mul_noisy(n, q, t, s, s0, s1, f0, f1, msum, vsum, m3, v3, bound);
}

/// Homomorphic multiplication decrypts to the product for any two operands
/// with centred components whose phases are `Δ·m + v` modulo `q`, with
/// plaintext coefficients in `[0, t)` and noise at most `bound`: fresh
/// encryptions, and also sums of them (see [`lemma_decrypt_add`]). The
/// rescaled tensor product (as `mul` computes it) decrypts, under
/// `(1, s, s²)`, to the negacyclic product of the plaintexts modulo `t`,
/// provided [`mul_margin_ok_b`] holds.
pub proof fn lemma_decrypt_mul_noisy(
    n: nat,
    q: int,
    t: int,
    s: Seq<int>,
    c0: Seq<int>,
    c1: Seq<int>,
    d0: Seq<int>,
    d1: Seq<int>,
    m1: Seq<int>,
    v1: Seq<int>,
    m2: Seq<int>,
    v2: Seq<int>,
    bound: int,
)
    requires
        n >= 1,
        q > 0,
        0 < t <= u64::MAX,
        bound >= 0,
        s.len() == n,
        is_ternary(s),
        centred_poly(c0, n, q),
        centred_poly(c1, n, q),
        centred_poly(d0, n, q),
        centred_poly(d1, n, q),
        m1.len() == n && m2.len() == n && v1.len() == n && v2.len() == n,
        forall|j: int| 0 <= j < n ==> 0 <= #[trigger] m1[j] < t,
        forall|j: int| 0 <= j < n ==> 0 <= #[trigger] m2[j] < t,
        forall|j: int| 0 <= j < n ==> -bound <= #[trigger] v1[j] <= bound,
        forall|j: int| 0 <= j < n ==> -bound <= #[trigger] v2[j] <= bound,
        forall|j: int|
            0 <= j < n ==> phase(seq![c0, c1], s, q)[j] % q == (#[trigger] m1[j] * tdiv(q, t) + v1[j]) % q,
        forall|j: int|
            0 <= j < n ==> phase(seq![d0, d1], s, q)[j] % q == (#[trigger] m2[j] * tdiv(q, t) + v2[j]) % q,
        mul_margin_ok_b(n as int, q, t, bound),
    ensures
        ({
            let ni = n as int;
            let r0 = rescale_values(negacyclic(c0, d0, ni), t, q);
            let r1 = rescale_values(tensor_mid(c0, c1, d0, d1, n), t, q);
            let r2 = rescale_values(negacyclic(c1, d1, ni), t, q);
            let ph = phase(seq![r0, r1, r2], s, q);
            let prod = negacyclic(m1, m2, ni);
            forall|k: int| 0 <= k < n ==> decrypt_coeff(#[trigger] ph[k], t, q) == prod[k] % t
        }),
{
    let ni = n as int;
    let bb = bound;
    let wb = ni + 2;
    let dd0 = negacyclic(c0, d0, ni);
    let dd1 = tensor_mid(c0, c1, d0, d1, n);
    let dd2 = negacyclic(c1, d1, ni);
    let ph = phase(seq![rescale_values(dd0, t, q), rescale_values(dd1, t, q), rescale_values(dd2, t, q)], s, q);
    let prod = negacyclic(m1, m2, ni);
    let delta = tdiv(q, t);
    vstd::arithmetic::div_mod::lemma_fundamental_div_mod(q, t);
    let rho = q % t;
    // the exact phases, split as Δ·m + v + q·w
    let pc = exact_phase(c0, c1, s, n);
    let pd = exact_phase(d0, d1, s, n);
    let am = Seq::new(n, |j: int| m1[j] * delta + v1[j]);
    let bm = Seq::new(n, |j: int| m2[j] * delta + v2[j]);
    let wc = Seq::new(n, |j: int| (pc[j] - am[j]) / q);
    let wd = Seq::new(n, |j: int| (pd[j] - bm[j]) / q);
    assert forall|j: int| 0 <= j < ni implies {
        &&& #[trigger] pc[j] == 1 * am[j] + q * wc[j]
        &&& -wb <= wc[j] <= wb
        &&& -bb <= v1[j] <= bb
        &&& 0 <= m1[j] < t
    } by {
        lemma_exact_split(q, t, s, c0, c1, n, m1[j], v1[j], bound, j);
    }
    assert forall|j: int| 0 <= j < ni implies {
        &&& #[trigger] pd[j] == 1 * bm[j] + q * wd[j]
        &&& -wb <= wd[j] <= wb
        &&& -bb <= v2[j] <= bb
        &&& 0 <= m2[j] < t
    } by {
        lemma_exact_split(q, t, s, d0, d1, n, m2[j], v2[j], bound, j);
    }
    assert forall|j: int| 0 <= j < ni implies #[trigger] am[j] == delta * m1[j] + 1 * v1[j] by {
        assert(m1[j] * delta == delta * m1[j]) by (nonlinear_arith);
    }
    assert forall|j: int| 0 <= j < ni implies #[trigger] bm[j] == delta * m2[j] + 1 * v2[j] by {
        assert(m2[j] * delta == delta * m2[j]) by (nonlinear_arith);
    }
    // bounds of the pieces, coefficient-wise
    assert forall|j: int| 0 <= j < ni implies -t <= #[trigger] m1[j] <= t by {
        assert(0 <= m1[j] < t);
    }
    assert forall|j: int| 0 <= j < ni implies -t <= #[trigger] m2[j] <= t by {
        assert(0 <= m2[j] < t);
    }
    assert forall|j: int| 0 <= j < ni implies -bb <= #[trigger] v1[j] <= bb by {
        assert(pc[j] == 1 * am[j] + q * wc[j]);
    }
    assert forall|j: int| 0 <= j < ni implies -bb <= #[trigger] v2[j] <= bb by {
        assert(pd[j] == 1 * bm[j] + q * wd[j]);
    }
    assert forall|j: int| 0 <= j < ni implies -wb <= #[trigger] wc[j] <= wb by {
        assert(-wb <= wc[j] <= wb);
    }
    assert forall|j: int| 0 <= j < ni implies -wb <= #[trigger] wd[j] <= wb by {
        assert(-wb <= wd[j] <= wb);
    }
    assert forall|k: int| 0 <= k < ni implies decrypt_coeff(#[trigger] ph[k], t, q) == prod[k] % t by {
        // ph ≡ ρ-phase;  q·ρ-phase = t·(tensor phase) + E;  tensor phase = pc·pd
        lemma_phase3(dd0, dd1, dd2, s, t, q, n, k);
        lemma_rescale_error(dd0, dd1, dd2, s, t, q, n, k);
        lemma_tensor_phase(c0, c1, d0, d1, s, n, k);
        let s2 = negacyclic(s, s, ni);
        let (r0, r1, r2) = (rounded_values(dd0, t, q), rounded_values(dd1, t, q), rounded_values(dd2, t, q));
        let rp = r0[k] + negacyclic(r1, s, ni)[k] + negacyclic(r2, s2, ni)[k];
        let phi = negacyclic(pc, pd, ni)[k];
        let err = q * rp - t * phi;
        // expand pc·pd
        lemma_nc_linear(pc, am, wc, pd, 1, q, ni, k);
        lemma_nc_comm(am, pd, n);
        lemma_nc_linear(pd, bm, wd, am, 1, q, ni, k);
        lemma_nc_comm(bm, am, n);
        lemma_nc_comm(wd, am, n);
        lemma_nc_comm(wc, pd, n);
        lemma_nc_linear(pd, bm, wd, wc, 1, q, ni, k);
        lemma_nc_comm(bm, wc, n);
        lemma_nc_comm(wd, wc, n);
        // am·bm = Δ·(m1·bm) + v1·bm;  am·wd = Δ·(m1·wd) + v1·wd
        lemma_nc_linear(am, m1, v1, bm, delta, 1, ni, k);
        lemma_nc_linear(am, m1, v1, wd, delta, 1, ni, k);
        // m1·bm = bm·m1 = Δ·(m2·m1) + v2·m1;  v1·bm = bm·v1 = Δ·(m2·v1) + v2·v1
        lemma_nc_comm(m1, bm, n);
        lemma_nc_linear(bm, m2, v2, m1, delta, 1, ni, k);
        lemma_nc_comm(v1, bm, n);
        lemma_nc_linear(bm, m2, v2, v1, delta, 1, ni, k);
        lemma_nc_comm(m2, m1, n);
        // wc·bm = bm·wc = Δ·(m2·wc) + v2·wc
        lemma_nc_linear(bm, m2, v2, wc, delta, 1, ni, k);
        let mm = prod[k];
        let x1 = negacyclic(v2, m1, ni)[k];
        let x2 = negacyclic(m2, v1, ni)[k];
        let y = negacyclic(v2, v1, ni)[k];
        let g1 = negacyclic(m2, wc, ni)[k];
        let h1 = negacyclic(v2, wc, ni)[k];
        let g2 = negacyclic(m1, wd, ni)[k];
        let h2 = negacyclic(v1, wd, ni)[k];
        let tt = negacyclic(wc, wd, ni)[k];
        assert(phi == delta * (delta * mm + x1) + (delta * x2 + y) + q * (delta * g2 + h2) + q * ((delta * g1
            + h1) + q * tt));
        // sizes
        crate::poly_laws::lemma_nc_bound(m1, m2, ni, t, t, k);
        crate::poly_laws::lemma_nc_bound(v2, m1, ni, bb, t, k);
        crate::poly_laws::lemma_nc_bound(m2, v1, ni, t, bb, k);
        crate::poly_laws::lemma_nc_bound(v2, v1, ni, bb, bb, k);
        crate::poly_laws::lemma_nc_bound(m2, wc, ni, t, wb, k);
        crate::poly_laws::lemma_nc_bound(m1, wd, ni, t, wb, k);
        crate::poly_laws::lemma_nc_bound(v2, wc, ni, bb, wb, k);
        crate::poly_laws::lemma_nc_bound(v1, wd, ni, bb, wb, k);
        assert(bb * t == t * bb && bb * wb == wb * bb && t * wb == wb * t) by (nonlinear_arith);
        let mb = ni * (t * t);
        let xb = ni * (t * bb);
        let yb = ni * (bb * bb);
        let gb = ni * (t * wb);
        let hb = ni * (bb * wb);
        let eb = 1 + ni + ni * ni;
        lemma_mul_algebra(q, t, delta, rho, mm, x1, x2, y, g1, g2, h1, h2, tt, phi, err, rp, mb, xb, yb, gb, hb, eb);
        let v = rp - mm * delta - q * (g1 + g2 + t * tt);
        assert(mul_noise_bound_b(ni, t, bb) == 2 * xb + t * (2 * gb) + t * (2 * hb) + mb + 1 + eb);
        vstd::arithmetic::div_mod::lemma_mod_bound(mm, t);
        crate::poly_laws::lemma_cong_add(ph[k], 0, rp, 0, q);
        lemma_round_recovers(ph[k], mm, v, q, t, mul_noise_bound_b(ni, t, bb), mb);
    }
}


} // verus!
