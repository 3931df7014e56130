//! # CKKS-lite — approximate-arithmetic homomorphic encryption
//!
//! Messages are polynomials already scaled by `Δ` (slot encoding through the
//! canonical embedding works on floating point and lives with the
//! application). Ciphertexts carry a level `ℓ` and a scale; the modulus at
//! level `ℓ` is `q₀ · Δ^ℓ`. `mul` multiplies scales, `rescale` divides by
//! `Δ` and drops a level, `mod_switch` drops a level without touching the
//! scale.
//!
//! At the level of the integer polynomials, decryption gives back the
//! message up to bounded noise after encryption, addition, multiplication,
//! modulus switching and rescaling (`lemma_decrypt_*`, `lemma_rescale_phase`).

use vstd::prelude::*;
use vstd::arithmetic::power::pow;
use rand_chacha::ChaCha20Rng;
use crate::bigint::{IBig, tdiv};
use crate::ring::{
    self, ints, centre_value, padd, pneg, pscalar, pmul, pcentre, round_div_value, phase, max_abs, negacyclic,
    is_ternary, is_small, is_residue,
};
use crate::util;
use crate::poly_laws::{rlwe_noise, exact_phase, tensor_mid};

verus! {

/// The modulus at `level`: `q₀ · Δ^level`.
pub open spec fn modulus_at(q0: int, delta: int, level: nat) -> int {
    q0 * pow(delta, level)
}

/// Public parameters for CKKS-lite.
#[derive(Clone, Debug)]
pub struct Params {
    /// Ring degree `n`, a power of 2. Plaintext slot count is `n/2`.
    pub n: usize,
    /// The base modulus `q0` (kept after all rescales).
    pub q0: IBig,
    /// Scale factor `Δ`.
    pub delta: IBig,
    /// Maximum number of rescales / levels.
    pub levels: u32,
    /// Noise distribution parameter (binomial η).
    pub eta: u32,
}

impl View for Params {
    type V = (nat, int, int, nat, nat);

    open spec fn view(&self) -> (nat, int, int, nat, nat) {
        (self.n as nat, self.q0@, self.delta@, self.levels as nat, self.eta as nat)
    }
}

impl Params {
    /// Toy parameters: `n = 8`, 3 levels, `q₀ = 2^45 - 229`, `Δ = 2^30`.
    pub fn toy() -> (r: Self)
        ensures
            r@ == (8nat, 35184372088603int, 0x4000_0000int, 3nat, 6nat),
    {
        Params {
            n: 8,
            q0: IBig::from_i64(35184372088603),
            delta: IBig::from_i64(0x4000_0000),
            levels: 3,
            eta: 6,
        }
    }

    /// Medium parameters: `n = 64`, 4 levels, `q₀ = 2^50 - 569`, `Δ = 2^35`.
    pub fn medium() -> (r: Self)
        ensures
            r@ == (64nat, 1125899906842055int, 0x8_0000_0000int, 4nat, 6nat),
    {
        Params {
            n: 64,
            q0: IBig::from_i64(1125899906842055),
            delta: IBig::from_i64(0x8_0000_0000),
            levels: 4,
            eta: 6,
        }
    }

    /// The starting modulus `q₀ · Δ^levels`.
    pub fn q_top(&self) -> (r: IBig)
        ensures
            r@ == modulus_at(self.q0@, self.delta@, self.levels as nat),
    {
        self.q_at(self.levels)
    }

    /// The modulus at `level` (level 0 is the bottom).
    pub fn q_at(&self, level: u32) -> (r: IBig)
        ensures
            r@ == modulus_at(self.q0@, self.delta@, level as nat),
    {
        let mut q = self.q0.copy();
        proof {
            vstd::arithmetic::power::lemma_pow0(self.delta@);
        }
        for i in 0..level
            invariant
                q@ == self.q0@ * pow(self.delta@, i as nat),
        {
            q = q.mul(&self.delta);
            proof {
                assert(pow(self.delta@, (i + 1) as nat) == self.delta@ * pow(self.delta@, i as nat)) by {
                    reveal(pow);
                }
                assert(self.q0@ * pow(self.delta@, i as nat) * self.delta@ == self.q0@ * (self.delta@
                    * pow(self.delta@, i as nat))) by (nonlinear_arith);
            }
        }
        q
    }

    /// How many slots an encoded message has: `n / 2`.
    pub fn slot_count(&self) -> (r: usize)
        ensures
            r == self.n / 2,
    {
        self.n / 2
    }

    pub fn copy(&self) -> (r: Self)
        ensures
            r@ == self@,
    {
        Params {
            n: self.n,
            q0: self.q0.copy(),
            delta: self.delta.copy(),
            levels: self.levels,
            eta: self.eta,
        }
    }
}

/// A polynomial in `R_q = ℤ[X]/(X^n + 1)` modulo the current modulus.
#[derive(Clone, Debug)]
pub struct Poly {
    /// The coefficients, length exactly `params.n`.
    pub coeffs: Vec<IBig>,
}

impl View for Poly {
    type V = Seq<int>;

    open spec fn view(&self) -> Seq<int> {
        ints(self.coeffs@)
    }
}

impl Poly {
    /// All-zero polynomial.
    pub fn zero(n: usize) -> (r: Self)
        ensures
            r@ == Seq::new(n as nat, |i: int| 0int),
    {
        let r = Poly { coeffs: ring::zeros(n) };
        assert(r@ =~= Seq::new(n as nat, |i: int| 0int));
        r
    }

    /// Sample a uniform random polynomial modulo `q`.
    pub fn rand_uniform(rng: &mut ChaCha20Rng, n: usize, q: &IBig) -> (r: Self)
        requires
            q@ > 0,
        ensures
            r@.len() == n,
            forall|i: int| 0 <= i < n ==> is_residue(#[trigger] r@[i], q@),
    {
        let q_u = q.magnitude();
        let mut out: Vec<IBig> = Vec::new();
        for i in 0..n
            invariant
                q@ > 0,
                q_u@ == q@,
                out.len() == i,
                forall|j: int| 0 <= j < i ==> is_residue(#[trigger] out@[j]@, q@),
        {
            let r = util::rand_below(rng, &q_u);
            let c = ring::centre(&IBig::from_ubig(&r), q);
            assert(is_residue(c@, q@)) by {
                assert(0 <= r@ < q@ && centre_value(r@ as int, q@) == c@);
            }
            out.push(c);
        }
        let p = Poly { coeffs: out };
        assert forall|i: int| 0 <= i < n implies is_residue(#[trigger] p@[i], q@) by {
            assert(p@[i] == out@[i]@);
        }
        p
    }

    /// Sample a small noise polynomial.
    pub fn rand_noise(rng: &mut ChaCha20Rng, n: usize, eta: u32) -> (r: Self)
        ensures
            r@.len() == n,
            is_small(r@, eta as int),
    {
        let mut out: Vec<IBig> = Vec::new();
        for i in 0..n
            invariant
                out.len() == i,
                forall|j: int| 0 <= j < i ==> -(eta as int) <= #[trigger] out@[j]@ <= eta,
        {
            out.push(IBig::from_i64(util::sample_small_noise(rng, eta)));
        }
        Poly { coeffs: out }
    }

    /// Sample a ternary `{-1,0,1}` polynomial. Used for secret keys.
    pub fn rand_ternary(rng: &mut ChaCha20Rng, n: usize) -> (r: Self)
        ensures
            r@.len() == n,
            is_ternary(r@),
    {
        let mut out: Vec<IBig> = Vec::new();
        for i in 0..n
            invariant
                out.len() == i,
                forall|j: int| 0 <= j < i ==> -1 <= #[trigger] out@[j]@ <= 1,
        {
            let bits = util::random_u32(rng);
            let low = bits & 3;
            let v: i64 = if low == 0 {
                -1
            } else if low == 1 {
                1
            } else {
                0
            };
            out.push(IBig::from_i64(v));
        }
        Poly { coeffs: out }
    }

    /// Largest absolute coefficient.
    pub fn inf_norm(&self) -> (r: IBig)
        ensures
            r@ == max_abs(self@),
    {
        let mut m = IBig::zero();
        for i in 0..self.coeffs.len()
            invariant
                m@ == max_abs(self@.take(i as int)),
        {
            let a = self.coeffs[i].abs();
            assert(self@.take(i + 1).drop_last() =~= self@.take(i as int));
            if m.lt(&a) {
                m = a;
            }
        }
        assert(self@.take(self.coeffs.len() as int) =~= self@);
        m
    }

    pub fn copy(&self) -> (r: Self)
        ensures
            r@ == self@,
    {
        let mut out: Vec<IBig> = Vec::new();
        for i in 0..self.coeffs.len()
            invariant
                out.len() == i,
                forall|j: int| 0 <= j < i ==> #[trigger] out@[j]@ == self.coeffs@[j]@,
        {
            out.push(self.coeffs[i].copy());
        }
        let r = Poly { coeffs: out };
        assert(r@ =~= self@);
        r
    }
}

/// Polynomial addition in `R_q`.
pub fn poly_add(a: &Poly, b: &Poly, q: &IBig) -> (r: Poly)
    requires
        q@ != 0,
        a@.len() == b@.len(),
    ensures
        r@ == padd(a@, b@, q@),
{
    Poly { coeffs: ring::add_centred(&a.coeffs, &b.coeffs, q) }
}

/// Polynomial subtraction in `R_q`.
pub fn poly_sub(a: &Poly, b: &Poly, q: &IBig) -> (r: Poly)
    requires
        q@ != 0,
        a@.len() <= b@.len(),
    ensures
        r@ == ring::psub(a@, b@, q@),
{
    Poly { coeffs: ring::sub_centred(&a.coeffs, &b.coeffs, q) }
}

/// Negate every coefficient in `R_q`.
pub fn poly_neg(p: &Poly, q: &IBig) -> (r: Poly)
    requires
        q@ != 0,
    ensures
        r@ == pneg(p@, q@),
{
    Poly { coeffs: ring::neg_centred(&p.coeffs, q) }
}

/// Schoolbook negacyclic multiplication in `R_q`.
pub fn poly_mul(a: &Poly, b: &Poly, q: &IBig) -> (r: Poly)
    requires
        q@ != 0,
        a@.len() <= b@.len(),
    ensures
        r@ == pmul(a@, b@, q@),
{
    Poly { coeffs: ring::negacyclic_centred(&a.coeffs, &b.coeffs, q) }
}

/// Multiply by a scalar.
pub fn poly_scalar(a: &Poly, k: &IBig, q: &IBig) -> (r: Poly)
    requires
        q@ != 0,
    ensures
        r@ == pscalar(a@, k@, q@),
{
    Poly { coeffs: ring::scalar_centred(&a.coeffs, k, q) }
}

/// CKKS-lite public key.
#[derive(Clone, Debug)]
pub struct PublicKey {
    /// `b = -(a·s + e)` mod `q_top`.
    pub b: Poly,
    /// Uniform random `a`.
    pub a: Poly,
    /// Parameters in use.
    pub params: Params,
}

/// CKKS-lite secret key.
#[derive(Clone, Debug)]
pub struct SecretKey {
    /// Ternary secret `s`.
    pub s: Poly,
    /// Parameters in use.
    pub params: Params,
}

/// A CKKS ciphertext with its level and message scale.
#[derive(Clone, Debug)]
pub struct Ciphertext {
    /// Polynomial components.
    pub parts: Vec<Poly>,
    /// Current modulus level (`levels` when fresh, 0 after all rescales).
    pub level: u32,
    /// Current message scale.
    pub scale: IBig,
    /// Parameters.
    pub params: Params,
}

impl Ciphertext {
    /// The current modulus, as a value.
    pub open spec fn modulus(&self) -> int {
        modulus_at(self.params.q0@, self.params.delta@, self.level as nat)
    }

    /// The current ciphertext modulus.
    pub fn q(&self) -> (r: IBig)
        ensures
            r@ == self.modulus(),
    {
        self.params.q_at(self.level)
    }
}

/// The views of a ciphertext's components.
pub open spec fn parts_view(parts: Seq<Poly>) -> Seq<Seq<int>> {
    parts.map_values(|p: Poly| p@)
}

/// Generate a CKKS-lite key pair modulo `q_top`.
pub fn keygen(params: &Params) -> (r: (PublicKey, SecretKey))
    requires
        modulus_at(params.q0@, params.delta@, params.levels as nat) > 0,
    ensures
        r.0.params@ == params@,
        r.1.params@ == params@,
        r.1.s@.len() == params.n,
        is_ternary(r.1.s@),
        r.0.a@.len() == params.n,
        exists|e: Seq<int>|
            e.len() == params.n && is_small(e, params.eta as int) && #[trigger] r.0.b@ == pneg(
                padd(
                    pmul(r.0.a@, r.1.s@, modulus_at(params.q0@, params.delta@, params.levels as nat)),
                    e,
                    modulus_at(params.q0@, params.delta@, params.levels as nat),
                ),
                modulus_at(params.q0@, params.delta@, params.levels as nat),
            ),
{
    let mut rng = util::rng();
    let q = params.q_top();
    let s = Poly::rand_ternary(&mut rng, params.n);
    let a = Poly::rand_uniform(&mut rng, params.n, &q);
    let e = Poly::rand_noise(&mut rng, params.n, params.eta);
    let a_s = poly_mul(&a, &s, &q);
    let b = poly_neg(&poly_add(&a_s, &e, &q), &q);
    assert(b@ == pneg(padd(pmul(a@, s@, q@), e@, q@), q@));
    (PublicKey { b, a, params: params.copy() }, SecretKey { s, params: params.copy() })
}

/// Encrypt an already-encoded plaintext polynomial:
/// `(b·u + e₁ + m, a·u + e₂)` at the top level with scale `Δ`.
pub fn encrypt_poly(pk: &PublicKey, m: &Poly) -> (ct: Ciphertext)
    requires
        modulus_at(pk.params.q0@, pk.params.delta@, pk.params.levels as nat) != 0,
        pk.b@.len() == pk.params.n,
        pk.a@.len() == pk.params.n,
        m@.len() == pk.params.n,
    ensures
        ct.params@ == pk.params@,
        ct.level == pk.params.levels,
        ct.scale@ == pk.params.delta@,
        ct.parts.len() == 2,
        exists|u: Seq<int>, e1: Seq<int>, e2: Seq<int>|
            #![trigger encrypt_parts(pk.b@, pk.a@, m@, u, e1, e2, ct.modulus())]
            u.len() == pk.params.n && is_ternary(u) && e1.len() == pk.params.n && is_small(
                e1,
                pk.params.eta as int,
            ) && e2.len() == pk.params.n && is_small(e2, pk.params.eta as int) && (ct.parts@[0]@,
            ct.parts@[1]@) == encrypt_parts(pk.b@, pk.a@, m@, u, e1, e2, ct.modulus()),
{
    let mut rng = util::rng();
    let params = &pk.params;
    let q = params.q_top();
    let u = Poly::rand_ternary(&mut rng, params.n);
    let e1 = Poly::rand_noise(&mut rng, params.n, params.eta);
    let e2 = Poly::rand_noise(&mut rng, params.n, params.eta);
    let bu = poly_mul(&pk.b, &u, &q);
    let au = poly_mul(&pk.a, &u, &q);
    let c0 = poly_add(&poly_add(&bu, &e1, &q), m, &q);
    let c1 = poly_add(&au, &e2, &q);
    let mut parts: Vec<Poly> = Vec::new();
    parts.push(c0);
    parts.push(c1);
    let ct = Ciphertext {
        parts,
        level: params.levels,
        scale: params.delta.copy(),
        params: params.copy(),
    };
    assert((ct.parts@[0]@, ct.parts@[1]@) == encrypt_parts(pk.b@, pk.a@, m@, u@, e1@, e2@, ct.modulus()));
    ct
}

/// The two components of a fresh encryption of `m` with ternary `u` and
/// noise `e1`, `e2` modulo `q`.
pub open spec fn encrypt_parts(
    b: Seq<int>,
    a: Seq<int>,
    m: Seq<int>,
    u: Seq<int>,
    e1: Seq<int>,
    e2: Seq<int>,
    q: int,
) -> (Seq<int>, Seq<int>) {
    (padd(padd(pmul(b, u, q), e1, q), m, q), padd(pmul(a, u, q), e2, q))
}

/// Decrypt to the underlying plaintext polynomial (still scaled):
/// `c₀ + c₁·s (+ c₂·s²)` modulo the current modulus.
pub fn decrypt_poly(sk: &SecretKey, ct: &Ciphertext) -> (r: Poly)
    requires
        ct.modulus() != 0,
        1 <= ct.parts.len() <= 3,
        forall|i: int| 1 <= i < ct.parts.len() ==> #[trigger] ct.parts@[i]@.len() == ct.parts@[0]@.len(),
        ct.parts.len() >= 2 ==> ct.parts@[1]@.len() <= sk.s@.len(),
    ensures
        r@ == phase(parts_view(ct.parts@), sk.s@, ct.modulus()),
{
    let q = ct.q();
    let mut acc = ct.parts[0].copy();
    if ct.parts.len() >= 2 {
        acc = poly_add(&acc, &poly_mul(&ct.parts[1], &sk.s, &q), &q);
    }
    if ct.parts.len() >= 3 {
        let s_sq = poly_mul(&sk.s, &sk.s, &q);
        assert(ct.parts@[2]@.len() <= s_sq@.len()) by {
            assert(ct.parts@[2]@.len() == ct.parts@[0]@.len());
        }
        acc = poly_add(&acc, &poly_mul(&ct.parts[2], &s_sq, &q), &q);
    }
    acc
}

/// Homomorphic addition: component-wise, at equal level and scale.
pub fn add(a: &Ciphertext, b: &Ciphertext) -> (r: Ciphertext)
    requires
        a.level == b.level,
        a.scale@ == b.scale@,
        a.modulus() != 0,
        forall|i: int|
            0 <= i < a.parts.len() && 0 <= i < b.parts.len() ==> #[trigger] a.parts@[i]@.len()
                == b.parts@[i]@.len(),
    ensures
        r.params@ == a.params@,
        r.level == a.level,
        r.scale@ == a.scale@,
        r.parts.len() == if a.parts.len() >= b.parts.len() { a.parts.len() } else { b.parts.len() },
        forall|i: int|
            0 <= i < r.parts.len() ==> #[trigger] r.parts@[i]@ == if i < a.parts.len() && i
                < b.parts.len() {
                padd(a.parts@[i]@, b.parts@[i]@, a.modulus())
            } else if i < a.parts.len() {
                a.parts@[i]@
            } else {
                b.parts@[i]@
            },
{
    let q = a.q();
    let n = if a.parts.len() >= b.parts.len() {
        a.parts.len()
    } else {
        b.parts.len()
    };
    let mut parts: Vec<Poly> = Vec::new();
    for i in 0..n
        invariant
            q@ == a.modulus(),
            q@ != 0,
            n == if a.parts.len() >= b.parts.len() { a.parts.len() } else { b.parts.len() },
            forall|i: int|
                0 <= i < a.parts.len() && 0 <= i < b.parts.len() ==> #[trigger] a.parts@[i]@.len()
                    == b.parts@[i]@.len(),
            parts.len() == i,
            forall|j: int|
                0 <= j < i ==> #[trigger] parts@[j]@ == if j < a.parts.len() && j < b.parts.len() {
                    padd(a.parts@[j]@, b.parts@[j]@, a.modulus())
                } else if j < a.parts.len() {
                    a.parts@[j]@
                } else {
                    b.parts@[j]@
                },
    {
        if i < a.parts.len() && i < b.parts.len() {
            parts.push(poly_add(&a.parts[i], &b.parts[i], &q));
        } else if i < a.parts.len() {
            parts.push(a.parts[i].copy());
        } else {
            parts.push(b.parts[i].copy());
        }
    }
    Ciphertext { parts, level: a.level, scale: a.scale.copy(), params: a.params.copy() }
}

/// Homomorphic addition of an encoded plaintext polynomial (encoded at scale
/// `Δ`; it is first multiplied by `scale / Δ` when that factor is not 1).
pub fn add_plain_poly(ct: &Ciphertext, m: &Poly) -> (r: Ciphertext)
    requires
        ct.modulus() != 0,
        ct.params.delta@ != 0,
        ct.parts.len() >= 1,
        ct.parts@[0]@.len() == m@.len(),
    ensures
        r.params@ == ct.params@,
        r.level == ct.level,
        r.scale@ == ct.scale@,
        r.parts.len() == ct.parts.len(),
        r.parts@[0]@ == padd(
            ct.parts@[0]@,
            if tdiv(ct.scale@, ct.params.delta@) != 1 {
                pscalar(m@, tdiv(ct.scale@, ct.params.delta@), ct.modulus())
            } else {
                m@
            },
            ct.modulus(),
        ),
        forall|i: int| 1 <= i < r.parts.len() ==> #[trigger] r.parts@[i]@ == ct.parts@[i]@,
{
    let q = ct.q();
    let factor = ct.scale.div(&ct.params.delta);
    let one = IBig::from_i64(1);
    let mm = if !factor.eq(&one) {
        poly_scalar(m, &factor, &q)
    } else {
        m.copy()
    };
    let mut parts: Vec<Poly> = Vec::new();
    parts.push(poly_add(&ct.parts[0], &mm, &q));
    for i in 1..ct.parts.len()
        invariant
            parts.len() == i,
            i >= 1,
            forall|j: int| 1 <= j < i ==> #[trigger] parts@[j]@ == ct.parts@[j]@,
            parts@[0]@ == padd(
                ct.parts@[0]@,
                if tdiv(ct.scale@, ct.params.delta@) != 1 {
                    pscalar(m@, tdiv(ct.scale@, ct.params.delta@), ct.modulus())
                } else {
                    m@
                },
                ct.modulus(),
            ),
    {
        parts.push(ct.parts[i].copy());
    }
    Ciphertext { parts, level: ct.level, scale: ct.scale.copy(), params: ct.params.copy() }
}

/// Homomorphic multiplication by an encoded plaintext polynomial: every
/// component is multiplied by `m`, and the scale by `Δ`.
pub fn mul_plain_poly(ct: &Ciphertext, m: &Poly) -> (r: Ciphertext)
    requires
        ct.modulus() != 0,
        forall|i: int| 0 <= i < ct.parts.len() ==> #[trigger] ct.parts@[i]@.len() <= m@.len(),
    ensures
        r.params@ == ct.params@,
        r.level == ct.level,
        r.scale@ == ct.scale@ * ct.params.delta@,
        r.parts.len() == ct.parts.len(),
        forall|i: int|
            0 <= i < r.parts.len() ==> #[trigger] r.parts@[i]@ == pmul(ct.parts@[i]@, m@, ct.modulus()),
{
    let q = ct.q();
    let mut parts: Vec<Poly> = Vec::new();
    for i in 0..ct.parts.len()
        invariant
            q@ == ct.modulus(),
            q@ != 0,
            forall|i: int| 0 <= i < ct.parts.len() ==> #[trigger] ct.parts@[i]@.len() <= m@.len(),
            parts.len() == i,
            forall|j: int| 0 <= j < i ==> #[trigger] parts@[j]@ == pmul(ct.parts@[j]@, m@, ct.modulus()),
    {
        parts.push(poly_mul(&ct.parts[i], m, &q));
    }
    let new_scale = ct.scale.mul(&ct.params.delta);
    Ciphertext { parts, level: ct.level, scale: new_scale, params: ct.params.copy() }
}

/// Homomorphic multiplication: the tensor product of two size-2 ciphertexts,
/// `(c₀c₀', c₀c₁' + c₁c₀', c₁c₁')` modulo the current modulus; scales multiply.
pub fn mul(a: &Ciphertext, b: &Ciphertext) -> (r: Ciphertext)
    requires
        a.level == b.level,
        a.parts.len() == 2,
        b.parts.len() == 2,
        a.modulus() != 0,
        a.parts@[0]@.len() == a.parts@[1]@.len(),
        a.parts@[0]@.len() <= b.parts@[0]@.len(),
        a.parts@[0]@.len() <= b.parts@[1]@.len(),
    ensures
        r.params@ == a.params@,
        r.level == a.level,
        r.scale@ == a.scale@ * b.scale@,
        r.parts.len() == 3,
        ({
            let q = a.modulus();
            let (a0, a1, b0, b1) = (a.parts@[0]@, a.parts@[1]@, b.parts@[0]@, b.parts@[1]@);
            &&& r.parts@[0]@ == pmul(a0, b0, q)
            &&& r.parts@[1]@ == padd(pmul(a0, b1, q), pmul(a1, b0, q), q)
            &&& r.parts@[2]@ == pmul(a1, b1, q)
        }),
{
    let q = a.q();
    let d0 = poly_mul(&a.parts[0], &b.parts[0], &q);
    let d1_a = poly_mul(&a.parts[0], &b.parts[1], &q);
    let d1_b = poly_mul(&a.parts[1], &b.parts[0], &q);
    let d1 = poly_add(&d1_a, &d1_b, &q);
    let d2 = poly_mul(&a.parts[1], &b.parts[1], &q);
    let new_scale = a.scale.mul(&b.scale);
    let mut parts: Vec<Poly> = Vec::new();
    parts.push(d0);
    parts.push(d1);
    parts.push(d2);
    Ciphertext { parts, level: a.level, scale: new_scale, params: a.params.copy() }
}

/// Every component's coefficients recentred modulo `q`.
pub open spec fn switched_parts(parts: Seq<Seq<int>>, q: int) -> Seq<Seq<int>> {
    parts.map_values(|p: Seq<int>| pcentre(p, q))
}

/// **Modulus switch** — drop one level without changing the message scale.
pub fn mod_switch(ct: &Ciphertext) -> (r: Ciphertext)
    requires
        ct.level > 0,
        modulus_at(ct.params.q0@, ct.params.delta@, (ct.level - 1) as nat) != 0,
    ensures
        r.params@ == ct.params@,
        r.level == ct.level - 1,
        r.scale@ == ct.scale@,
        parts_view(r.parts@) == switched_parts(parts_view(ct.parts@), r.modulus()),
{
    let new_level = ct.level - 1;
    let new_q = ct.params.q_at(new_level);
    let mut new_parts: Vec<Poly> = Vec::new();
    for i in 0..ct.parts.len()
        invariant
            new_q@ == modulus_at(ct.params.q0@, ct.params.delta@, new_level as nat),
            new_q@ != 0,
            new_parts.len() == i,
            forall|j: int| 0 <= j < i ==> #[trigger] new_parts@[j]@ == pcentre(ct.parts@[j]@, new_q@),
    {
        new_parts.push(Poly { coeffs: ring::centre_all(&ct.parts[i].coeffs, &new_q) });
    }
    let r = Ciphertext {
        parts: new_parts,
        level: new_level,
        scale: ct.scale.copy(),
        params: ct.params.copy(),
    };
    assert(parts_view(r.parts@) =~= switched_parts(parts_view(ct.parts@), r.modulus()));
    r
}

/// Coefficients divided by `Δ` (rounded) and centred modulo `q`.
pub open spec fn rescaled(p: Seq<int>, delta: int, q: int) -> Seq<int> {
    Seq::new(p.len(), |i: int| centre_value(round_div_value(p[i], delta), q))
}

/// **Rescale** — divide every coefficient by `Δ` (rounding), drop a level,
/// and divide the message scale by `Δ`.
pub fn rescale(ct: &Ciphertext) -> (r: Ciphertext)
    requires
        ct.level > 0,
        ct.params.delta@ != 0,
        modulus_at(ct.params.q0@, ct.params.delta@, (ct.level - 1) as nat) != 0,
    ensures
        r.params@ == ct.params@,
        r.level == ct.level - 1,
        r.scale@ == tdiv(ct.scale@, ct.params.delta@),
        parts_view(r.parts@) == parts_view(ct.parts@).map_values(
            |p: Seq<int>| rescaled(p, ct.params.delta@, r.modulus()),
        ),
{
    let new_level = ct.level - 1;
    let new_q = ct.params.q_at(new_level);
    let delta = &ct.params.delta;
    let mut new_parts: Vec<Poly> = Vec::new();
    for i in 0..ct.parts.len()
        invariant
            new_q@ == modulus_at(ct.params.q0@, ct.params.delta@, new_level as nat),
            new_q@ != 0,
            delta@ == ct.params.delta@,
            delta@ != 0,
            new_parts.len() == i,
            forall|j: int|
                0 <= j < i ==> #[trigger] new_parts@[j]@ == rescaled(ct.parts@[j]@, delta@, new_q@),
    {
        let part = &ct.parts[i];
        let mut scaled: Vec<IBig> = Vec::new();
        for k in 0..part.coeffs.len()
            invariant
                new_q@ != 0,
                delta@ != 0,
                scaled.len() == k,
                forall|j: int|
                    0 <= j < k ==> #[trigger] scaled@[j]@ == centre_value(
                        round_div_value(part.coeffs@[j]@, delta@),
                        new_q@,
                    ),
        {
            let qq = ring::round_div(&part.coeffs[k], delta);
            scaled.push(ring::centre(&qq, &new_q));
        }
        let p = Poly { coeffs: scaled };
        assert(p@ =~= rescaled(part@, delta@, new_q@));
        new_parts.push(p);
    }
    let new_scale = ct.scale.div(delta);
    let r = Ciphertext { parts: new_parts, level: new_level, scale: new_scale, params: ct.params.copy() };
    assert(parts_view(r.parts@) =~= parts_view(ct.parts@).map_values(
        |p: Seq<int>| rescaled(p, ct.params.delta@, r.modulus()),
    ));
    r
}

/// Estimate the noise in a CKKS ciphertext, in whole bits:
/// `(log₂ of the largest decrypted coefficient, log₂ q, headroom)`, where a
/// logarithm is one less than the bit count (0 for zero) and the headroom is
/// never below 0.
pub fn noise_estimate(sk: &SecretKey, ct: &Ciphertext) -> (r: (u64, u64, u64))
    requires
        ct.modulus() != 0,
        1 <= ct.parts.len() <= 3,
        forall|i: int| 1 <= i < ct.parts.len() ==> #[trigger] ct.parts@[i]@.len() == ct.parts@[0]@.len(),
        ct.parts.len() >= 2 ==> ct.parts@[1]@.len() <= sk.s@.len(),
    ensures
        ({
            let m = max_abs(phase(parts_view(ct.parts@), sk.s@, ct.modulus()));
            let lm = crate::schemes::bfv::log2_value(m);
            let lq = crate::schemes::bfv::log2_value(ct.modulus());
            &&& r.0 == lm
            &&& r.1 == lq
            &&& r.2 == if lq > lm { lq - lm } else { 0 }
        }),
{
    let m = decrypt_poly(sk, ct);
    let inf = m.inf_norm();
    let log_m = crate::schemes::bfv::bigint_log2(&inf);
    let log_q = crate::schemes::bfv::bigint_log2(&ct.q());
    let headroom = if log_q > log_m {
        log_q - log_m
    } else {
        0
    };
    (log_m, log_q, headroom)
}


/// Decryption of a fresh encryption gives the plaintext back up to small
/// noise. With `b = -(a·s + e)` as `keygen` makes it and `u`, `e1`, `e2` as
/// `encrypt_poly` draws them (ternary `s`, `u`; noise bounded by `eta`),
/// every decrypted coefficient is `m_k` plus `(e1 + e2·s - e·u)_k`, which is
/// at most `(2n + 1)·eta` in absolute value, provided `m_k` stays that far
/// inside `(-q/2, q/2)`.
pub proof fn lemma_decrypt_encrypt(
    n: nat,
    q: int,
    eta: nat,
    a: Seq<int>,
    s: Seq<int>,
    e: Seq<int>,
    m: Seq<int>,
    u: Seq<int>,
    e1: Seq<int>,
    e2: Seq<int>,
)
    requires
        q > 0,
        a.len() == n && s.len() == n && e.len() == n && m.len() == n,
        u.len() == n && e1.len() == n && e2.len() == n,
        is_ternary(s) && is_ternary(u),
        is_small(e, eta as int) && is_small(e1, eta as int) && is_small(e2, eta as int),
        forall|k: int| 0 <= k < n ==> -(q / 2) + (2 * n + 1) * eta < #[trigger] m[k] < q / 2 - (2 * n + 1) * eta,
    ensures
        ({
            let b = pneg(padd(pmul(a, s, q), e, q), q);
            let (c0, c1) = encrypt_parts(b, a, m, u, e1, e2, q);
            let ph = phase(seq![c0, c1], s, q);
            forall|k: int|
                0 <= k < n ==> {
                    &&& #[trigger] ph[k] == m[k] + rlwe_noise(e, s, u, e1, e2, n as int, k)
                    &&& -((2 * n + 1) * eta) <= ph[k] - m[k] <= (2 * n + 1) * eta
                }
        }),
{
    let b = pneg(padd(pmul(a, s, q), e, q), q);
    let (c0, c1) = encrypt_parts(b, a, m, u, e1, e2, q);
    let ph = phase(seq![c0, c1], s, q);
    assert forall|k: int| 0 <= k < n implies {
        &&& #[trigger] ph[k] == m[k] + rlwe_noise(e, s, u, e1, e2, n as int, k)
        &&& -((2 * n + 1) * eta) <= ph[k] - m[k] <= (2 * n + 1) * eta
    } by {
        crate::poly_laws::lemma_rlwe_phase(n, q, eta as int, a, s, e, m, u, e1, e2, k);
        let v = rlwe_noise(e, s, u, e1, e2, n as int, k);
        ring::lemma_centre_value(c0[k] + pmul(c1, s, q)[k], q);
        ring::lemma_centre_exact(c0[k] + pmul(c1, s, q)[k], m[k] + v, q);
    }
}

/// Homomorphic addition of two fresh encryptions decrypts to the sum of the
/// plaintexts up to the sum of both noises, at most `2·(2n + 1)·eta`, provided
/// `m1_k + m2_k` stays that far inside `(-q/2, q/2)`.
pub proof fn lemma_decrypt_add(
    n: nat,
    q: int,
    eta: nat,
    a: Seq<int>,
    s: Seq<int>,
    e: Seq<int>,
    m1: Seq<int>,
    u1: Seq<int>,
    e11: Seq<int>,
    e21: Seq<int>,
    m2: Seq<int>,
    u2: Seq<int>,
    e12: Seq<int>,
    e22: Seq<int>,
)
    requires
        q > 0,
        a.len() == n && s.len() == n && e.len() == n && m1.len() == n && m2.len() == n,
        u1.len() == n && e11.len() == n && e21.len() == n,
        u2.len() == n && e12.len() == n && e22.len() == n,
        is_ternary(s) && is_ternary(u1) && is_ternary(u2),
        is_small(e, eta as int) && is_small(e11, eta as int) && is_small(e21, eta as int),
        is_small(e12, eta as int) && is_small(e22, eta as int),
        forall|k: int|
            #![trigger m1[k]]
            0 <= k < n ==> -(q / 2) + 2 * ((2 * n + 1) * eta) < m1[k] + m2[k] < q / 2 - 2 * ((2 * n + 1)
                * eta),
    ensures
        ({
            let b = pneg(padd(pmul(a, s, q), e, q), q);
            let (c0, c1) = encrypt_parts(b, a, m1, u1, e11, e21, q);
            let (d0, d1) = encrypt_parts(b, a, m2, u2, e12, e22, q);
            let ph = phase(seq![padd(c0, d0, q), padd(c1, d1, q)], s, q);
            forall|k: int|
                0 <= k < n ==> {
                    &&& #[trigger] ph[k] == m1[k] + m2[k] + rlwe_noise(e, s, u1, e11, e21, n as int, k)
                        + rlwe_noise(e, s, u2, e12, e22, n as int, k)
                    &&& -(2 * ((2 * n + 1) * eta)) <= ph[k] - (m1[k] + m2[k]) <= 2 * ((2 * n + 1) * eta)
                }
        }),
{
    let b = pneg(padd(pmul(a, s, q), e, q), q);
    let (c0, c1) = encrypt_parts(b, a, m1, u1, e11, e21, q);
    let (d0, d1) = encrypt_parts(b, a, m2, u2, e12, e22, q);
    let ph = phase(seq![padd(c0, d0, q), padd(c1, d1, q)], s, q);
    assert forall|k: int| 0 <= k < n implies {
        &&& #[trigger] ph[k] == m1[k] + m2[k] + rlwe_noise(e, s, u1, e11, e21, n as int, k) + rlwe_noise(
            e,
            s,
            u2,
            e12,
            e22,
            n as int,
            k,
        )
        &&& -(2 * ((2 * n + 1) * eta)) <= ph[k] - (m1[k] + m2[k]) <= 2 * ((2 * n + 1) * eta)
    } by {
        crate::poly_laws::lemma_rlwe_phase(n, q, eta as int, a, s, e, m1, u1, e11, e21, k);
        crate::poly_laws::lemma_rlwe_phase(n, q, eta as int, a, s, e, m2, u2, e12, e22, k);
        crate::poly_laws::lemma_phase_add(c0, c1, d0, d1, s, q, n, k);
        let v1 = rlwe_noise(e, s, u1, e11, e21, n as int, k);
        let v2 = rlwe_noise(e, s, u2, e12, e22, n as int, k);
        let p1 = phase(seq![c0, c1], s, q)[k];
        let p2 = phase(seq![d0, d1], s, q)[k];
        crate::poly_laws::lemma_cong_add(p1, p2, m1[k] + v1, m2[k] + v2, q);
        let s0 = padd(c0, d0, q);
        let s1 = padd(c1, d1, q);
        ring::lemma_centre_value(s0[k] + pmul(s1, s, q)[k], q);
        assert(-(q / 2) + 2 * ((2 * n + 1) * eta) < m1[k] + m2[k] < q / 2 - 2 * ((2 * n + 1) * eta));
        ring::lemma_centre_exact(s0[k] + pmul(s1, s, q)[k], m1[k] + v1 + (m2[k] + v2), q);
    }
}


/// The noise a product of two fresh encryptions of messages bounded by `mb`
/// carries: `n·(2·mb·B + B²)` with `B = (2n + 1)·eta`.
pub open spec fn mul_noise_bound(n: int, eta: int, mb: int) -> int {
    let b = (2 * n + 1) * eta;
    n * (mb * b) + n * (b * mb) + n * (b * b)
}

/// The exact phase of a fresh encryption is congruent to `m + v` modulo `q`.
proof fn lemma_exact_fresh(
    n: nat,
    q: int,
    eta: int,
    a: Seq<int>,
    s: Seq<int>,
    e: Seq<int>,
    m: Seq<int>,
    u: Seq<int>,
    e1: Seq<int>,
    e2: Seq<int>,
    j: int,
)
    requires
        q > 0,
        a.len() == n && s.len() == n && e.len() == n && m.len() == n,
        u.len() == n && e1.len() == n && e2.len() == n,
        is_ternary(s) && is_ternary(u),
        is_small(e, eta) && is_small(e1, eta) && is_small(e2, eta),
        0 <= j < n,
    ensures
        ({
            let b = pneg(padd(pmul(a, s, q), e, q), q);
            let (c0, c1) = encrypt_parts(b, a, m, u, e1, e2, q);
            let v = rlwe_noise(e, s, u, e1, e2, n as int, j);
            &&& exact_phase(c0, c1, s, n)[j] % q == (m[j] + v) % q
            &&& -((2 * n + 1) * eta) <= v <= (2 * n + 1) * eta
        }),
{
    let b = pneg(padd(pmul(a, s, q), e, q), q);
    let (c0, c1) = encrypt_parts(b, a, m, u, e1, e2, q);
    crate::poly_laws::lemma_rlwe_phase(n, q, eta, a, s, e, m, u, e1, e2, j);
    let ncs = negacyclic(c1, s, n as int)[j];
    ring::lemma_centre_value(ncs, q);
    ring::lemma_centre_value(c0[j] + pmul(c1, s, q)[j], q);
    crate::poly_laws::lemma_cong_add(c0[j], pmul(c1, s, q)[j], c0[j], ncs, q);
}

/// Homomorphic multiplication decrypts to the product up to noise.
/// Multiplying (as `mul` does: the tensor product modulo `q`) two fresh
/// encryptions of `m1` and `m2`, whose coefficients are at most `mb` in
/// absolute value, gives a three-part ciphertext whose phase under
/// `(1, s, s²)` is the negacyclic product `m1·m2` up to
/// [`mul_noise_bound`], provided the product stays that far inside
/// `(-q/2, q/2)`.
pub proof fn lemma_decrypt_mul(
    n: nat,
    q: int,
    eta: nat,
    a: Seq<int>,
    s: Seq<int>,
    e: Seq<int>,
    m1: Seq<int>,
    u1: Seq<int>,
    e11: Seq<int>,
    e21: Seq<int>,
    m2: Seq<int>,
    u2: Seq<int>,
    e12: Seq<int>,
    e22: Seq<int>,
    mb: int,
)
    requires
        q > 0,
        a.len() == n && s.len() == n && e.len() == n && m1.len() == n && m2.len() == n,
        u1.len() == n && e11.len() == n && e21.len() == n,
        u2.len() == n && e12.len() == n && e22.len() == n,
        is_ternary(s) && is_ternary(u1) && is_ternary(u2),
        is_small(e, eta as int) && is_small(e11, eta as int) && is_small(e21, eta as int),
        is_small(e12, eta as int) && is_small(e22, eta as int),
        forall|j: int| #![trigger m1[j]] 0 <= j < n ==> -mb <= m1[j] <= mb && -mb <= m2[j] <= mb,
        forall|k: int|
            0 <= k < n ==> -(q / 2) + mul_noise_bound(n as int, eta as int, mb) < #[trigger] negacyclic(
                m1,
                m2,
                n as int,
            )[k] < q / 2 - mul_noise_bound(n as int, eta as int, mb),
    ensures
        ({
            let ni = n as int;
            let b = pneg(padd(pmul(a, s, q), e, q), q);
            let (c0, c1) = encrypt_parts(b, a, m1, u1, e11, e21, q);
            let (d0, d1) = encrypt_parts(b, a, m2, u2, e12, e22, q);
            let ph = phase(seq![pmul(c0, d0, q), padd(pmul(c0, d1, q), pmul(c1, d0, q), q), pmul(c1, d1, q)], s, q);
            let prod = negacyclic(m1, m2, ni);
            let nb = mul_noise_bound(ni, eta as int, mb);
            forall|k: int| 0 <= k < n ==> -nb <= #[trigger] ph[k] - prod[k] <= nb
        }),
{
    let ni = n as int;
    let eti = eta as int;
    let bb = (2 * ni + 1) * eti;
    let b = pneg(padd(pmul(a, s, q), e, q), q);
    let (c0, c1) = encrypt_parts(b, a, m1, u1, e11, e21, q);
    let (d0, d1) = encrypt_parts(b, a, m2, u2, e12, e22, q);
    let (r0, r1, r2) = (pmul(c0, d0, q), padd(pmul(c0, d1, q), pmul(c1, d0, q), q), pmul(c1, d1, q));
    let ph = phase(seq![r0, r1, r2], s, q);
    let prod = negacyclic(m1, m2, ni);
    let nb = mul_noise_bound(ni, eti, mb);
    let dd0 = negacyclic(c0, d0, ni);
    let dd1 = tensor_mid(c0, c1, d0, d1, n);
    let dd2 = negacyclic(c1, d1, ni);
    // the components are congruent to the exact tensor product
    assert forall|j: int| 0 <= j < ni implies #[trigger] r0[j] % q == dd0[j] % q by {
        ring::lemma_centre_value(dd0[j], q);
    }
    assert forall|j: int| 0 <= j < ni implies #[trigger] r1[j] % q == dd1[j] % q by {
        let x = negacyclic(c0, d1, ni)[j];
        let y = negacyclic(c1, d0, ni)[j];
        ring::lemma_centre_value(x, q);
        ring::lemma_centre_value(y, q);
        ring::lemma_centre_value(pmul(c0, d1, q)[j] + pmul(c1, d0, q)[j], q);
        crate::poly_laws::lemma_cong_add(pmul(c0, d1, q)[j], pmul(c1, d0, q)[j], x, y, q);
    }
    assert forall|j: int| 0 <= j < ni implies #[trigger] r2[j] % q == dd2[j] % q by {
        ring::lemma_centre_value(dd2[j], q);
    }
    // the exact phases are congruent to m + v
    let pc = exact_phase(c0, c1, s, n);
    let pd = exact_phase(d0, d1, s, n);
    let v1 = Seq::new(n, |j: int| rlwe_noise(e, s, u1, e11, e21, ni, j));
    let v2 = Seq::new(n, |j: int| rlwe_noise(e, s, u2, e12, e22, ni, j));
    let am = Seq::new(n, |j: int| m1[j] + v1[j]);
    let bm = Seq::new(n, |j: int| m2[j] + v2[j]);
    assert forall|j: int| 0 <= j < ni implies #[trigger] pc[j] % q == (1 * am[j] + 0 * am[j]) % q && -bb <= v1[j] <= bb by {
        lemma_exact_fresh(n, q, eti, a, s, e, m1, u1, e11, e21, j);
    }
    assert forall|j: int| 0 <= j < ni implies #[trigger] pd[j] % q == (1 * bm[j] + 0 * bm[j]) % q && -bb <= v2[j] <= bb by {
        lemma_exact_fresh(n, q, eti, a, s, e, m2, u2, e12, e22, j);
    }
    assert forall|j: int| 0 <= j < ni implies #[trigger] am[j] == 1 * m1[j] + 1 * v1[j] by {}
    assert forall|j: int| 0 <= j < ni implies #[trigger] bm[j] == 1 * m2[j] + 1 * v2[j] by {}
    assert forall|j: int| 0 <= j < ni implies -bb <= #[trigger] v1[j] <= bb by {
        assert(pc[j] % q == (1 * am[j] + 0 * am[j]) % q && -bb <= v1[j] <= bb);
    }
    assert forall|j: int| 0 <= j < ni implies -bb <= #[trigger] v2[j] <= bb by {
        assert(pd[j] % q == (1 * bm[j] + 0 * bm[j]) % q && -bb <= v2[j] <= bb);
    }
    assert forall|j: int| 0 <= j < ni implies -mb <= #[trigger] m2[j] <= mb by {
        assert(-mb <= m1[j] <= mb && -mb <= m2[j] <= mb);
    }
    assert forall|j: int| 0 <= j < ni implies -mb <= #[trigger] m1[j] <= mb by {
        assert(-mb <= m1[j] <= mb && -mb <= m2[j] <= mb);
    }
    assert(bb >= 0) by (nonlinear_arith)
        requires
            bb == (2 * ni + 1) * eti,
            ni >= 0,
            eti >= 0,
    ;
    assert forall|k: int| 0 <= k < ni implies -nb <= #[trigger] ph[k] - prod[k] <= nb by {
        crate::poly_laws::lemma_phase3_mod(r0, r1, r2, dd0, dd1, dd2, s, q, n, k);
        crate::poly_laws::lemma_tensor_phase(c0, c1, d0, d1, s, n, k);
        // pc·pd ≡ am·pd = pd·am ≡ bm·am = am·bm
        crate::poly_laws::lemma_nc_linear_mod(pc, am, am, pd, 1, 0, ni, q, k);
        crate::poly_laws::lemma_nc_comm(am, pd, n);
        crate::poly_laws::lemma_nc_linear_mod(pd, bm, bm, am, 1, 0, ni, q, k);
        crate::poly_laws::lemma_nc_comm(bm, am, n);
        // am·bm = m1·bm + v1·bm = (m1·m2 + m1·v2) + (v1·m2 + v1·v2)
        crate::poly_laws::lemma_nc_linear(am, m1, v1, bm, 1, 1, ni, k);
        crate::poly_laws::lemma_nc_comm(m1, bm, n);
        crate::poly_laws::lemma_nc_linear(bm, m2, v2, m1, 1, 1, ni, k);
        crate::poly_laws::lemma_nc_comm(v1, bm, n);
        crate::poly_laws::lemma_nc_linear(bm, m2, v2, v1, 1, 1, ni, k);
        crate::poly_laws::lemma_nc_comm(m2, m1, n);
        let x1 = negacyclic(v2, m1, ni)[k];
        let x2 = negacyclic(m2, v1, ni)[k];
        let y = negacyclic(v2, v1, ni)[k];
        let target = prod[k] + x1 + x2 + y;
        assert(negacyclic(am, bm, ni)[k] == target);
        crate::poly_laws::lemma_nc_bound(v2, m1, ni, bb, mb, k);
        crate::poly_laws::lemma_nc_bound(m2, v1, ni, mb, bb, k);
        crate::poly_laws::lemma_nc_bound(v2, v1, ni, bb, bb, k);
        assert(-nb <= x1 + x2 + y <= nb) by (nonlinear_arith)
            requires
                -(ni * (bb * mb)) <= x1 <= ni * (bb * mb),
                -(ni * (mb * bb)) <= x2 <= ni * (mb * bb),
                -(ni * (bb * bb)) <= y <= ni * (bb * bb),
                nb == ni * (mb * bb) + ni * (bb * mb) + ni * (bb * bb),
        ;
        // the phase is the centred value of something congruent to target
        let s2c = pmul(s, s, q);
        let acc1 = padd(r0, pmul(r1, s, q), q);
        let pre = acc1[k] + pmul(r2, s2c, q)[k];
        ring::lemma_centre_value(pre, q);
        assert(ph[k] == ring::centre_value(pre, q));
        assert(-(q / 2) + nb < prod[k] < q / 2 - nb);
        ring::lemma_centre_exact(pre, target, q);
    }
}


/// Modulus switching keeps the phase: for a ciphertext of two or three
/// parts and a new modulus `qs` dividing `q`, the phase of the recentred
/// parts modulo `qs` is congruent to the old phase.
pub proof fn lemma_mod_switch_phase(parts: Seq<Seq<int>>, s: Seq<int>, q: int, qs: int, d: int, n: nat, k: int)
    requires
        qs > 0,
        d > 0,
        q == qs * d,
        parts.len() == 2 || parts.len() == 3,
        forall|i: int| 0 <= i < parts.len() ==> (#[trigger] parts[i]).len() == n,
        s.len() == n,
        0 <= k < n,
    ensures
        phase(switched_parts(parts, qs), s, qs)[k] % qs == phase(parts, s, q)[k] % qs,
{
    assert(q > 0) by (nonlinear_arith)
        requires
            qs > 0,
            d > 0,
            q == qs * d,
    ;
    let sw = switched_parts(parts, qs);
    let ni = n as int;
    assert forall|i: int, j: int| 0 <= i < parts.len() && 0 <= j < ni implies #[trigger] sw[i][j] % qs
        == parts[i][j] % qs by {
        ring::lemma_centre_value(parts[i][j], qs);
    }
    assert(parts[0].len() == n && parts[1].len() == n);
    if parts.len() == 2 {
        assert(sw =~= seq![sw[0], sw[1]]);
        assert(parts =~= seq![parts[0], parts[1]]);
        assert forall|j: int| 0 <= j < ni implies #[trigger] sw[0][j] % qs == parts[0][j] % qs by {}
        assert forall|j: int| 0 <= j < ni implies #[trigger] sw[1][j] % qs == parts[1][j] % qs by {}
        crate::poly_laws::lemma_phase2_mod(sw[0], sw[1], parts[0], parts[1], s, qs, n, k);
        crate::poly_laws::lemma_phase2_mod(parts[0], parts[1], parts[0], parts[1], s, q, n, k);
    } else {
        assert(parts[2].len() == n);
        assert(sw =~= seq![sw[0], sw[1], sw[2]]);
        assert(parts =~= seq![parts[0], parts[1], parts[2]]);
        assert forall|j: int| 0 <= j < ni implies #[trigger] sw[0][j] % qs == parts[0][j] % qs by {}
        assert forall|j: int| 0 <= j < ni implies #[trigger] sw[1][j] % qs == parts[1][j] % qs by {}
        assert forall|j: int| 0 <= j < ni implies #[trigger] sw[2][j] % qs == parts[2][j] % qs by {}
        crate::poly_laws::lemma_phase3_mod(sw[0], sw[1], sw[2], parts[0], parts[1], parts[2], s, qs, n, k);
        crate::poly_laws::lemma_phase3_mod(parts[0], parts[1], parts[2], parts[0], parts[1], parts[2], s, q, n, k);
    }
    let target = phase(parts, s, q)[k];
    let x = if parts.len() == 2 {
        parts[0][k] + negacyclic(parts[1], s, ni)[k]
    } else {
        parts[0][k] + negacyclic(parts[1], s, ni)[k] + negacyclic(parts[2], negacyclic(s, s, ni), ni)[k]
    };
    crate::poly_laws::lemma_mod_transfer(target, x, q, qs, d);
}


/// Modulus switching a fresh encryption keeps its message: the switched
/// ciphertext decrypts, modulo the smaller modulus `qs`, to `m_k` plus the
/// same noise as before, provided `m_k` stays `(2n + 1)·eta` inside
/// `(-qs/2, qs/2)`.
pub proof fn lemma_decrypt_mod_switch(
    n: nat,
    q: int,
    qs: int,
    d: int,
    eta: nat,
    a: Seq<int>,
    s: Seq<int>,
    e: Seq<int>,
    m: Seq<int>,
    u: Seq<int>,
    e1: Seq<int>,
    e2: Seq<int>,
)
    requires
        qs > 0,
        d > 0,
        q == qs * d,
        a.len() == n && s.len() == n && e.len() == n && m.len() == n,
        u.len() == n && e1.len() == n && e2.len() == n,
        is_ternary(s) && is_ternary(u),
        is_small(e, eta as int) && is_small(e1, eta as int) && is_small(e2, eta as int),
        forall|k: int| 0 <= k < n ==> -(qs / 2) + (2 * n + 1) * eta < #[trigger] m[k] < qs / 2 - (2 * n + 1) * eta,
    ensures
        ({
            let b = pneg(padd(pmul(a, s, q), e, q), q);
            let (c0, c1) = encrypt_parts(b, a, m, u, e1, e2, q);
            let ph = phase(switched_parts(seq![c0, c1], qs), s, qs);
            forall|k: int|
                0 <= k < n ==> {
                    &&& #[trigger] ph[k] == m[k] + rlwe_noise(e, s, u, e1, e2, n as int, k)
                    &&& -((2 * n + 1) * eta) <= ph[k] - m[k] <= (2 * n + 1) * eta
                }
        }),
{
    assert(q > 0) by (nonlinear_arith)
        requires
            qs > 0,
            d > 0,
            q == qs * d,
    ;
    let b = pneg(padd(pmul(a, s, q), e, q), q);
    let (c0, c1) = encrypt_parts(b, a, m, u, e1, e2, q);
    let parts = seq![c0, c1];
    let sw = switched_parts(parts, qs);
    let ph = phase(sw, s, qs);
    assert forall|k: int| 0 <= k < n implies {
        &&& #[trigger] ph[k] == m[k] + rlwe_noise(e, s, u, e1, e2, n as int, k)
        &&& -((2 * n + 1) * eta) <= ph[k] - m[k] <= (2 * n + 1) * eta
    } by {
        crate::poly_laws::lemma_rlwe_phase(n, q, eta as int, a, s, e, m, u, e1, e2, k);
        let v = rlwe_noise(e, s, u, e1, e2, n as int, k);
        assert(parts[0].len() == n && parts[1].len() == n);
        lemma_mod_switch_phase(parts, s, q, qs, d, n, k);
        crate::poly_laws::lemma_mod_transfer(phase(parts, s, q)[k], m[k] + v, q, qs, d);
        assert(sw.len() == 2);
        let pre = sw[0][k] + pmul(sw[1], s, qs)[k];
        ring::lemma_centre_value(pre, qs);
        assert(ph[k] == ring::centre_value(pre, qs));
        ring::lemma_centre_exact(pre, m[k] + v, qs);
    }
}

/// Rescaling divides the phase by `d`, up to a small rounding error. For a
/// three-part ciphertext whose phase is `d·mu + nu` modulo `q = qs·d` with
/// `|nu| ≤ nb`, the parts rescaled to `qs` have a phase within
/// `nb/d + 1 + n + n²` of `mu`, provided that stays inside `(-qs/2, qs/2)`.
pub proof fn lemma_rescale_phase(
    parts: Seq<Seq<int>>,
    s: Seq<int>,
    q: int,
    qs: int,
    d: int,
    n: nat,
    k: int,
    mu: int,
    nu: int,
    nb: int,
)
    requires
        qs > 0,
        d > 0,
        q == qs * d,
        parts.len() == 3,
        forall|i: int| 0 <= i < parts.len() ==> (#[trigger] parts[i]).len() == n,
        s.len() == n,
        is_ternary(s),
        0 <= k < n,
        phase(parts, s, q)[k] % q == (d * mu + nu) % q,
        -nb <= nu <= nb,
        -(qs / 2) + (nb / d + 1 + n + n * n) < mu < qs / 2 - (nb / d + 1 + n + n * n),
    ensures
        ({
            let ph = phase(parts.map_values(|p: Seq<int>| rescaled(p, d, qs)), s, qs);
            -(nb / d + 1 + n + n * n) <= ph[k] - mu <= nb / d + 1 + n + n * n
        }),
{
    let ni = n as int;
    assert(q > 0) by (nonlinear_arith)
        requires
            qs > 0,
            d > 0,
            q == qs * d,
    ;
    let np = parts.map_values(|p: Seq<int>| rescaled(p, d, qs));
    let ph = phase(np, s, qs);
    let (p0, p1, p2) = (parts[0], parts[1], parts[2]);
    let (r0, r1, r2) = (
        crate::poly_laws::rounded_values(p0, 1, d),
        crate::poly_laws::rounded_values(p1, 1, d),
        crate::poly_laws::rounded_values(p2, 1, d),
    );
    assert(p0.len() == n && p1.len() == n && p2.len() == n);
    assert(np =~= seq![np[0], np[1], np[2]]);
    assert(parts =~= seq![p0, p1, p2]);
    assert forall|j: int| 0 <= j < ni implies #[trigger] np[0][j] % qs == r0[j] % qs by {
        assert(p0[j] * 1 == p0[j]);
        ring::lemma_centre_value(round_div_value(p0[j], d), qs);
    }
    assert forall|j: int| 0 <= j < ni implies #[trigger] np[1][j] % qs == r1[j] % qs by {
        assert(p1[j] * 1 == p1[j]);
        ring::lemma_centre_value(round_div_value(p1[j], d), qs);
    }
    assert forall|j: int| 0 <= j < ni implies #[trigger] np[2][j] % qs == r2[j] % qs by {
        assert(p2[j] * 1 == p2[j]);
        ring::lemma_centre_value(round_div_value(p2[j], d), qs);
    }
    crate::poly_laws::lemma_phase3_mod(np[0], np[1], np[2], r0, r1, r2, s, qs, n, k);
    crate::poly_laws::lemma_phase3_mod(p0, p1, p2, p0, p1, p2, s, q, n, k);
    crate::poly_laws::lemma_rescale_error(p0, p1, p2, s, 1, d, n, k);
    let s2 = negacyclic(s, s, ni);
    let rp = r0[k] + negacyclic(r1, s, ni)[k] + negacyclic(r2, s2, ni)[k];
    let dp = p0[k] + negacyclic(p1, s, ni)[k] + negacyclic(p2, s2, ni)[k];
    let c = 1 + ni + ni * ni;
    let err = d * rp - dp;
    assert(-(d * c) <= err <= d * c);
    // dp = d·mu + nu + q·j
    vstd::arithmetic::div_mod::lemma_mod_equivalence(dp, d * mu + nu, q);
    vstd::arithmetic::div_mod::lemma_fundamental_div_mod(dp - (d * mu + nu), q);
    let j = (dp - (d * mu + nu)) / q;
    let x = rp - mu - qs * j;
    assert(d * x == nu + err) by (nonlinear_arith)
        requires
            dp - (d * mu + nu) == q * j,
            err == d * rp - dp,
            x == rp - mu - qs * j,
            q == qs * d,
    ;
    // |x| ≤ nb/d + c
    vstd::arithmetic::div_mod::lemma_fundamental_div_mod(nb, d);
    assert(nb >= 0);
    assert(-(nb / d + c) <= x <= nb / d + c) by (nonlinear_arith)
        requires
            d * x == nu + err,
            -nb <= nu <= nb,
            -(d * c) <= err <= d * c,
            nb == d * (nb / d) + nb % d,
            0 <= nb % d < d,
            d > 0,
    ;
    // ph ≡ rp ≡ mu + x (mod qs), and it is centred
    vstd::arithmetic::div_mod::lemma_mod_multiples_vanish(j, mu + x, qs);
    assert(rp == qs * j + (mu + x));
    let pre = padd(np[0], pmul(np[1], s, qs), qs)[k] + pmul(np[2], pmul(s, s, qs), qs)[k];
    ring::lemma_centre_value(pre, qs);
    assert(ph[k] == ring::centre_value(pre, qs));
    ring::lemma_centre_exact(pre, mu + x, qs);
}


/// Multiplication followed by a rescale decrypts close to the product at the
/// scale of the factors: with `q = qs·d`, the rescaled product of two fresh
/// encryptions of `m1`, `m2` (coefficients at most `mb`) has a phase within
/// `(mul_noise_bound + d)/d + 1 + n + n²` of `⌊(m1·m2)_k / d⌋`, provided
/// the product and its rescaled value keep those margins inside the moduli.
pub proof fn lemma_decrypt_mul_rescale(
    n: nat,
    qs: int,
    d: int,
    eta: nat,
    a: Seq<int>,
    s: Seq<int>,
    e: Seq<int>,
    m1: Seq<int>,
    u1: Seq<int>,
    e11: Seq<int>,
    e21: Seq<int>,
    m2: Seq<int>,
    u2: Seq<int>,
    e12: Seq<int>,
    e22: Seq<int>,
    mb: int,
)
    requires
        qs > 0,
        d > 0,
        a.len() == n && s.len() == n && e.len() == n && m1.len() == n && m2.len() == n,
        u1.len() == n && e11.len() == n && e21.len() == n,
        u2.len() == n && e12.len() == n && e22.len() == n,
        is_ternary(s) && is_ternary(u1) && is_ternary(u2),
        is_small(e, eta as int) && is_small(e11, eta as int) && is_small(e21, eta as int),
        is_small(e12, eta as int) && is_small(e22, eta as int),
        forall|j: int| #![trigger m1[j]] 0 <= j < n ==> -mb <= m1[j] <= mb && -mb <= m2[j] <= mb,
        forall|k: int|
            0 <= k < n ==> -((qs * d) / 2) + mul_noise_bound(n as int, eta as int, mb) < #[trigger] negacyclic(
                m1,
                m2,
                n as int,
            )[k] < (qs * d) / 2 - mul_noise_bound(n as int, eta as int, mb),
        forall|k: int|
            0 <= k < n ==> -(qs / 2) + ((mul_noise_bound(n as int, eta as int, mb) + d) / d + 1 + n + n * n)
                < #[trigger] negacyclic(m1, m2, n as int)[k] / d < qs / 2 - ((mul_noise_bound(
                n as int,
                eta as int,
                mb,
            ) + d) / d + 1 + n + n * n),
    ensures
        ({
            let q = qs * d;
            let ni = n as int;
            let b = pneg(padd(pmul(a, s, q), e, q), q);
            let (c0, c1) = encrypt_parts(b, a, m1, u1, e11, e21, q);
            let (d0, d1) = encrypt_parts(b, a, m2, u2, e12, e22, q);
            let parts = seq![pmul(c0, d0, q), padd(pmul(c0, d1, q), pmul(c1, d0, q), q), pmul(c1, d1, q)];
            let ph = phase(parts.map_values(|p: Seq<int>| rescaled(p, d, qs)), s, qs);
            let prod = negacyclic(m1, m2, ni);
            let bound = (mul_noise_bound(ni, eta as int, mb) + d) / d + 1 + n + n * n;
            forall|k: int| 0 <= k < n ==> -bound <= #[trigger] ph[k] - prod[k] / d <= bound
        }),
{
    let q = qs * d;
    let ni = n as int;
    assert(q > 0) by (nonlinear_arith)
        requires
            qs > 0,
            d > 0,
            q == qs * d,
    ;
    let b = pneg(padd(pmul(a, s, q), e, q), q);
    let (c0, c1) = encrypt_parts(b, a, m1, u1, e11, e21, q);
    let (d0, d1) = encrypt_parts(b, a, m2, u2, e12, e22, q);
    let parts = seq![pmul(c0, d0, q), padd(pmul(c0, d1, q), pmul(c1, d0, q), q), pmul(c1, d1, q)];
    let ph = phase(parts.map_values(|p: Seq<int>| rescaled(p, d, qs)), s, qs);
    let prod = negacyclic(m1, m2, ni);
    let nb = mul_noise_bound(ni, eta as int, mb);
    let bound = (nb + d) / d + 1 + n + n * n;
    lemma_decrypt_mul(n, q, eta, a, s, e, m1, u1, e11, e21, m2, u2, e12, e22, mb);
    let ph3 = phase(parts, s, q);
    assert forall|k: int| 0 <= k < n implies -bound <= #[trigger] ph[k] - prod[k] / d <= bound by {
        assert(-nb <= ph3[k] - prod[k] <= nb);
        let mu = prod[k] / d;
        let nu = ph3[k] - d * mu;
        vstd::arithmetic::div_mod::lemma_fundamental_div_mod(prod[k], d);
        assert(-(nb + d) <= nu <= nb + d);
        assert(prod[k] / d == mu);
        assert(parts[0].len() == n && parts[1].len() == n && parts[2].len() == n);
        assert(d * mu + nu == ph3[k]);
        lemma_rescale_phase(parts, s, q, qs, d, n, k, mu, nu, nb + d);
    }
}

} // verus!
