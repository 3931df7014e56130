//! # BGN-style "one multiplication" scheme (toy)
//!
//! ElGamal in the exponent over `ℤ_p*` for a safe prime `p = 2q + 1`:
//! `Enc(m) = (g^m · h^r, g^r)` with `h = g^x`. Level-1 ciphertexts add by
//! component-wise multiplication; decryption computes `g^m = a · (b^x)^{-1}`
//! and finds `m < bound` by baby-step giant-step. The level-2 "product"
//! bundles two level-1 ciphertexts; its decryption opens both with the
//! secret key and recovers the product of the two plaintexts. Key
//! generation tests `q` and `p` with Miller–Rabin. In a well-formed group
//! ([`group_ok`]), decryption of an encryption of `m` below the bound finds
//! exactly `m`.

use vstd::prelude::*;
use vstd::arithmetic::power::pow;
use vstd::arithmetic::power2::pow2;
use crate::bigint::UBig;
use crate::util;
use crate::primes::{is_prime, no_small_order};
use crate::bigint::gcd;

verus! {

/// Public parameters for the toy BGN scheme.
#[derive(Clone, Debug)]
pub struct PublicKey {
    /// Prime modulus.
    pub p: UBig,
    /// Order of the working subgroup.
    pub q: UBig,
    /// Generator `g` of the subgroup.
    pub g: UBig,
    /// A second generator `h = g^x` for secret `x`.
    pub h: UBig,
    /// The maximum plaintext we expect to decrypt.
    pub bound: u64,
}

/// The secret key: discrete log relating `h` to `g`.
#[derive(Clone, Debug)]
pub struct SecretKey {
    /// `x` such that `h = g^x mod p`.
    pub x: UBig,
    /// Public parameters.
    pub pk: PublicKey,
}

/// Level-1 (additive-only) ciphertext.
#[derive(Clone, Debug)]
pub struct CiphertextL1 {
    /// `g^m · h^r mod p`.
    pub a: UBig,
    /// `g^r mod p`.
    pub b: UBig,
}

/// Level-2 ciphertext: the four group elements of two level-1 ciphertexts.
#[derive(Clone, Debug)]
pub struct CiphertextL2 {
    /// First ciphertext's `a`.
    pub a: UBig,
    /// Second ciphertext's `a`.
    pub b: UBig,
    /// First ciphertext's `b`.
    pub c: UBig,
    /// Second ciphertext's `b`.
    pub d: UBig,
}

impl PublicKey {
    pub fn copy(&self) -> (r: PublicKey)
        ensures
            r.p@ == self.p@,
            r.q@ == self.q@,
            r.g@ == self.g@,
            r.h@ == self.h@,
            r.bound == self.bound,
    {
        PublicKey {
            p: self.p.copy(),
            q: self.q.copy(),
            g: self.g.copy(),
            h: self.h.copy(),
            bound: self.bound,
        }
    }
}

/// Generate a toy BGN key pair with a `bits`-bit modulus `p = 2q + 1`.
///
/// Primes `q` (of `bits - 1` bits, from the prime search) are drawn until
/// `2q + 1` also passes 40 Miller–Rabin rounds; should 2^64 draws fail, the
/// result is `None`. The generator is the square of a random element other
/// than 0 and 1 whose square is not 1; should 2^64 draws fail, the square of
/// 2 is used.
pub fn keygen(bits: u64, bound: u64) -> (r: Option<(PublicKey, SecretKey)>)
    requires
        3 <= bits <= 0x1_0000_0000,
    ensures
        r matches Some((pk, sk)) ==> {
            &&& pk.p@ == 2 * pk.q@ + 1
            &&& pow2((bits - 2) as nat) <= pk.q@ < pow2((bits - 1) as nat)
            &&& pk.q@ % 2 == 1
            &&& key_of_group(pk, sk, pk.q@, pk.g@, sk.x@, bound)
            &&& util::prime_tested(pk.q@)
            &&& util::mr_certified(pk.p@, 40)
            &&& exists|c: nat| 1 < c < pk.p@ && pk.g@ == #[trigger] ((c * c) % pk.p@) && pk.g@ != 1
            &&& sk.x@ < pk.q@
            &&& pk.h@ == pow(pk.g@ as int, sk.x@) % (pk.p@ as int)
            &&& pk.bound == bound
            &&& sk.pk.p@ == pk.p@ && sk.pk.q@ == pk.q@ && sk.pk.g@ == pk.g@ && sk.pk.h@ == pk.h@
                && sk.pk.bound == pk.bound
        },
{
    let mut rng = util::rng();
    let one = UBig::from_u64(1);
    let two = UBig::from_u64(2);
    let mut attempts: u64 = 0;
    let mut q = UBig::zero();
    let mut p = UBig::zero();
    loop
        invariant
            3 <= bits <= 0x1_0000_0000,
            one@ == 1,
            two@ == 2,
        ensures
            p@ == 2 * q@ + 1,
            pow2((bits - 2) as nat) <= q@ < pow2((bits - 1) as nat),
            q@ % 2 == 1,
            util::prime_tested(q@),
            util::mr_certified(p@, 40),
        decreases u64::MAX - attempts,
    {
        if let Some(cand) = util::random_prime(&mut rng, bits - 1) {
            let twice = cand.mul(&two).add(&one);
            if util::is_probable_prime(&twice, 40) {
                proof {
                    vstd::arithmetic::power2::lemma_pow2_pos((bits - 2) as nat);
                    vstd::arithmetic::power2::lemma2_to64();
                    vstd::arithmetic::power2::lemma_pow2_strictly_increases(0, (bits - 2) as nat);
                    assert(twice@ % 2 == 1);
                }
                q = cand;
                p = twice;
                break;
            }
        }
        if attempts == u64::MAX {
            return None;
        }
        attempts = attempts + 1;
    }
    proof {
        vstd::arithmetic::power2::lemma_pow2_pos((bits - 2) as nat);
        vstd::arithmetic::power2::lemma2_to64();
        vstd::arithmetic::power2::lemma_pow2_strictly_increases(0, (bits - 2) as nat);
    }
    assert(p@ >= 5);
    let mut g = UBig::from_u64(4);
    proof {
        vstd::arithmetic::div_mod::lemma_small_mod(4, p@);
        assert(g@ == (2 * 2) % p@);
    }
    attempts = 0;
    loop
        invariant
            p@ >= 5,
            one@ == 1,
            two@ == 2,
            exists|c: nat| 1 < c < p@ && g@ == #[trigger] ((c * c) % p@) && g@ != 1,
        decreases u64::MAX - attempts,
    {
        let candidate = util::rand_below(&mut rng, &p);
        if one.lt(&candidate) {
            let sq = candidate.modpow(&two, &p);
            proof {
                assert(pow(candidate@ as int, 2) == candidate@ * candidate@) by {
                    reveal(pow);
                    vstd::arithmetic::power::lemma_pow1(candidate@ as int);
                }
            }
            if !sq.eq(&one) {
                g = sq;
                break;
            }
        }
        if attempts == u64::MAX {
            break;
        }
        attempts = attempts + 1;
    }
    let x = util::rand_below(&mut rng, &q);
    Some(key_from_group(&q, &g, &x, bound))
}

/// The key pair made of the subgroup order `q`, the generator `g`, the
/// secret exponent `x` and the decryption bound: `p = 2q + 1` and
/// `h = g^x mod p`, with the secret key holding `x` and a copy of the public
/// key.
pub open spec fn key_of_group(pk: PublicKey, sk: SecretKey, q: nat, g: nat, x: nat, bound: u64) -> bool {
    &&& pk.q@ == q
    &&& pk.p@ == 2 * q + 1
    &&& pk.g@ == g
    &&& pk.h@ == pow(g as int, x) % ((2 * q + 1) as int)
    &&& pk.bound == bound
    &&& sk.x@ == x
    &&& sk.pk.p@ == pk.p@ && sk.pk.q@ == pk.q@ && sk.pk.g@ == pk.g@ && sk.pk.h@ == pk.h@
        && sk.pk.bound == pk.bound
}

/// Build the key pair of [`key_of_group`] from `q`, `g`, `x` and the bound.
pub fn key_from_group(q: &UBig, g: &UBig, x: &UBig, bound: u64) -> (r: (PublicKey, SecretKey))
    requires
        q@ > 0,
    ensures
        key_of_group(r.0, r.1, q@, g@, x@, bound),
{
    let one = UBig::from_u64(1);
    let two = UBig::from_u64(2);
    let p = q.mul(&two).add(&one);
    let h = g.modpow(x, &p);
    let pk = PublicKey { p, q: q.copy(), g: g.copy(), h, bound };
    let sk = SecretKey { x: x.copy(), pk: pk.copy() };
    (pk, sk)
}

/// Encrypt a plaintext `m` at level 1 with fresh randomness `r < q`.
pub fn encrypt(pk: &PublicKey, m: u64) -> (ct: CiphertextL1)
    requires
        pk.p@ > 1,
        pk.q@ > 0,
    ensures
        exists|r: nat|
            r < pk.q@ && ct.a@ == (pow(pk.g@ as int, m as nat) * pow(pk.h@ as int, r)) % (pk.p@ as int)
                && ct.b@ == #[trigger] pow(pk.g@ as int, r) % (pk.p@ as int),
{
    let mut rng = util::rng();
    let r = util::rand_below(&mut rng, &pk.q);
    let g_m = pk.g.modpow(&UBig::from_u64(m), &pk.p);
    let h_r = pk.h.modpow(&r, &pk.p);
    let a = g_m.mul(&h_r).rem(&pk.p);
    let b = pk.g.modpow(&r, &pk.p);
    proof {
        vstd::arithmetic::div_mod::lemma_mul_mod_noop_general(
            pow(pk.g@ as int, m as nat),
            pow(pk.h@ as int, r@),
            pk.p@ as int,
        );
    }
    CiphertextL1 { a, b }
}

/// Homomorphic addition at level 1: component-wise multiplication mod `p`.
pub fn add_l1(pk: &PublicKey, x: &CiphertextL1, y: &CiphertextL1) -> (r: CiphertextL1)
    requires
        pk.p@ > 0,
    ensures
        r.a@ == (x.a@ * y.a@) % pk.p@,
        r.b@ == (x.b@ * y.b@) % pk.p@,
{
    CiphertextL1 { a: x.a.mul(&y.a).rem(&pk.p), b: x.b.mul(&y.b).rem(&pk.p) }
}

/// The level-1 ciphertext of `m` under randomness `r`: `(g^m · h^r mod p, g^r mod p)`.
pub open spec fn enc_pair(p: nat, g: nat, h: nat, m: nat, r: nat) -> (int, int) {
    (
        (pow(g as int, m) * pow(h as int, r)) % (p as int),
        pow(g as int, r) % (p as int),
    )
}

/// Adding two level-1 ciphertexts gives the ciphertext of the sum of the
/// plaintexts, under the sum of the randomness.
pub proof fn lemma_add_l1_homomorphic(p: nat, g: nat, h: nat, m1: nat, r1: nat, m2: nat, r2: nat)
    requires
        p > 0,
    ensures
        ({
            let (a1, b1) = enc_pair(p, g, h, m1, r1);
            let (a2, b2) = enc_pair(p, g, h, m2, r2);
            ((a1 * a2) % (p as int), (b1 * b2) % (p as int)) == enc_pair(p, g, h, m1 + m2, r1 + r2)
        }),
{
    let pi = p as int;
    let (gm1, hr1, gm2, hr2) = (pow(g as int, m1), pow(h as int, r1), pow(g as int, m2), pow(h as int, r2));
    vstd::arithmetic::power::lemma_pow_adds(g as int, m1, m2);
    vstd::arithmetic::power::lemma_pow_adds(h as int, r1, r2);
    vstd::arithmetic::power::lemma_pow_adds(g as int, r1, r2);
    vstd::arithmetic::div_mod::lemma_mul_mod_noop_general(gm1 * hr1, gm2 * hr2, pi);
    assert((gm1 * hr1) * (gm2 * hr2) == (gm1 * gm2) * (hr1 * hr2)) by (nonlinear_arith);
    vstd::arithmetic::div_mod::lemma_mul_mod_noop_general(pow(g as int, r1), pow(g as int, r2), pi);
}

/// `xs[0] + … + xs[k-1]`.
pub open spec fn sum_upto(xs: Seq<nat>, k: nat) -> nat
    decreases k,
{
    if k == 0 {
        0
    } else {
        sum_upto(xs, (k - 1) as nat) + xs[k - 1]
    }
}

/// The plaintexts as naturals.
pub open spec fn plain_values(ms: Seq<u64>) -> Seq<nat> {
    ms.map_values(|m: u64| m as nat)
}

/// `sum_upto` over the first `k` entries only reads those entries.
proof fn lemma_sum_prefix(xs: Seq<nat>, ys: Seq<nat>, k: nat)
    requires
        k <= xs.len() <= ys.len(),
        forall|j: int| 0 <= j < xs.len() ==> ys[j] == xs[j],
    ensures
        sum_upto(ys, k) == sum_upto(xs, k),
    decreases k,
{
    if k > 0 {
        lemma_sum_prefix(xs, ys, (k - 1) as nat);
    }
}

/// Private aggregation: each value is encrypted at level 1 with fresh
/// randomness below `q`, and the encryptions are added homomorphically. The
/// result holds the individual ciphertexts and their sum, which is the
/// encryption of the sum of the values under the sum of the randomness, so
/// [`decrypt_l1`] gives that sum when it is below the key's bound.
pub fn aggregate_bgn(pk: &PublicKey, ms: &[u64]) -> (r: (Vec<CiphertextL1>, CiphertextL1))
    requires
        pk.p@ > 1,
        pk.q@ > 0,
        ms@.len() > 0,
    ensures
        r.0@.len() == ms@.len(),
        exists|rs: Seq<nat>|
            rs.len() == ms@.len() && (forall|i: int| 0 <= i < rs.len() ==> #[trigger] rs[i] < pk.q@) && (
            forall|i: int|
                0 <= i < ms@.len() ==> ((#[trigger] r.0@[i]).a@ as int, r.0@[i].b@ as int) == enc_pair(
                    pk.p@,
                    pk.g@,
                    pk.h@,
                    ms@[i] as nat,
                    rs[i],
                )) && (r.1.a@ as int, r.1.b@ as int) == #[trigger] enc_pair(
                pk.p@,
                pk.g@,
                pk.h@,
                sum_upto(plain_values(ms@), ms@.len() as nat),
                sum_upto(rs, ms@.len() as nat),
            ),
{
    let ghost (p, g, h) = (pk.p@, pk.g@, pk.h@);
    let ghost mv = plain_values(ms@);
    let first = encrypt(pk, ms[0]);
    let ghost r0 = choose|r: nat|
        r < pk.q@ && first.a@ == (pow(g as int, ms@[0] as nat) * pow(h as int, r)) % (p as int) && first.b@
            == #[trigger] pow(g as int, r) % (p as int);
    let ghost mut rs: Seq<nat> = seq![r0];
    let mut acc = CiphertextL1 { a: first.a.copy(), b: first.b.copy() };
    let mut cts: Vec<CiphertextL1> = Vec::new();
    cts.push(first);
    proof {
        assert(mv[0] == ms@[0] as nat);
        assert(sum_upto(mv, 0) == 0);
        assert(sum_upto(rs, 0) == 0);
        assert(sum_upto(mv, 1) == mv[0]);
        assert(sum_upto(rs, 1) == r0);
    }
    let mut i: usize = 1;
    while i < ms.len()
        invariant
            p == pk.p@ && g == pk.g@ && h == pk.h@,
            p > 1,
            mv == plain_values(ms@),
            1 <= i <= ms@.len(),
            rs.len() == i,
            cts@.len() == i,
            forall|j: int| 0 <= j < rs.len() ==> #[trigger] rs[j] < pk.q@,
            forall|j: int|
                0 <= j < i ==> ((#[trigger] cts@[j]).a@ as int, cts@[j].b@ as int) == enc_pair(
                    p,
                    g,
                    h,
                    ms@[j] as nat,
                    rs[j],
                ),
            (acc.a@ as int, acc.b@ as int) == enc_pair(p, g, h, sum_upto(mv, i as nat), sum_upto(rs, i as nat)),
        decreases ms.len() - i,
    {
        let ct = encrypt(pk, ms[i]);
        let ghost ri = choose|r: nat|
            r < pk.q@ && ct.a@ == (pow(g as int, ms@[i as int] as nat) * pow(h as int, r)) % (p as int)
                && ct.b@ == #[trigger] pow(g as int, r) % (p as int);
        proof {
            lemma_add_l1_homomorphic(p, g, h, sum_upto(mv, i as nat), sum_upto(rs, i as nat), ms@[i as int] as nat, ri);
        }
        acc = add_l1(pk, &acc, &ct);
        proof {
            let rs2 = rs.push(ri);
            lemma_sum_prefix(rs, rs2, i as nat);
            assert(mv[i as int] == ms@[i as int] as nat);
            assert(sum_upto(mv, (i + 1) as nat) == sum_upto(mv, i as nat) + ms@[i as int] as nat);
            assert(sum_upto(rs2, (i + 1) as nat) == sum_upto(rs, i as nat) + ri);
            assert forall|j: int| 0 <= j < rs2.len() implies #[trigger] rs2[j] < pk.q@ by {
                if j < i {
                    assert(rs2[j] == rs[j]);
                }
            }
            rs = rs2;
        }
        cts.push(ct);
        i = i + 1;
    }
    (cts, acc)
}

/// The group a key works in: `p = 2q + 1` with `p` and `q` prime (keygen
/// tests both with Miller–Rabin), `g` a square other than 1 modulo `p`, and
/// `h = g^x mod p`.
pub open spec fn group_ok(p: nat, q: nat, g: nat, h: nat, x: nat) -> bool {
    &&& is_prime(p)
    &&& is_prime(q)
    &&& p == 2 * q + 1
    &&& exists|c: nat| 1 < c < p && g == #[trigger] ((c * c) % p) && g != 1
    &&& h == pow(g as int, x) % (p as int)
}

/// In a well-formed group, `g` is a unit of order `q`.
proof fn lemma_group_generator(p: nat, q: nat, g: nat, h: nat, x: nat)
    requires
        group_ok(p, q, g, h, x),
    ensures
        (g as int) % (p as int) != 0,
        no_small_order(g as int, p, q),
        g < p,
{
    let c = choose|c: nat| 1 < c < p && g == #[trigger] ((c * c) % p) && g != 1;
    crate::primes::lemma_square_order(p, q, c);
    vstd::arithmetic::div_mod::lemma_small_mod(g, p);
}

/// Unmasking an encryption `(A, B) = enc_pair(p, g, h, m, r)`: `B^x ≡ h^r`,
/// and that is a unit modulo `p`.
proof fn lemma_unmask(p: nat, q: nat, g: nat, h: nat, x: nat, m: nat, r: nat, a: nat, b: nat)
    requires
        group_ok(p, q, g, h, x),
        (a as int, b as int) == enc_pair(p, g, h, m, r),
    ensures
        pow(b as int, x) % (p as int) == pow(h as int, r) % (p as int),
        gcd((pow(b as int, x) % (p as int)) as nat, p) == 1,
{
    let pi = p as int;
    let gi = g as int;
    lemma_group_generator(p, q, g, h, x);
    // B^x ≡ (g^r)^x = g^{rx} = (g^x)^r ≡ h^r
    vstd::arithmetic::power::lemma_pow_mod_noop(pow(gi, r), x, pi);
    vstd::arithmetic::power::lemma_pow_mod_noop(pow(gi, x), r, pi);
    vstd::arithmetic::power::lemma_pow_multiplies(gi, r, x);
    vstd::arithmetic::power::lemma_pow_multiplies(gi, x, r);
    assert(r * x == x * r) by (nonlinear_arith);
    let hr = pow(h as int, r) % pi;
    assert(pow(b as int, x) % pi == hr);
    // it is a unit
    crate::primes::lemma_pow_not_divisible(p, gi, x * r);
    vstd::arithmetic::div_mod::lemma_mod_twice(pow(gi, x * r), pi);
    vstd::arithmetic::div_mod::lemma_mod_bound(pow(gi, x * r), pi);
    crate::primes::lemma_prime_coprime(p, hr as nat);
}

/// With `w` an inverse of `h^r` modulo `p`, `(g^m · h^r mod p) · w ≡ g^m`.
proof fn lemma_unmask_inverse(p: nat, g: nat, h: nat, m: nat, r: nat, w: nat)
    requires
        p > 1,
        ((pow(h as int, r) % (p as int)) * w) % (p as int) == 1,
    ensures
        ((enc_pair(p, g, h, m, r).0 * w) % (p as int)) == pow(g as int, m) % (p as int),
{
    let pi = p as int;
    let gm = pow(g as int, m);
    let hrr = pow(h as int, r);
    vstd::arithmetic::div_mod::lemma_mul_mod_noop_left(gm * hrr, w as int, pi);
    assert((gm * hrr) * w == gm * (hrr * w)) by (nonlinear_arith);
    vstd::arithmetic::div_mod::lemma_mul_mod_noop_right(gm, hrr * w, pi);
    vstd::arithmetic::div_mod::lemma_mul_mod_noop_left(hrr, w as int, pi);
    assert(gm * 1 == gm);
}

/// Decrypt a level-1 ciphertext: compute `g^m = a · (b^x)^{-1} mod p` and
/// find `m < bound` by baby-step giant-step. `None` when `b^x` has no
/// inverse or no such `m` is found.
pub fn decrypt_l1(sk: &SecretKey, ct: &CiphertextL1) -> (r: Option<u64>)
    requires
        sk.pk.p@ > 1,
    ensures
        r matches Some(m) ==> m < sk.pk.bound && (pow(sk.pk.g@ as int, m as nat) * pow(
            ct.b@ as int,
            sk.x@,
        )) % (sk.pk.p@ as int) == (ct.a@ as int) % (sk.pk.p@ as int),
        group_ok(sk.pk.p@, sk.pk.q@, sk.pk.g@, sk.pk.h@, sk.x@) && sk.pk.bound <= sk.pk.q@ ==> forall|m: nat, rr: nat|
            m < sk.pk.bound && #[trigger] enc_pair(sk.pk.p@, sk.pk.g@, sk.pk.h@, m, rr) == (
                ct.a@ as int,
                ct.b@ as int,
            ) ==> r == Some(m as u64),
{
    let pk = &sk.pk;
    let ghost good = group_ok(pk.p@, pk.q@, pk.g@, pk.h@, sk.x@) && pk.bound <= pk.q@;
    let b_x = ct.b.modpow(&sk.x, &pk.p);
    proof {
        if good {
            assert forall|m: nat, rr: nat|
                m < sk.pk.bound && #[trigger] enc_pair(pk.p@, pk.g@, pk.h@, m, rr) == (
                    ct.a@ as int,
                    ct.b@ as int,
                ) implies gcd(b_x@, pk.p@) == 1 by {
                lemma_unmask(pk.p@, pk.q@, pk.g@, pk.h@, sk.x@, m, rr, ct.a@, ct.b@);
            }
        }
    }
    let b_x_inv = match util::mod_inverse(&b_x, &pk.p) {
        Some(v) => v,
        None => return None,
    };
    let g_m = ct.a.mul(&b_x_inv).rem(&pk.p);
    let res = bsgs(&pk.g, &g_m, &pk.p, pk.bound);
    proof {
        if good {
            assert forall|m: nat, rr: nat|
                m < sk.pk.bound && #[trigger] enc_pair(pk.p@, pk.g@, pk.h@, m, rr) == (
                    ct.a@ as int,
                    ct.b@ as int,
                ) implies res == Some(m as u64) by {
                lemma_unmask(pk.p@, pk.q@, pk.g@, pk.h@, sk.x@, m, rr, ct.a@, ct.b@);
                lemma_group_generator(pk.p@, pk.q@, pk.g@, pk.h@, sk.x@);
                vstd::arithmetic::div_mod::lemma_small_mod(1, pk.p@);
                lemma_unmask_inverse(pk.p@, pk.g@, pk.h@, m, rr, b_x_inv@);
                assert(pk.bound < pk.q@ * pk.q@) by (nonlinear_arith)
                    requires
                        pk.bound <= pk.q@,
                        pk.q@ > 1,
                ;
                assert(bsgs_findable(pk.g@ as int, g_m@, pk.p@, pk.bound as nat, pk.q@, m));
            }
        }
    }
    proof {
        if let Some(m) = res {
            vstd::arithmetic::div_mod::lemma_mod_twice((ct.a@ * b_x_inv@) as int, pk.p@ as int);
            vstd::arithmetic::div_mod::lemma_small_mod(1, pk.p@);
            lemma_unblind(
                pow(pk.g@ as int, m as nat),
                ct.a@ as int,
                b_x_inv@ as int,
                pow(ct.b@ as int, sk.x@),
                pk.p@ as int,
            );
        }
    }
    res
}

/// From `y ≡ a·u` and `w·u ≡ 1 (mod p)` follows `y·w ≡ a (mod p)`.
proof fn lemma_unblind(y: int, a: int, u: int, w: int, p: int)
    requires
        p > 1,
        y % p == (a * u) % p,
        ((w % p) * u) % p == 1,
    ensures
        (y * w) % p == a % p,
{
    vstd::arithmetic::div_mod::lemma_mul_mod_noop_general(y, w, p);
    vstd::arithmetic::div_mod::lemma_mul_mod_noop_general(a * u, w, p);
    vstd::arithmetic::div_mod::lemma_mul_mod_noop_general(a, u * w, p);
    vstd::arithmetic::div_mod::lemma_mul_mod_noop_general(u, w, p);
    vstd::arithmetic::div_mod::lemma_mul_mod_noop_general(w % p, u, p);
    assert((a * u) * w == a * (u * w)) by (nonlinear_arith);
    assert((w % p) * u == u * (w % p)) by (nonlinear_arith);
    assert(((u * w) % p) == 1) by {
        vstd::arithmetic::div_mod::lemma_mul_mod_noop_right(u, w, p);
    }
    vstd::arithmetic::div_mod::lemma_mul_mod_noop_right(a, u * w, p);
    assert(a * 1 == a);
}

/// Level-2 multiplication: bundle the four group elements, reduced mod `p`.
pub fn mul(pk: &PublicKey, x: &CiphertextL1, y: &CiphertextL1) -> (r: CiphertextL2)
    requires
        pk.p@ > 0,
    ensures
        r.a@ == x.a@ % pk.p@,
        r.b@ == y.a@ % pk.p@,
        r.c@ == x.b@ % pk.p@,
        r.d@ == y.b@ % pk.p@,
{
    CiphertextL2 { a: x.a.copy(), b: y.a.copy(), c: x.b.copy(), d: y.b.copy() }.into_normalised(&pk.p)
}

impl CiphertextL2 {
    /// Reduce all four components mod `p`.
    fn into_normalised(self, p: &UBig) -> (r: Self)
        requires
            p@ > 0,
        ensures
            r.a@ == self.a@ % p@,
            r.b@ == self.b@ % p@,
            r.c@ == self.c@ % p@,
            r.d@ == self.d@ % p@,
    {
        CiphertextL2 { a: self.a.rem(p), b: self.b.rem(p), c: self.c.rem(p), d: self.d.rem(p) }
    }
}

/// `(a, b)` opens to `m` under the secret key: `m` is below the key's bound
/// and `g^m · b^x ≡ a (mod p)`, what [`decrypt_l1`] checks of its answer.
pub open spec fn l1_opens(sk: SecretKey, a: nat, b: nat, m: nat) -> bool {
    &&& m < sk.pk.bound
    &&& (pow(sk.pk.g@ as int, m) * pow(b as int, sk.x@)) % (sk.pk.p@ as int) == (a as int) % (sk.pk.p@ as int)
}

/// Decrypt a level-2 ciphertext, recovering `m1 · m2`: the two bundled
/// level-1 pairs `(a, c)` and `(b, d)` are each decrypted with the secret
/// key (baby-step giant-step below the bound, so the product lies below
/// `bound²`), and their plaintexts are multiplied. `None` when either pair
/// does not decrypt, or when the product exceeds `u64`.
pub fn decrypt_l2(sk: &SecretKey, ct: &CiphertextL2) -> (r: Option<u64>)
    requires
        sk.pk.p@ > 1,
    ensures
        r matches Some(m) ==> exists|m1: nat, m2: nat|
            #![trigger l1_opens(*sk, ct.a@, ct.c@, m1), l1_opens(*sk, ct.b@, ct.d@, m2)]
            m == m1 * m2 && l1_opens(*sk, ct.a@, ct.c@, m1) && l1_opens(*sk, ct.b@, ct.d@, m2),
        group_ok(sk.pk.p@, sk.pk.q@, sk.pk.g@, sk.pk.h@, sk.x@) && sk.pk.bound <= sk.pk.q@ ==> forall|
            m1: nat,
            r1: nat,
            m2: nat,
            r2: nat,
        |
            #![trigger enc_pair(sk.pk.p@, sk.pk.g@, sk.pk.h@, m1, r1), enc_pair(sk.pk.p@, sk.pk.g@, sk.pk.h@, m2, r2)]
            m1 < sk.pk.bound && m2 < sk.pk.bound && enc_pair(sk.pk.p@, sk.pk.g@, sk.pk.h@, m1, r1) == (
                ct.a@ as int,
                ct.c@ as int,
            ) && enc_pair(sk.pk.p@, sk.pk.g@, sk.pk.h@, m2, r2) == (ct.b@ as int, ct.d@ as int) ==> r == if m1
                * m2 <= u64::MAX {
                Some((m1 * m2) as u64)
            } else {
                None
            },
{
    let first = CiphertextL1 { a: ct.a.copy(), b: ct.c.copy() };
    let second = CiphertextL1 { a: ct.b.copy(), b: ct.d.copy() };
    let m1 = match decrypt_l1(sk, &first) {
        Some(v) => v,
        None => return None,
    };
    let m2 = match decrypt_l1(sk, &second) {
        Some(v) => v,
        None => return None,
    };
    proof {
        assert(l1_opens(*sk, ct.a@, ct.c@, m1 as nat));
        assert(l1_opens(*sk, ct.b@, ct.d@, m2 as nat));
    }
    m1.checked_mul(m2)
}

/// `⌊√v⌋`.
fn isqrt(v: u64) -> (r: u64)
    ensures
        r * r <= v < (r + 1) * (r + 1),
        r < 0x1_0000_0000,
{
    let mut lo: u64 = 0;
    let mut hi: u64 = 0x1_0000_0000;
    assert(0x1_0000_0000 * 0x1_0000_0000 > u64::MAX);
    while hi - lo > 1
        invariant
            lo < hi <= 0x1_0000_0000,
            lo * lo <= v,
            v < hi * hi,
        decreases hi - lo,
    {
        let mid = lo + (hi - lo) / 2;
        assert(mid * mid <= 0x1_0000_0000 * 0x1_0000_0000) by (nonlinear_arith)
            requires
                mid <= 0x1_0000_0000,
        ;
        if (mid as u128) * (mid as u128) <= v as u128 {
            lo = mid;
        } else {
            hi = mid;
        }
    }
    lo
}

/// `1^k = 1`.
proof fn lemma_one_pow(k: nat)
    ensures
        pow(1, k) == 1,
    decreases k,
{
    reveal(pow);
    if k > 0 {
        lemma_one_pow((k - 1) as nat);
    }
}

/// If `t · u^i ≡ g^j` and `e ≡ g^m` with `e · u ≡ 1 (mod p)`, then `t ≡ g^{i·m + j}`.
proof fn lemma_giant_step(t: int, u: int, g: int, e: int, m: nat, i: nat, j: nat, p: int)
    requires
        p > 1,
        (t * pow(u, i)) % p == pow(g, j) % p,
        e == pow(g, m) % p,
        (e * u) % p == 1,
    ensures
        pow(g, i * m + j) % p == t % p,
{
    // (u · g^m)^i ≡ 1
    vstd::arithmetic::div_mod::lemma_mul_mod_noop_left(pow(g, m), u, p);
    assert((pow(g, m) * u) % p == 1);
    vstd::arithmetic::power::lemma_pow_mod_noop(pow(g, m) * u, i, p);
    vstd::arithmetic::div_mod::lemma_small_mod(1, p as nat);
    lemma_one_pow(i);
    assert(pow(pow(g, m) * u, i) % p == 1);
    vstd::arithmetic::power::lemma_pow_distributes(pow(g, m), u, i);
    vstd::arithmetic::power::lemma_pow_multiplies(g, m, i);
    let gmi = pow(g, m * i);
    let ui = pow(u, i);
    assert((gmi * ui) % p == 1);
    // t ≡ t · (g^{mi} · u^i) = (t · u^i) · g^{mi} ≡ g^j · g^{mi}
    vstd::arithmetic::div_mod::lemma_mul_mod_noop_right(t, gmi * ui, p);
    assert(t * (gmi * ui) == (t * ui) * gmi) by (nonlinear_arith);
    vstd::arithmetic::div_mod::lemma_mul_mod_noop_left(t * ui, gmi, p);
    vstd::arithmetic::div_mod::lemma_mul_mod_noop_left(pow(g, j), gmi, p);
    vstd::arithmetic::power::lemma_pow_adds(g, j, m * i);
    assert(pow(g, j) * gmi == pow(g, j + m * i));
    assert(j + m * i == i * m + j) by (nonlinear_arith);
    assert(t * 1 == t);
}

/// From `g^{i·m + j} ≡ t` and `e ≡ g^m` with `e · u ≡ 1 (mod p)` follows `t · u^i ≡ g^j`.
proof fn lemma_giant_step_back(t: int, u: int, g: int, e: int, m: nat, i: nat, j: nat, p: int)
    requires
        p > 1,
        pow(g, i * m + j) % p == t % p,
        e == pow(g, m) % p,
        (e * u) % p == 1,
    ensures
        (t * pow(u, i)) % p == pow(g, j) % p,
{
    vstd::arithmetic::div_mod::lemma_mul_mod_noop_left(pow(g, m), u, p);
    vstd::arithmetic::power::lemma_pow_mod_noop(pow(g, m) * u, i, p);
    vstd::arithmetic::div_mod::lemma_small_mod(1, p as nat);
    lemma_one_pow(i);
    vstd::arithmetic::power::lemma_pow_distributes(pow(g, m), u, i);
    vstd::arithmetic::power::lemma_pow_multiplies(g, m, i);
    let gmi = pow(g, m * i);
    let ui = pow(u, i);
    assert((gmi * ui) % p == 1);
    vstd::arithmetic::power::lemma_pow_adds(g, m * i, j);
    assert(m * i + j == i * m + j) by (nonlinear_arith);
    // t · u^i ≡ g^{mi} · g^j · u^i = g^j · (g^{mi} · u^i) ≡ g^j
    vstd::arithmetic::div_mod::lemma_mul_mod_noop_left(t, ui, p);
    vstd::arithmetic::div_mod::lemma_mul_mod_noop_left(gmi * pow(g, j), ui, p);
    assert((gmi * pow(g, j)) * ui == pow(g, j) * (gmi * ui)) by (nonlinear_arith);
    vstd::arithmetic::div_mod::lemma_mul_mod_noop_right(pow(g, j), gmi * ui, p);
    assert(pow(g, j) * 1 == pow(g, j));
}

/// The inputs on which baby-step giant-step is sure to find `v`: `p` prime,
/// `g` a unit of no order below `k` (with `bound ≤ k` and `bound < k²`),
/// `target` reduced, and `v < bound` with `g^v ≡ target (mod p)`.
pub open spec fn bsgs_findable(g: int, target: nat, p: nat, bound: nat, k: nat, v: nat) -> bool {
    &&& is_prime(p)
    &&& g % (p as int) != 0
    &&& target < p
    &&& bound <= k
    &&& bound < k * k
    &&& no_small_order(g, p, k)
    &&& v < bound
    &&& pow(g, v) % (p as int) == target
}

/// Baby-step giant-step: find `v < bound` with `g^v ≡ target (mod p)`.
///
/// The table holds `g^j mod p` for `j < m` with `m = ⌊√bound⌋ + 1`; the giant
/// steps multiply `target` by `(g^m)^{-1}`. When a value occurs several times
/// in the table, its largest index is used.
fn bsgs(g: &UBig, target: &UBig, p: &UBig, bound: u64) -> (r: Option<u64>)
    requires
        p@ > 1,
    ensures
        r matches Some(v) ==> v < bound && pow(g@ as int, v as nat) % (p@ as int) == (target@ as int) % (p@ as int),
        forall|k: nat, v: nat|
            #[trigger] bsgs_findable(g@ as int, target@, p@, bound as nat, k, v) ==> r == Some(v as u64),
{
    let ghost ok = exists|k: nat, v: nat| #[trigger] bsgs_findable(g@ as int, target@, p@, bound as nat, k, v);
    let ghost (wk, wv): (nat, nat) = choose|k: nat, v: nat| #[trigger] bsgs_findable(g@ as int, target@, p@, bound as nat, k, v);
    let root = isqrt(bound);
    let m = root + 1;
    proof {
        if ok {
            assert(bsgs_findable(g@ as int, target@, p@, bound as nat, wk, wv));
            // m ≤ k, since (m - 1)² ≤ bound < k²
            assert(m <= wk) by (nonlinear_arith)
                requires
                    root * root <= bound,
                    bound < wk * wk,
                    m == root + 1,
            ;
            assert(wv / (m as nat) < m) by (nonlinear_arith)
                requires
                    wv < bound,
                    bound < (root + 1) * (root + 1),
                    m == root + 1,
            ;
            // any two witnesses coincide
            assert forall|k: nat, v: nat| #[trigger] bsgs_findable(g@ as int, target@, p@, bound as nat, k, v) implies v == wv by {
                if v < wv {
                    crate::primes::lemma_distinct_powers(p@, g@ as int, v, wv, wk);
                } else if wv < v {
                    crate::primes::lemma_distinct_powers(p@, g@ as int, wv, v, wk);
                }
            }
        }
    }
    let mut table: Vec<UBig> = Vec::new();
    let mut e = UBig::from_u64(1);
    proof {
        vstd::arithmetic::power::lemma_pow0(g@ as int);
        vstd::arithmetic::div_mod::lemma_small_mod(1, p@);
    }
    for j in 0..m
        invariant
            p@ > 1,
            table.len() == j,
            e@ == pow(g@ as int, j as nat) % (p@ as int),
            forall|k: int| 0 <= k < j ==> #[trigger] table@[k]@ == pow(g@ as int, k as nat) % (p@ as int),
    {
        table.push(e.copy());
        let ne = e.mul(g).rem(p);
        proof {
            vstd::arithmetic::div_mod::lemma_mul_mod_noop_left(pow(g@ as int, j as nat), g@ as int, p@ as int);
            assert(pow(g@ as int, (j + 1) as nat) == g@ * pow(g@ as int, j as nat)) by {
                reveal(pow);
            }
            assert(pow(g@ as int, j as nat) * g@ == g@ * pow(g@ as int, j as nat)) by (nonlinear_arith);
        }
        e = ne;
    }
    let factor_inv = match util::mod_inverse(&e, p) {
        Some(v) => v,
        None => {
            proof {
                if ok {
                    crate::primes::lemma_pow_not_divisible(p@, g@ as int, m as nat);
                    vstd::arithmetic::div_mod::lemma_mod_twice(pow(g@ as int, m as nat), p@ as int);
                    crate::primes::lemma_prime_coprime(p@, e@);
                }
            }
            return None;
        },
    };
    let mut gamma = target.copy();
    proof {
        vstd::arithmetic::power::lemma_pow0(factor_inv@ as int);
        vstd::arithmetic::div_mod::lemma_small_mod(factor_inv@, p@);
    }
    for i in 0..m
        invariant
            p@ > 1,
            table.len() == m,
            forall|k: int| 0 <= k < m ==> #[trigger] table@[k]@ == pow(g@ as int, k as nat) % (p@ as int),
            e@ == pow(g@ as int, m as nat) % (p@ as int),
            (e@ * factor_inv@) % p@ == 1,
            factor_inv@ < p@,
            gamma@ % p@ == (target@ * pow(factor_inv@ as int, i as nat)) % (p@ as int),
            gamma@ < p@ || (i == 0 && gamma@ == target@),
            ok == exists|k: nat, v: nat| #[trigger] bsgs_findable(g@ as int, target@, p@, bound as nat, k, v),
            ok ==> bsgs_findable(g@ as int, target@, p@, bound as nat, wk, wv),
            ok ==> i <= wv / (m as nat) < m,
            ok ==> m <= wk,
            ok ==> forall|k: nat, v: nat| #[trigger] bsgs_findable(g@ as int, target@, p@, bound as nat, k, v) ==> v == wv,
    {
        // look up gamma, preferring the largest index
        let mut found: Option<u64> = None;
        let mut k = m;
        while k > 0 && found.is_none()
            invariant
                k <= m,
                table.len() == m,
                found matches Some(jj) ==> jj < m && table@[jj as int]@ == gamma@,
                found is None ==> forall|kk: int| k <= kk < m ==> #[trigger] table@[kk]@ != gamma@,
            decreases k,
        {
            k = k - 1;
            if table[k as usize].eq(&gamma) {
                found = Some(k);
            }
        }
        proof {
            if ok && i == wv / (m as nat) {
                let wj = wv % (m as nat);
                vstd::arithmetic::div_mod::lemma_fundamental_div_mod(wv as int, m as int);
                assert(wv == (i as nat) * (m as nat) + wj) by (nonlinear_arith)
                    requires
                        wv == (m as nat) * (wv / (m as nat)) + wj,
                        i == wv / (m as nat),
                ;
                vstd::arithmetic::div_mod::lemma_small_mod(target@, p@);
                lemma_giant_step_back(
                    target@ as int,
                    factor_inv@ as int,
                    g@ as int,
                    e@ as int,
                    m as nat,
                    i as nat,
                    wj,
                    p@ as int,
                );
                vstd::arithmetic::div_mod::lemma_small_mod(gamma@, p@);
                assert(gamma@ == pow(g@ as int, wj) % (p@ as int));
                assert(table@[wj as int]@ == gamma@);
                if let Some(jj) = found {
                    if (jj as nat) < wj {
                        crate::primes::lemma_distinct_powers(p@, g@ as int, jj as nat, wj, wk);
                    } else if wj < (jj as nat) {
                        crate::primes::lemma_distinct_powers(p@, g@ as int, wj, jj as nat, wk);
                    }
                    assert(jj == wj);
                } else {
                    assert(table@[wj as int]@ != gamma@);
                }
            }
            assert(ok ==> (found matches Some(jj) ==> (i as nat) * (m as nat) + (jj as nat) <= wv)) by {
                if ok && found is Some {
                    let jj = found->0;
                    if i < wv / (m as nat) {
                        vstd::arithmetic::div_mod::lemma_fundamental_div_mod(wv as int, m as int);
                        assert((i as nat) * (m as nat) + (jj as nat) < wv) by (nonlinear_arith)
                            requires
                                i + 1 <= wv / (m as nat),
                                wv == (m as nat) * (wv / (m as nat)) + wv % (m as nat),
                                wv % (m as nat) >= 0,
                                jj < m,
                        ;
                    }
                    assert((i as nat) * (m as nat) + (jj as nat) <= wv);
                }
            }
        }
        if let Some(j) = found {
            let im = match i.checked_mul(m) {
                Some(v) => v,
                None => return None,
            };
            let value = match im.checked_add(j) {
                Some(v) => v,
                None => return None,
            };
            if value < bound {
                proof {
                    vstd::arithmetic::div_mod::lemma_mod_twice(pow(g@ as int, j as nat), p@ as int);
                    lemma_giant_step(
                        target@ as int,
                        factor_inv@ as int,
                        g@ as int,
                        e@ as int,
                        m as nat,
                        i as nat,
                        j as nat,
                        p@ as int,
                    );
                    assert(value as nat == (i as nat) * (m as nat) + j as nat);
                    if ok {
                        vstd::arithmetic::div_mod::lemma_small_mod(target@, p@);
                        assert(bsgs_findable(g@ as int, target@, p@, bound as nat, wk, value as nat));
                    }
                }
                return Some(value);
            }
        }
        let ng = gamma.mul(&factor_inv).rem(p);
        proof {
            let fi = factor_inv@ as int;
            let pi = p@ as int;
            vstd::arithmetic::div_mod::lemma_mul_mod_noop_left(target@ * pow(fi, i as nat), fi, pi);
            vstd::arithmetic::div_mod::lemma_mul_mod_noop_left(gamma@ as int, fi, pi);
            vstd::arithmetic::div_mod::lemma_mod_twice((gamma@ * fi) as int, pi);
            assert(pow(fi, (i + 1) as nat) == fi * pow(fi, i as nat)) by {
                reveal(pow);
            }
            assert((target@ * pow(fi, i as nat)) * fi == target@ * (fi * pow(fi, i as nat))) by (nonlinear_arith);
        }
        gamma = ng;
    }
    None
}

} // verus!
