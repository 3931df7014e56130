//! # Paillier cryptosystem
//!
//! Keys: `n = p·q`, `λ = lcm(p-1, q-1)`, `μ = L((1+n)^λ mod n²)^{-1} mod n`
//! where `L(x) = (x - 1) / n`. A message `m ∈ ℤ_n` encrypts under randomness
//! `r` to `c = (1 + n)^m · r^n (mod n²)`, computed with the identity
//! `(1 + n)^m ≡ 1 + n·m (mod n²)`.
//!
//! Multiplying ciphertexts adds plaintexts, and raising a ciphertext to the
//! power `k` multiplies its plaintext by `k`; both facts are proved below as
//! statements about [`enc_value`]. For a key whose factors are prime,
//! decryption inverts encryption, also after any number of additions, a
//! scaling or a re-randomisation ([`lemma_decrypt_encrypt`] and the lemmas
//! after it).

use vstd::prelude::*;
use vstd::arithmetic::power::pow;
use crate::bigint::{UBig, gcd, lcm};
use crate::primes::{
    is_prime, lemma_carmichael, lemma_coprime_prime_factor, lemma_coprime_to_product, lemma_euclid,
    lemma_pow_not_divisible, lemma_prime_factor,
};
use crate::util;

verus! {

/// The ciphertext value of `m` under randomness `r` and modulus `n`:
/// `((1 + n·(m mod n)) · r^n) mod n²`.
pub open spec fn enc_value(n: nat, m: nat, r: nat) -> int {
    ((1 + n * (m % n)) * pow(r as int, n)) % ((n * n) as int)
}

/// The Paillier `L` function: `L(x) = (x - 1) / n`.
pub open spec fn l_value(x: nat, n: nat) -> int {
    (x - 1) / (n as int)
}

/// The plaintext that decryption computes: `L(c^λ mod n²) · μ mod n`.
pub open spec fn dec_value(n: nat, lambda: nat, mu: nat, c: nat) -> int {
    (l_value((pow(c as int, lambda) % ((n * n) as int)) as nat, n) * mu) % (n as int)
}

/// The relation between the parts of a freshly generated key pair.
pub open spec fn key_parts(n: nat, lambda: nat, mu: nat, p: nat, q: nat, half_bits: nat) -> bool {
    &&& vstd::arithmetic::power2::pow2((half_bits - 1) as nat) <= p < vstd::arithmetic::power2::pow2(half_bits)
    &&& vstd::arithmetic::power2::pow2((half_bits - 1) as nat) <= q < vstd::arithmetic::power2::pow2(half_bits)
    &&& p % 2 == 1 && q % 2 == 1
    &&& p != q
    &&& n == p * q
    &&& lambda == lcm((p - 1) as nat, (q - 1) as nat)
    &&& mu < n
    &&& (l_value((pow((n + 1) as int, lambda) % ((n * n) as int)) as nat, n) * mu) % (n as int) == 1
}

/// A Paillier public key: just the modulus `n`.
#[derive(Clone, Debug)]
pub struct PublicKey {
    /// RSA-style modulus `n = p · q`.
    pub n: UBig,
}

/// A Paillier secret key: enough to decrypt and a copy of the public key.
#[derive(Clone, Debug)]
pub struct SecretKey {
    /// `λ(n) = lcm(p-1, q-1)`.
    pub lambda: UBig,
    /// Pre-computed `μ = L((1+n)^λ mod n²)^{-1} mod n`.
    pub mu: UBig,
    /// The public part, kept alongside for convenience.
    pub pk: PublicKey,
}

/// A Paillier ciphertext, simply an integer in `ℤ_{n²}`.
#[derive(Clone, Debug)]
pub struct Ciphertext {
    /// The actual ciphertext value `c ∈ ℤ_{n²}`.
    pub c: UBig,
}

impl PublicKey {
    /// Returns `n²`, the modulus of the ciphertext space.
    pub fn n_squared(&self) -> (r: UBig)
        ensures
            r@ == self.n@ * self.n@,
    {
        self.n.mul(&self.n)
    }

    pub fn copy(&self) -> (r: PublicKey)
        ensures
            r.n@ == self.n@,
    {
        PublicKey { n: self.n.copy() }
    }
}

/// The Paillier `L` function.
fn l_function(x: &UBig, n: &UBig) -> (r: UBig)
    requires
        x@ >= 1,
        n@ > 0,
    ensures
        r@ == l_value(x@, n@),
{
    let one = UBig::from_u64(1);
    x.sub(&one).div(n)
}

/// Whether the primes `p` and `q` make a Paillier key: they differ, and
/// `L((1 + n)^λ mod n²)` is invertible modulo `n = p·q`, where
/// `λ = lcm(p - 1, q - 1)`.
pub open spec fn primes_make_key(p: nat, q: nat) -> bool {
    let n = p * q;
    let lambda = lcm((p - 1) as nat, (q - 1) as nat);
    &&& p != q
    &&& gcd(l_value((pow((n + 1) as int, lambda) % ((n * n) as int)) as nat, n) as nat, n) == 1
}

/// The key pair made from the odd `half_bits`-bit numbers `p` and `q`, or
/// `None` when they do not make a key ([`primes_make_key`]).
pub fn key_from_primes(p: &UBig, q: &UBig, half_bits: u64) -> (r: Option<(PublicKey, SecretKey)>)
    requires
        2 <= half_bits,
        vstd::arithmetic::power2::pow2((half_bits - 1) as nat) <= p@ < vstd::arithmetic::power2::pow2(half_bits as nat),
        vstd::arithmetic::power2::pow2((half_bits - 1) as nat) <= q@ < vstd::arithmetic::power2::pow2(half_bits as nat),
        p@ % 2 == 1,
        q@ % 2 == 1,
    ensures
        r is Some <==> primes_make_key(p@, q@),
        r matches Some((pk, sk)) ==> sk.pk.n@ == pk.n@ && key_parts(
            pk.n@,
            sk.lambda@,
            sk.mu@,
            p@,
            q@,
            half_bits as nat,
        ),
{
    if p.eq(q) {
        return None;
    }
    let one = UBig::from_u64(1);
    let n = p.mul(q);
    proof {
        vstd::arithmetic::power2::lemma_pow2_pos((half_bits - 1) as nat);
        assert(p@ * q@ > 1) by (nonlinear_arith)
            requires
                p@ % 2 == 1,
                q@ % 2 == 1,
                p@ != q@,
        ;
    }
    let n_sq = n.mul(&n);
    proof {
        lemma_square_pos(n@ as int);
    }
    let p_minus_1 = p.sub(&one);
    let q_minus_1 = q.sub(&one);
    let lambda = p_minus_1.lcm(&q_minus_1);
    let g = n.add(&one);
    let g_lambda = util::mod_pow(&g, &lambda, &n_sq);
    proof {
        lemma_one_plus_n_pow(n@ as int, lambda@);
        vstd::arithmetic::div_mod::lemma_small_mod(1, n@);
        assert(g@ == n@ + 1);
        assert(g_lambda@ == pow((n@ + 1) as int, lambda@) % ((n@ * n@) as int));
    }
    let l = l_function(&g_lambda, &n);
    assert(l@ == l_value(g_lambda@, n@));
    match util::mod_inverse(&l, &n) {
        Some(mu) => {
            proof {
                assert((l@ * mu@) % n@ == 1);
                assert(key_parts(n@, lambda@, mu@, p@, q@, half_bits as nat));
            }
            let pk = PublicKey { n };
            let sk = SecretKey { lambda, mu, pk: pk.copy() };
            Some((pk, sk))
        },
        None => None,
    }
}

/// Generate a fresh Paillier key pair with a modulus of `bits` bits.
///
/// Primes of `bits / 2` bits are drawn until two of them make a key
/// ([`key_from_primes`]). The result is `None` only if 2^64 such attempts all
/// fail (an attempt also fails when a prime search gives up).
pub fn keygen(bits: u64) -> (r: Option<(PublicKey, SecretKey)>)
    requires
        4 <= bits,
        bits / 2 <= 0xffff_ffff,
    ensures
        r matches Some((pk, sk)) ==> sk.pk.n@ == pk.n@,
        r matches Some((pk, sk)) ==> exists|p: nat, q: nat| #[trigger] key_parts(
            pk.n@,
            sk.lambda@,
            sk.mu@,
            p,
            q,
            (bits / 2) as nat,
        ),
        r matches Some((pk, sk)) ==> exists|p: nat, q: nat| #[trigger] key_parts(
            pk.n@,
            sk.lambda@,
            sk.mu@,
            p,
            q,
            (bits / 2) as nat,
        ) && util::prime_tested(p) && util::prime_tested(q),
{
    let mut rng = util::rng();
    let half = bits / 2;
    let mut attempts: u64 = 0;
    loop
        invariant
            2 <= half <= 0xffff_ffff,
            half == bits / 2,
        decreases u64::MAX - attempts,
    {
        let drawn_p = util::random_prime(&mut rng, half);
        let drawn_q = util::random_prime(&mut rng, half);
        if let (Some(p), Some(q)) = (drawn_p, drawn_q) {
            let made = key_from_primes(&p, &q, half);
            if let Some((pk, sk)) = made {
                let ghost (pp, qq) = (p@, q@);
                assert(key_parts(pk.n@, sk.lambda@, sk.mu@, pp, qq, (bits / 2) as nat));
                return Some((pk, sk));
            }
        }
        if attempts == u64::MAX {
            return None;
        }
        attempts = attempts + 1;
    }
}

/// `(1 + n)^k mod n²` is `1 + k·n mod n²`; in particular it is never zero for `n > 1`.
pub proof fn lemma_one_plus_n_pow(n: int, k: nat)
    requires
        n > 1,
    ensures
        pow(1 + n, k) % (n * n) == (1 + k * n) % (n * n),
        pow(1 + n, k) % (n * n) != 0,
{
    let nn = n * n;
    lemma_square_pos(n);
    lemma_one_plus_na_pow(n, 1, k);
    assert(1 + n * 1 == 1 + n);
    assert(1 + k * 1 * n == 1 + k * n);
    // the residue 1 + k·n mod n² is 1 mod n, hence not 0
    let kn = (1 + k * n) % nn;
    vstd::arithmetic::div_mod::lemma_fundamental_div_mod(1 + k * n, nn);
    if kn == 0 {
        let t = (1 + k * n) / nn;
        assert(1 + k * n == nn * t);
        assert(n * (n * t - k) == 1) by (nonlinear_arith)
            requires
                1 + k * n == nn * t,
                nn == n * n,
        ;
        assert(false) by (nonlinear_arith)
            requires
                n * (n * t - k) == 1,
                n > 1,
        ;
    }
}

/// Encrypt a message. The randomness is drawn fresh, coprime to `n`.
pub fn encrypt(pk: &PublicKey, m: &UBig) -> (ct: Ciphertext)
    requires
        pk.n@ > 1,
    ensures
        exists|r: nat|
            1 <= r < pk.n@ && crate::bigint::gcd(r, pk.n@) == 1 && ct.c@ == #[trigger] enc_value(
                pk.n@,
                m@,
                r,
            ),
{
    let mut rng = util::rng();
    let r = util::rand_coprime(&mut rng, &pk.n);
    let ct = encrypt_with_randomness(pk, m, &r);
    assert(ct.c@ == enc_value(pk.n@, m@, r@));
    ct
}

/// Encrypt with caller-chosen randomness `r`.
pub fn encrypt_with_randomness(pk: &PublicKey, m: &UBig, r: &UBig) -> (ct: Ciphertext)
    requires
        pk.n@ > 0,
    ensures
        ct.c@ == enc_value(pk.n@, m@, r@),
{
    let n_sq = pk.n_squared();
    proof {
        lemma_square_pos(pk.n@ as int);
    }
    let m_reduced = m.rem(&pk.n);
    let one = UBig::from_u64(1);
    let g_to_m = one.add(&pk.n.mul(&m_reduced)).rem(&n_sq);
    let r_to_n = util::mod_pow(r, &pk.n, &n_sq);
    let c = g_to_m.mul(&r_to_n).rem(&n_sq);
    proof {
        let nn = n_sq@ as int;
        let a = (1 + pk.n@ * m_reduced@) as int;
        let p = pow(r@ as int, pk.n@);
        if pk.n@ > 1 {
            vstd::arithmetic::div_mod::lemma_mul_mod_noop_general(a, p, nn);
        } else {
            assert(nn == 1);
            vstd::arithmetic::div_mod::lemma_small_mod(0, 1);
        }
    }
    Ciphertext { c }
}

/// Decrypt a ciphertext back into `ℤ_n`.
pub fn decrypt(sk: &SecretKey, ct: &Ciphertext) -> (m: UBig)
    requires
        sk.pk.n@ > 1,
        pow(ct.c@ as int, sk.lambda@) % ((sk.pk.n@ * sk.pk.n@) as int) != 0,
    ensures
        m@ == dec_value(sk.pk.n@, sk.lambda@, sk.mu@, ct.c@),
{
    let n_sq = sk.pk.n_squared();
    proof {
        assert(n_sq@ > 1) by (nonlinear_arith)
            requires
                n_sq@ == sk.pk.n@ * sk.pk.n@,
                sk.pk.n@ > 1,
        ;
    }
    let c_lambda = util::mod_pow(&ct.c, &sk.lambda, &n_sq);
    let l = l_function(&c_lambda, &sk.pk.n);
    l.mul(&sk.mu).rem(&sk.pk.n)
}

/// Homomorphic addition of two ciphertexts: their product mod `n²`.
pub fn add(pk: &PublicKey, a: &Ciphertext, b: &Ciphertext) -> (r: Ciphertext)
    requires
        pk.n@ > 0,
    ensures
        r.c@ == (a.c@ * b.c@) % (pk.n@ * pk.n@),
{
    let n_sq = pk.n_squared();
    proof {
        assert(n_sq@ > 0) by (nonlinear_arith)
            requires
                n_sq@ == pk.n@ * pk.n@,
                pk.n@ > 0,
        ;
    }
    Ciphertext { c: a.c.mul(&b.c).rem(&n_sq) }
}

/// The values of a sequence of big naturals.
pub open spec fn ubig_values(ms: Seq<UBig>) -> Seq<nat> {
    ms.map_values(|m: UBig| m@)
}

/// Randomness as `encrypt` draws it: each value in `[1, n)` and coprime to `n`.
pub open spec fn fresh_randomness(n: nat, rs: Seq<nat>) -> bool {
    forall|i: int| 0 <= i < rs.len() ==> 1 <= #[trigger] rs[i] < n && gcd(rs[i], n) == 1
}

/// Private aggregation: each value is encrypted with fresh randomness, and
/// the encryptions are added homomorphically (multiplied modulo `n²`). The
/// result holds the individual ciphertexts and their sum, which encrypts the
/// sum of the values ([`lemma_decrypt_add_many`] decrypts it).
pub fn aggregate_paillier(pk: &PublicKey, ms: &[UBig]) -> (r: (Vec<Ciphertext>, Ciphertext))
    requires
        pk.n@ > 1,
        ms@.len() > 0,
    ensures
        r.0@.len() == ms@.len(),
        exists|rs: Seq<nat>|
            #[trigger] fresh_randomness(pk.n@, rs) && rs.len() == ms@.len() && (forall|i: int|
                0 <= i < ms@.len() ==> (#[trigger] r.0@[i]).c@ == enc_value(pk.n@, ms@[i]@, rs[i]))
                && r.1.c@ == enc_product(pk.n@, ubig_values(ms@), rs, ms@.len() as nat) && r.1.c@
                == enc_value(pk.n@, sum_of(ubig_values(ms@), ms@.len() as nat), product_of(rs, ms@.len() as nat)),
{
    let ghost n = pk.n@;
    let ghost mv = ubig_values(ms@);
    let ghost nn = (n * n) as int;
    proof {
        lemma_square_pos(n as int);
    }
    let first = encrypt(pk, &ms[0]);
    let ghost r0 = choose|r: nat| 1 <= r < n && gcd(r, n) == 1 && first.c@ == #[trigger] enc_value(n, ms@[0]@, r);
    let ghost mut rs: Seq<nat> = seq![r0];
    let mut acc = Ciphertext { c: first.c.copy() };
    let mut cts: Vec<Ciphertext> = Vec::new();
    cts.push(first);
    proof {
        assert(mv[0] == ms@[0]@);
        vstd::arithmetic::div_mod::lemma_small_mod(1, nn as nat);
        let e = enc_value(n, mv[0], r0);
        vstd::arithmetic::div_mod::lemma_mod_twice(((1 + n * (mv[0] % n)) * pow(r0 as int, n)) as int, nn);
        assert(enc_product(n, mv, rs, 0) == 1);
        assert(1 * e == e);
        assert(enc_product(n, mv, rs, 1) == e);
    }
    let mut i: usize = 1;
    while i < ms.len()
        invariant
            n == pk.n@,
            n > 1,
            nn == n * n,
            mv == ubig_values(ms@),
            1 <= i <= ms@.len(),
            rs.len() == i,
            cts@.len() == i,
            fresh_randomness(n, rs),
            forall|j: int| 0 <= j < i ==> (#[trigger] cts@[j]).c@ == enc_value(n, ms@[j]@, rs[j]),
            acc.c@ == enc_product(n, mv, rs, i as nat),
        decreases ms.len() - i,
    {
        let ct = encrypt(pk, &ms[i]);
        let ghost ri = choose|r: nat| 1 <= r < n && gcd(r, n) == 1 && ct.c@ == #[trigger] enc_value(n, ms@[i as int]@, r);
        acc = self::add(pk, &acc, &ct);
        proof {
            let rs2 = rs.push(ri);
            assert(mv[i as int] == ms@[i as int]@);
            assert forall|k: nat| k <= i implies #[trigger] enc_product(n, mv, rs2, k) == enc_product(n, mv, rs, k) by {
                lemma_enc_product_prefix(n, mv, rs, rs2, k);
            }
            assert(enc_product(n, mv, rs2, (i + 1) as nat) == (enc_product(n, mv, rs2, i as nat) * enc_value(n, mv[i as int], rs2[i as int])) % nn);
            assert forall|j: int| 0 <= j < rs2.len() implies 1 <= #[trigger] rs2[j] < n && gcd(rs2[j], n) == 1 by {
                if j < i {
                    assert(rs2[j] == rs[j]);
                }
            }
            rs = rs2;
        }
        cts.push(ct);
        i = i + 1;
    }
    proof {
        lemma_add_many(n, mv, rs, ms@.len() as nat);
    }
    (cts, acc)
}

/// `enc_product` over the first `k` entries only reads those entries.
proof fn lemma_enc_product_prefix(n: nat, ms: Seq<nat>, rs: Seq<nat>, rs2: Seq<nat>, k: nat)
    requires
        k <= rs.len() <= rs2.len(),
        forall|j: int| 0 <= j < rs.len() ==> rs2[j] == rs[j],
    ensures
        enc_product(n, ms, rs2, k) == enc_product(n, ms, rs, k),
    decreases k,
{
    if k > 0 {
        lemma_enc_product_prefix(n, ms, rs, rs2, (k - 1) as nat);
        assert(rs2[k - 1] == rs[k - 1]);
    }
}

/// Homomorphic addition of a plaintext `k`: multiply by `1 + n·k mod n²`.
pub fn add_plain(pk: &PublicKey, ct: &Ciphertext, k: &UBig) -> (r: Ciphertext)
    requires
        pk.n@ > 0,
    ensures
        r.c@ == (ct.c@ * ((1 + pk.n@ * (k@ % pk.n@)) % (pk.n@ * pk.n@))) % (pk.n@ * pk.n@),
{
    let n_sq = pk.n_squared();
    proof {
        assert(n_sq@ > 0) by (nonlinear_arith)
            requires
                n_sq@ == pk.n@ * pk.n@,
                pk.n@ > 0,
        ;
    }
    let one = UBig::from_u64(1);
    let factor = one.add(&pk.n.mul(&k.rem(&pk.n))).rem(&n_sq);
    Ciphertext { c: ct.c.mul(&factor).rem(&n_sq) }
}

/// Homomorphic multiplication by a plaintext scalar: `c^k mod n²`.
pub fn mul_plain(pk: &PublicKey, ct: &Ciphertext, k: &UBig) -> (r: Ciphertext)
    requires
        pk.n@ > 0,
    ensures
        pk.n@ > 1 ==> r.c@ == pow(ct.c@ as int, k@) % ((pk.n@ * pk.n@) as int),
{
    let n_sq = pk.n_squared();
    proof {
        assert(n_sq@ > 0 && (pk.n@ > 1 ==> n_sq@ > 1)) by (nonlinear_arith)
            requires
                n_sq@ == pk.n@ * pk.n@,
                pk.n@ > 0,
        ;
    }
    Ciphertext { c: util::mod_pow(&ct.c, k, &n_sq) }
}

/// Re-randomise a ciphertext: multiply by `r^n mod n²` for a fresh `r` coprime to `n`.
pub fn rerandomize(pk: &PublicKey, ct: &Ciphertext) -> (r: Ciphertext)
    requires
        pk.n@ > 1,
    ensures
        exists|s: nat|
            1 <= s < pk.n@ && crate::bigint::gcd(s, pk.n@) == 1 && r.c@ == #[trigger] ((ct.c@
                * (pow(s as int, pk.n@) % ((pk.n@ * pk.n@) as int))) % ((pk.n@ * pk.n@) as int)),
{
    let mut rng = util::rng();
    let s = util::rand_coprime(&mut rng, &pk.n);
    let n_sq = pk.n_squared();
    proof {
        assert(n_sq@ > 1) by (nonlinear_arith)
            requires
                n_sq@ == pk.n@ * pk.n@,
                pk.n@ > 1,
        ;
    }
    let r_to_n = util::mod_pow(&s, &pk.n, &n_sq);
    let c = ct.c.mul(&r_to_n).rem(&n_sq);
    Ciphertext { c }
}

// ---------------------------------------------------------------------------
// Homomorphic properties
// ---------------------------------------------------------------------------

/// Multiplying the encryptions of `m1` and `m2` (randomness `r1`, `r2`)
/// gives the encryption of `m1 + m2` under randomness `r1 · r2`.
pub proof fn lemma_add_homomorphic(n: nat, m1: nat, m2: nat, r1: nat, r2: nat)
    requires
        n > 0,
    ensures
        (enc_value(n, m1, r1) * enc_value(n, m2, r2)) % ((n * n) as int) == enc_value(
            n,
            m1 + m2,
            r1 * r2,
        ),
{
    let ni = n as int;
    let nn = ni * ni;
    lemma_square_pos(ni);
    let a = (m1 % n) as int;
    let b = (m2 % n) as int;
    let s = ((m1 + m2) % n) as int;
    let p1 = pow(r1 as int, n);
    let p2 = pow(r2 as int, n);
    vstd::arithmetic::power::lemma_pow_distributes(r1 as int, r2 as int, n);
    let x1 = (1 + ni * a) * p1;
    let x2 = (1 + ni * b) * p2;
    vstd::arithmetic::div_mod::lemma_mul_mod_noop_general(x1, x2, nn);
    // a + b and s differ by a multiple of n
    vstd::arithmetic::div_mod::lemma_add_mod_noop(m1 as int, m2 as int, ni);
    vstd::arithmetic::div_mod::lemma_fundamental_div_mod(a + b, ni);
    let t = (a + b) / ni;
    assert(a + b == ni * t + s);
    lemma_prod_identity(ni, a, b, t, s);
    lemma_swap4(1 + ni * a, p1, 1 + ni * b, p2);
    let k = (a * b + t) * (p1 * p2);
    lemma_distr(nn * (a * b + t), 1 + ni * s, p1 * p2);
    lemma_distr(nn, a * b + t, p1 * p2);
    assert(x1 * x2 == nn * k + (1 + ni * s) * (p1 * p2));
    vstd::arithmetic::div_mod::lemma_mod_multiples_vanish(k, (1 + ni * s) * (p1 * p2), nn);
}

/// Adding the plaintext `k` to the encryption of `m` (randomness `r`) gives
/// the encryption of `m + k` under the same randomness.
pub proof fn lemma_add_plain_homomorphic(n: nat, m: nat, k: nat, r: nat)
    requires
        n > 0,
    ensures
        (enc_value(n, m, r) * (((1 + n * (k % n)) as int) % ((n * n) as int))) % ((n * n) as int) == enc_value(
            n,
            m + k,
            r,
        ),
{
    let ni = n as int;
    let nn = ni * ni;
    lemma_square_pos(ni);
    let a = (m % n) as int;
    let b = (k % n) as int;
    let s = ((m + k) % n) as int;
    let p = pow(r as int, n);
    let x1 = (1 + ni * a) * p;
    let x2 = 1 + ni * b;
    vstd::arithmetic::div_mod::lemma_mul_mod_noop_general(x1, x2, nn);
    vstd::arithmetic::div_mod::lemma_add_mod_noop(m as int, k as int, ni);
    vstd::arithmetic::div_mod::lemma_fundamental_div_mod(a + b, ni);
    let t = (a + b) / ni;
    assert(a + b == ni * t + s);
    lemma_prod_identity(ni, a, b, t, s);
    lemma_swap4(1 + ni * a, p, 1 + ni * b, 1);
    let c = (a * b + t) * p;
    lemma_distr(nn * (a * b + t), 1 + ni * s, p);
    lemma_distr(nn, a * b + t, p);
    assert(x1 * x2 == nn * c + (1 + ni * s) * p);
    vstd::arithmetic::div_mod::lemma_mod_multiples_vanish(c, (1 + ni * s) * p, nn);
}

/// Raising the encryption of `m` (randomness `r`) to the power `k` gives the
/// encryption of `k · m` under randomness `r^k`.
pub proof fn lemma_mul_plain_homomorphic(n: nat, m: nat, r: nat, k: nat)
    requires
        n > 1,
    ensures
        pow(enc_value(n, m, r), k) % ((n * n) as int) == enc_value(n, k * m, pow(r as int, k) as nat),
{
    let ni = n as int;
    let nn = ni * ni;
    lemma_square_pos(ni);
    let a = (m % n) as int;
    let ki = k as int;
    let p = pow(r as int, n);
    let x = (1 + ni * a) * p;
    // pow(x mod n², k) ≡ pow(x, k)
    vstd::arithmetic::power::lemma_pow_mod_noop(x, k, nn);
    // pow(x, k) = pow(1 + n·a, k) · pow(r, n·k)
    vstd::arithmetic::power::lemma_pow_distributes(1 + ni * a, p, k);
    vstd::arithmetic::power::lemma_pow_multiplies(r as int, n, k);
    vstd::arithmetic::power::lemma_pow_multiplies(r as int, k, n);
    assert(n * k == k * n) by (nonlinear_arith);
    if r > 0 {
        vstd::arithmetic::power::lemma_pow_positive(r as int, k);
    } else {
        lemma_pow_zero_base(k);
    }
    // pow(1 + n·a, k) ≡ 1 + k·a·n
    lemma_one_plus_na_pow(ni, a, k);
    let u = pow(1 + ni * a, k);
    let w = pow(p, k);
    vstd::arithmetic::div_mod::lemma_mul_mod_noop_left(u, w, nn);
    vstd::arithmetic::div_mod::lemma_mul_mod_noop_left(1 + ki * a * ni, w, nn);
    // k·a ≡ k·m (mod n)
    vstd::arithmetic::div_mod::lemma_mul_mod_noop_right(k as int, m as int, ni);
    let s = ((k * m) % n) as int;
    vstd::arithmetic::div_mod::lemma_fundamental_div_mod(ki * a, ni);
    let t = (ki * a) / ni;
    assert(ki * a == ni * t + s);
    assert(1 + ki * a * ni == nn * t + (1 + ni * s)) by (nonlinear_arith)
        requires
            ki * a == ni * t + s,
            nn == ni * ni,
    ;
    lemma_distr(nn * t, 1 + ni * s, w);
    lemma_distr(nn, t, w);
    vstd::arithmetic::div_mod::lemma_mod_multiples_vanish(t * w, (1 + ni * s) * w, nn);
}

/// `(1 + x·n) mod n²` is `1 + n·(x mod n)`, and `L` of it is `x mod n`.
proof fn lemma_one_plus_xn_residue(n: int, x: int)
    requires
        n > 1,
    ensures
        (1 + x * n) % (n * n) == 1 + n * (x % n),
        l_value((1 + n * (x % n)) as nat, n as nat) == x % n,
{
    let nn = n * n;
    lemma_square_pos(n);
    let s = x % n;
    let k = x / n;
    vstd::arithmetic::div_mod::lemma_fundamental_div_mod(x, n);
    assert(1 + x * n == nn * k + (1 + n * s)) by (nonlinear_arith)
        requires
            x == n * k + s,
            nn == n * n,
    ;
    assert(0 <= n * s <= n * (n - 1)) by (nonlinear_arith)
        requires
            0 <= s < n,
    ;
    assert(n * (n - 1) + 1 < nn) by (nonlinear_arith)
        requires
            nn == n * n,
            n > 1,
    ;
    vstd::arithmetic::div_mod::lemma_mod_multiples_vanish(k, 1 + n * s, nn);
    vstd::arithmetic::div_mod::lemma_small_mod((1 + n * s) as nat, nn as nat);
    vstd::arithmetic::div_mod::lemma_div_multiples_vanish(s, n);
    assert(n * s == s * n) by (nonlinear_arith);
}

/// `(r^n)^λ ≡ 1 (mod n²)` whenever `r^λ ≡ 1 (mod n)`.
proof fn lemma_lift_unit(n: int, r: int, lambda: nat)
    requires
        n > 1,
        pow(r, lambda) % n == 1,
    ensures
        pow(pow(r, n as nat), lambda) % (n * n) == 1,
{
    let nn = n * n;
    lemma_square_pos(n);
    let e = pow(r, lambda);
    let t = e / n;
    vstd::arithmetic::div_mod::lemma_fundamental_div_mod(e, n);
    assert(e == 1 + n * t);
    vstd::arithmetic::power::lemma_pow_multiplies(r, n as nat, lambda);
    vstd::arithmetic::power::lemma_pow_multiplies(r, lambda, n as nat);
    assert((n as nat) * lambda == lambda * (n as nat)) by (nonlinear_arith);
    lemma_one_plus_na_pow(n, t, n as nat);
    assert(1 + (n as nat) * t * n == nn * t + 1) by (nonlinear_arith)
        requires
            nn == n * n,
            n > 1,
    ;
    vstd::arithmetic::div_mod::lemma_mod_multiples_vanish(t, 1, nn);
    vstd::arithmetic::div_mod::lemma_small_mod(1, nn as nat);
}

/// What decryption needs of a key: `n = p·q` for distinct `p`, `q`,
/// `λ = lcm(p-1, q-1)` and `μ` inverse to `L((1+n)^λ mod n²)` modulo `n`.
/// Every key `keygen` makes satisfies it (see [`key_parts`]).
pub open spec fn decryption_key(n: nat, lambda: nat, mu: nat, p: nat, q: nat) -> bool {
    &&& p != q
    &&& n == p * q
    &&& lambda == lcm((p - 1) as nat, (q - 1) as nat)
    &&& (l_value((pow((n + 1) as int, lambda) % ((n * n) as int)) as nat, n) * mu) % (n as int) == 1
}

/// Decryption of `enc_value(n, m, r)` for any randomness `r` that neither prime factor divides.
#[verifier::spinoff_prover]
#[verifier::rlimit(40)]
proof fn lemma_decrypt_enc_value(
    n: nat,
    lambda: nat,
    mu: nat,
    p: nat,
    q: nat,
    m: nat,
    r: nat,
)
    requires
        decryption_key(n, lambda, mu, p, q),
        is_prime(p),
        is_prime(q),
        r % p != 0,
        r % q != 0,
    ensures
        enc_value(n, m, r) >= 0,
        pow(enc_value(n, m, r), lambda) % ((n * n) as int) != 0,
        dec_value(n, lambda, mu, enc_value(n, m, r) as nat) == m % n,
{
    let ni = n as int;
    let nn = ni * ni;
    assert(n > 1) by (nonlinear_arith)
        requires
            n == p * q,
            p > 1,
            q > 1,
    ;
    lemma_square_pos(ni);
    let m0 = (m % n) as int;
    let a = 1 + ni * m0;
    let big_r = pow(r as int, n);
    let c = enc_value(n, m, r);
    assert(c == (a * big_r) % nn);
    // c^λ ≡ a^λ · (r^n)^λ (mod n²)
    vstd::arithmetic::power::lemma_pow_mod_noop(a * big_r, lambda, nn);
    vstd::arithmetic::power::lemma_pow_distributes(a, big_r, lambda);
    let pa = pow(a, lambda);
    let pr = pow(big_r, lambda);
    vstd::arithmetic::div_mod::lemma_mul_mod_noop_general(pa, pr, nn);
    // (r^n)^λ ≡ 1
    lemma_carmichael(p, q, r);
    lemma_lift_unit(ni, r as int, lambda);
    // a^λ ≡ 1 + λ·m0·n
    lemma_one_plus_na_pow(ni, m0, lambda);
    let x = (lambda as int) * m0;
    assert(lambda * m0 * ni == x * ni);
    lemma_one_plus_xn_residue(ni, x);
    let s = x % ni;
    assert((pa % nn) * (pr % nn) == 1 + ni * s);
    vstd::arithmetic::div_mod::lemma_small_mod((1 + ni * s) as nat, nn as nat);
    assert(pow(c, lambda) % nn == 1 + ni * s);
    assert(l_value((pow(c, lambda) % nn) as nat, n) == s);
    // the key: L((1 + n)^λ mod n²) = λ mod n
    lemma_one_plus_n_pow(ni, lambda);
    lemma_one_plus_xn_residue(ni, lambda as int);
    assert((1 + lambda * ni) == 1 + (lambda as int) * ni);
    let lk = (lambda as int) % ni;
    assert(pow((n + 1) as int, lambda) % nn == 1 + ni * lk) by {
        assert((n + 1) as int == 1 + ni);
    }
    assert((lk * mu) % ni == 1);
    // (s · μ) mod n = (m0 · (λ·μ)) mod n = m0
    vstd::arithmetic::div_mod::lemma_mul_mod_noop_left(x, mu as int, ni);
    vstd::arithmetic::div_mod::lemma_mul_mod_noop_left(lambda as int, mu as int, ni);
    assert(x * mu == m0 * ((lambda as int) * mu)) by (nonlinear_arith)
        requires
            x == (lambda as int) * m0,
    ;
    vstd::arithmetic::div_mod::lemma_mul_mod_noop_right(m0, (lambda as int) * mu, ni);
    vstd::arithmetic::div_mod::lemma_small_mod(m0 as nat, n);
}

/// Decryption inverts encryption. For a key whose two factors are prime,
/// decrypting the encryption of any `m` under any randomness `r` coprime to
/// `n` succeeds (the value `decrypt` requires is non-zero) and gives `m mod n`.
pub proof fn lemma_decrypt_encrypt(
    n: nat,
    lambda: nat,
    mu: nat,
    p: nat,
    q: nat,
    m: nat,
    r: nat,
)
    requires
        decryption_key(n, lambda, mu, p, q),
        is_prime(p),
        is_prime(q),
        gcd(r, n) == 1,
    ensures
        enc_value(n, m, r) >= 0,
        pow(enc_value(n, m, r), lambda) % ((n * n) as int) != 0,
        dec_value(n, lambda, mu, enc_value(n, m, r) as nat) == m % n,
{
    lemma_coprime_to_product(p, q, r);
    lemma_decrypt_enc_value(n, lambda, mu, p, q, m, r);
}

/// Homomorphic addition, end to end: the product mod `n²` of the
/// encryptions of `m1` and `m2` decrypts to `(m1 + m2) mod n`.
pub proof fn lemma_decrypt_add(
    n: nat,
    lambda: nat,
    mu: nat,
    p: nat,
    q: nat,
    m1: nat,
    r1: nat,
    m2: nat,
    r2: nat,
)
    requires
        decryption_key(n, lambda, mu, p, q),
        is_prime(p),
        is_prime(q),
        gcd(r1, n) == 1,
        gcd(r2, n) == 1,
    ensures
        ({
            let c = (enc_value(n, m1, r1) * enc_value(n, m2, r2)) % ((n * n) as int);
            &&& c >= 0
            &&& pow(c, lambda) % ((n * n) as int) != 0
            &&& dec_value(n, lambda, mu, c as nat) == (m1 + m2) % n
        }),
{
    assert(n > 1) by (nonlinear_arith)
        requires
            n == p * q,
            p > 1,
            q > 1,
    ;
    lemma_coprime_to_product(p, q, r1);
    lemma_coprime_to_product(p, q, r2);
    lemma_add_homomorphic(n, m1, m2, r1, r2);
    assert((r1 * r2) % p != 0) by {
        if (r1 * r2) % p == 0 {
            lemma_euclid(p, r1 as int, r2 as int);
        }
    }
    assert((r1 * r2) % q != 0) by {
        if (r1 * r2) % q == 0 {
            lemma_euclid(q, r1 as int, r2 as int);
        }
    }
    lemma_decrypt_enc_value(n, lambda, mu, p, q, m1 + m2, r1 * r2);
}

/// Reducing modulo a multiple of `p` keeps the remainder modulo `p`.
proof fn lemma_mod_multiple_of(x: int, m: int, p: int)
    requires
        p > 0,
        m > 0,
        m % p == 0,
    ensures
        (x % m) % p == x % p,
{
    vstd::arithmetic::div_mod::lemma_fundamental_div_mod(m, p);
    assert(m / p > 0) by (nonlinear_arith)
        requires
            m == p * (m / p) + 0,
            m > 0,
            p > 0,
    ;
    vstd::arithmetic::div_mod::lemma_mod_mod(x, p, m / p);
}

/// `n²` is a multiple of every divisor of `n`.
proof fn lemma_square_multiple(n: int, p: int)
    requires
        p > 0,
        n > 0,
        n % p == 0,
    ensures
        (n * n) % p == 0,
{
    vstd::arithmetic::div_mod::lemma_fundamental_div_mod(n, p);
    assert(n * n == (n / p * n) * p) by (nonlinear_arith)
        requires
            n == p * (n / p) + 0,
    ;
    vstd::arithmetic::div_mod::lemma_mod_multiples_basic(n / p * n, p);
}

/// An honest ciphertext is not divisible by any prime factor of `n`.
proof fn lemma_enc_value_not_divisible(n: nat, m: nat, r: nat, p: nat)
    requires
        n > 1,
        is_prime(p),
        n % p == 0,
        gcd(r, n) == 1,
    ensures
        enc_value(n, m, r) % (p as int) != 0,
{
    let pi = p as int;
    let ni = n as int;
    let k = (m % n) as int;
    let a = 1 + ni * k;
    let b = pow(r as int, n);
    vstd::arithmetic::div_mod::lemma_fundamental_div_mod(ni, pi);
    assert(ni * k == (ni / pi * k) * pi) by (nonlinear_arith)
        requires
            ni == pi * (ni / pi) + 0,
    ;
    vstd::arithmetic::div_mod::lemma_mod_multiples_basic(ni / pi * k, pi);
    vstd::arithmetic::div_mod::lemma_add_mod_noop(1, ni * k, pi);
    vstd::arithmetic::div_mod::lemma_small_mod(1, p);
    vstd::arithmetic::div_mod::lemma_small_mod(0, p);
    assert(a % pi == 1);
    lemma_coprime_prime_factor(p, n, r);
    lemma_pow_not_divisible(p, r as int, n);
    if (a * b) % pi == 0 {
        lemma_euclid(p, a, b);
    }
    lemma_square_pos(ni);
    lemma_square_multiple(ni, pi);
    lemma_mod_multiple_of(a * b, ni * ni, pi);
}

/// The product of two honest ciphertexts can always be decrypted: for any
/// exponent `λ`, `(c₁·c₂ mod n²)^λ mod n²` is non-zero when both
/// randomness values are coprime to `n`.
pub proof fn lemma_sum_decryptable(n: nat, m1: nat, r1: nat, m2: nat, r2: nat, lambda: nat)
    requires
        n > 1,
        gcd(r1, n) == 1,
        gcd(r2, n) == 1,
    ensures
        pow((enc_value(n, m1, r1) * enc_value(n, m2, r2)) % ((n * n) as int), lambda) % ((n * n) as int)
            != 0,
{
    let p = lemma_prime_factor(n);
    let pi = p as int;
    let nn = (n * n) as int;
    lemma_square_pos(n as int);
    lemma_square_multiple(n as int, pi);
    lemma_enc_value_not_divisible(n, m1, r1, p);
    lemma_enc_value_not_divisible(n, m2, r2, p);
    let c1 = enc_value(n, m1, r1);
    let c2 = enc_value(n, m2, r2);
    if (c1 * c2) % pi == 0 {
        lemma_euclid(p, c1, c2);
    }
    let c = (c1 * c2) % nn;
    lemma_mod_multiple_of(c1 * c2, nn, pi);
    lemma_pow_not_divisible(p, c, lambda);
    let y = pow(c, lambda);
    lemma_mod_multiple_of(y, nn, pi);
    if y % nn == 0 {
        vstd::arithmetic::div_mod::lemma_small_mod(0, p);
    }
}

/// Homomorphic addition of a plaintext, end to end: multiplying the
/// encryption of `m` by `1 + n·(k mod n)` decrypts to `(m + k) mod n`.
pub proof fn lemma_decrypt_add_plain(
    n: nat,
    lambda: nat,
    mu: nat,
    p: nat,
    q: nat,
    m: nat,
    r: nat,
    k: nat,
)
    requires
        decryption_key(n, lambda, mu, p, q),
        is_prime(p),
        is_prime(q),
        gcd(r, n) == 1,
    ensures
        ({
            let c = (enc_value(n, m, r) * (((1 + n * (k % n)) as int) % ((n * n) as int))) % ((n * n) as int);
            &&& c >= 0
            &&& pow(c, lambda) % ((n * n) as int) != 0
            &&& dec_value(n, lambda, mu, c as nat) == (m + k) % n
        }),
{
    assert(n > 1) by (nonlinear_arith)
        requires
            n == p * q,
            p > 1,
            q > 1,
    ;
    lemma_add_plain_homomorphic(n, m, k, r);
    lemma_decrypt_encrypt(n, lambda, mu, p, q, m + k, r);
}

/// Homomorphic scaling, end to end: raising the encryption of `m` to the
/// power `k` modulo `n²` decrypts to `(k · m) mod n`.
pub proof fn lemma_decrypt_mul_plain(
    n: nat,
    lambda: nat,
    mu: nat,
    p: nat,
    q: nat,
    m: nat,
    r: nat,
    k: nat,
)
    requires
        decryption_key(n, lambda, mu, p, q),
        is_prime(p),
        is_prime(q),
        gcd(r, n) == 1,
    ensures
        ({
            let c = pow(enc_value(n, m, r), k) % ((n * n) as int);
            &&& c >= 0
            &&& pow(c, lambda) % ((n * n) as int) != 0
            &&& dec_value(n, lambda, mu, c as nat) == (k * m) % n
        }),
{
    assert(n > 1) by (nonlinear_arith)
        requires
            n == p * q,
            p > 1,
            q > 1,
    ;
    lemma_coprime_to_product(p, q, r);
    lemma_mul_plain_homomorphic(n, m, r, k);
    lemma_pow_not_divisible(p, r as int, k);
    lemma_pow_not_divisible(q, r as int, k);
    if r > 0 {
        vstd::arithmetic::power::lemma_pow_positive(r as int, k);
    } else {
        lemma_pow_zero_base(k);
    }
    lemma_decrypt_enc_value(n, lambda, mu, p, q, k * m, pow(r as int, k) as nat);
}

/// Re-randomising keeps the plaintext: multiplying the encryption of `m`
/// under `r` by `s^n mod n²` gives the encryption of `m` under `r·s`, which
/// decrypts to `m mod n` when `r` and `s` are both coprime to `n`.
pub proof fn lemma_decrypt_rerandomize(
    n: nat,
    lambda: nat,
    mu: nat,
    p: nat,
    q: nat,
    m: nat,
    r: nat,
    s: nat,
)
    requires
        decryption_key(n, lambda, mu, p, q),
        is_prime(p),
        is_prime(q),
        gcd(r, n) == 1,
        gcd(s, n) == 1,
    ensures
        ({
            let c = (enc_value(n, m, r) * (pow(s as int, n) % ((n * n) as int))) % ((n * n) as int);
            &&& c == enc_value(n, m, r * s)
            &&& c >= 0
            &&& pow(c, lambda) % ((n * n) as int) != 0
            &&& dec_value(n, lambda, mu, c as nat) == m % n
        }),
{
    let ni = n as int;
    let nn = ni * ni;
    assert(n > 1) by (nonlinear_arith)
        requires
            n == p * q,
            p > 1,
            q > 1,
    ;
    lemma_square_pos(ni);
    let a = 1 + ni * ((m % n) as int);
    let pr = pow(r as int, n);
    let ps = pow(s as int, n);
    vstd::arithmetic::div_mod::lemma_mul_mod_noop_general(a * pr, ps, nn);
    vstd::arithmetic::power::lemma_pow_distributes(r as int, s as int, n);
    assert((a * pr) * ps == a * (pr * ps)) by (nonlinear_arith);
    lemma_coprime_to_product(p, q, r);
    lemma_coprime_to_product(p, q, s);
    assert((r * s) % p != 0) by {
        if (r * s) % p == 0 {
            lemma_euclid(p, r as int, s as int);
        }
    }
    assert((r * s) % q != 0) by {
        if (r * s) % q == 0 {
            lemma_euclid(q, r as int, s as int);
        }
    }
    lemma_decrypt_enc_value(n, lambda, mu, p, q, m, r * s);
}

/// The product modulo `n²` of the encryptions of `ms[i]` under `rs[i]` for `i < k`.
pub open spec fn enc_product(n: nat, ms: Seq<nat>, rs: Seq<nat>, k: nat) -> int
    decreases k,
{
    if k == 0 {
        1int % ((n * n) as int)
    } else {
        (enc_product(n, ms, rs, (k - 1) as nat) * enc_value(n, ms[k - 1], rs[k - 1])) % ((n * n) as int)
    }
}

/// `ms[0] + … + ms[k-1]`.
pub open spec fn sum_of(ms: Seq<nat>, k: nat) -> nat
    decreases k,
{
    if k == 0 {
        0
    } else {
        sum_of(ms, (k - 1) as nat) + ms[k - 1]
    }
}

/// `rs[0] · … · rs[k-1]`.
pub open spec fn product_of(rs: Seq<nat>, k: nat) -> nat
    decreases k,
{
    if k == 0 {
        1
    } else {
        product_of(rs, (k - 1) as nat) * rs[k - 1]
    }
}

/// Paillier is exactly additive for any number of additions: the product
/// of `k` encryptions is the encryption of the sum of their plaintexts
/// under the product of their randomness.
pub proof fn lemma_add_many(n: nat, ms: Seq<nat>, rs: Seq<nat>, k: nat)
    requires
        n > 1,
        k <= ms.len(),
        k <= rs.len(),
    ensures
        enc_product(n, ms, rs, k) == enc_value(n, sum_of(ms, k), product_of(rs, k)),
    decreases k,
{
    let ni = n as int;
    lemma_square_pos(ni);
    if k == 0 {
        vstd::arithmetic::power::lemma1_pow(n);
        vstd::arithmetic::div_mod::lemma_small_mod(0, n);
        assert(enc_value(n, 0, 1) == ((1 + (n * 0) as int) * 1) % ((n * n) as int));
    } else {
        let k1 = (k - 1) as nat;
        lemma_add_many(n, ms, rs, k1);
        lemma_add_homomorphic(n, sum_of(ms, k1), ms[k1 as int], product_of(rs, k1), rs[k1 as int]);
    }
}

/// The randomness of a sum of encryptions stays coprime to the primes of `n`.
proof fn lemma_product_not_divisible(p: nat, rs: Seq<nat>, k: nat)
    requires
        is_prime(p),
        k <= rs.len(),
        forall|i: int| 0 <= i < k ==> (#[trigger] rs[i]) % p != 0,
    ensures
        product_of(rs, k) % p != 0,
    decreases k,
{
    if k == 0 {
        vstd::arithmetic::div_mod::lemma_small_mod(1, p);
    } else {
        let k1 = (k - 1) as nat;
        lemma_product_not_divisible(p, rs, k1);
        assert(rs[k1 as int] % p != 0);
        if product_of(rs, k) % p == 0 {
            lemma_euclid(p, product_of(rs, k1) as int, rs[k1 as int] as int);
        }
    }
}

/// Any number of homomorphic additions decrypts to the sum: for a key whose
/// factors are prime and randomness coprime to `n`, the product of `k`
/// encryptions decrypts to `(ms[0] + … + ms[k-1]) mod n`.
pub proof fn lemma_decrypt_add_many(
    n: nat,
    lambda: nat,
    mu: nat,
    p: nat,
    q: nat,
    ms: Seq<nat>,
    rs: Seq<nat>,
    k: nat,
)
    requires
        decryption_key(n, lambda, mu, p, q),
        is_prime(p),
        is_prime(q),
        k <= ms.len(),
        k <= rs.len(),
        forall|i: int| 0 <= i < k ==> gcd(#[trigger] rs[i], n) == 1,
    ensures
        ({
            let c = enc_product(n, ms, rs, k);
            &&& c >= 0
            &&& pow(c, lambda) % ((n * n) as int) != 0
            &&& dec_value(n, lambda, mu, c as nat) == sum_of(ms, k) % n
        }),
{
    assert(n > 1) by (nonlinear_arith)
        requires
            n == p * q,
            p > 1,
            q > 1,
    ;
    lemma_add_many(n, ms, rs, k);
    assert forall|i: int| 0 <= i < k implies (#[trigger] rs[i]) % p != 0 && rs[i] % q != 0 by {
        assert(gcd(rs[i], n) == 1);
        lemma_coprime_to_product(p, q, rs[i]);
    }
    assert forall|i: int| 0 <= i < k implies (#[trigger] rs[i]) % p != 0 by {}
    lemma_product_not_divisible(p, rs, k);
    assert forall|i: int| 0 <= i < k implies (#[trigger] rs[i]) % q != 0 by {
        assert(rs[i] % p != 0 && rs[i] % q != 0);
    }
    lemma_product_not_divisible(q, rs, k);
    lemma_decrypt_enc_value(n, lambda, mu, p, q, sum_of(ms, k), product_of(rs, k));
}

/// `n > 0` gives `n² > 0`, and `n > 1` gives `n² > 1`.
pub proof fn lemma_square_pos(n: int)
    requires
        n > 0,
    ensures
        n * n > 0,
        n > 1 ==> n * n > 1,
{
    assert(n * n >= n) by (nonlinear_arith)
        requires
            n > 0,
    ;
}

proof fn lemma_prod_identity(ni: int, a: int, b: int, t: int, s: int)
    requires
        a + b == ni * t + s,
    ensures
        (1 + ni * a) * (1 + ni * b) == ni * ni * (a * b + t) + (1 + ni * s),
{
    assert((1 + ni * a) * (1 + ni * b) == 1 + ni * (a + b) + ni * ni * (a * b)) by (nonlinear_arith);
    assert(ni * (a + b) == ni * ni * t + ni * s) by (nonlinear_arith)
        requires
            a + b == ni * t + s,
    ;
    assert(ni * ni * (a * b + t) == ni * ni * (a * b) + ni * ni * t) by (nonlinear_arith);
}

proof fn lemma_swap4(a: int, b: int, c: int, d: int)
    by (nonlinear_arith)
    ensures
        (a * b) * (c * d) == (a * c) * (b * d),
        (a * b) * c == (a * c) * b,
{
}

proof fn lemma_distr(x: int, y: int, z: int)
    by (nonlinear_arith)
    ensures
        (x + y) * z == x * z + y * z,
        (x * y) * z == x * (y * z),
{
}

proof fn lemma_pow_zero_base(k: nat)
    ensures
        pow(0, k) >= 0,
    decreases k,
{
    reveal(pow);
    if k > 0 {
        lemma_pow_zero_base((k - 1) as nat);
    }
}

/// `(1 + n·a)^k ≡ 1 + k·a·n (mod n²)`.
pub proof fn lemma_one_plus_na_pow(n: int, a: int, k: nat)
    requires
        n > 1,
    ensures
        pow(1 + n * a, k) % (n * n) == (1 + k * a * n) % (n * n),
    decreases k,
{
    let nn = n * n;
    lemma_square_pos(n);
    let x = 1 + n * a;
    if k == 0 {
        vstd::arithmetic::power::lemma_pow0(x);
        assert(k * a * n == 0) by (nonlinear_arith)
            requires
                k == 0,
        ;
    } else {
        let km = (k - 1) as nat;
        lemma_one_plus_na_pow(n, a, km);
        let prev = pow(x, km);
        assert(pow(x, k) == x * prev) by {
            reveal(pow);
        }
        let y = 1 + km * a * n;
        assert(prev % nn == y % nn);
        vstd::arithmetic::div_mod::lemma_mul_mod_noop_right(x, prev, nn);
        vstd::arithmetic::div_mod::lemma_mul_mod_noop_right(x, y, nn);
        assert((x * prev) % nn == (x * y) % nn);
        let z = km * a * a;
        assert(x * y == nn * z + (1 + k * a * n)) by (nonlinear_arith)
            requires
                nn == n * n,
                x == 1 + n * a,
                y == 1 + km * a * n,
                z == km * a * a,
                km + 1 == k,
        ;
        vstd::arithmetic::div_mod::lemma_mod_multiples_vanish(z, 1 + k * a * n, nn);
    }
}

} // verus!
