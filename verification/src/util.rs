//! Shared utilities: random numbers, modular arithmetic, prime generation.

use vstd::prelude::*;
use vstd::arithmetic::power::pow;
use vstd::arithmetic::power2::pow2;
use rand_chacha::ChaCha20Rng;
use rand::{RngCore, SeedableRng};
use crate::bigint::{UBig, IBig, gcd, tdiv, trem, with_bit, bit_len};
use crate::primes::{is_prime, mr_value, lemma_mr_step, lemma_mr_chain};

verus! {

/// Returns a fresh ChaCha20 generator seeded from the operating system
/// (`SeedableRng::from_entropy`, which panics only if the OS has no entropy source).
#[verifier::external_body]
pub fn rng() -> ChaCha20Rng {
    ChaCha20Rng::from_entropy()
}

/// Returns a deterministic ChaCha20 generator (`SeedableRng::from_seed`).
#[verifier::external_body]
pub fn seeded_rng(seed: [u8; 32]) -> ChaCha20Rng {
    ChaCha20Rng::from_seed(seed)
}

/// `RngCore::next_u32`: the next 32 random bits.
#[verifier::external_body]
fn next_u32(rng: &mut ChaCha20Rng) -> u32 {
    rng.next_u32()
}

/// The next 32 bits of a generator.
pub fn random_u32(rng: &mut ChaCha20Rng) -> (r: u32) {
    next_u32(rng)
}

/// Sample a uniformly random integer in `[0, modulus)`.
pub fn rand_below(rng: &mut ChaCha20Rng, modulus: &UBig) -> (r: UBig)
    requires
        modulus@ > 0,
    ensures
        r@ < modulus@,
{
    UBig::random_below(rng, modulus)
}

/// Sample a random integer in `[1, modulus)` coprime to `modulus`.
///
/// Candidates are drawn until one fits; should 2^64 - 1 draws in a row all
/// fail, the value 1 (which always fits) is returned.
pub fn rand_coprime(rng: &mut ChaCha20Rng, modulus: &UBig) -> (r: UBig)
    requires
        modulus@ > 1,
    ensures
        1 <= r@ < modulus@,
        gcd(r@, modulus@) == 1,
{
    let mut attempts: u64 = 0;
    loop
        invariant
            modulus@ > 1,
        decreases u64::MAX - attempts,
    {
        let r = UBig::random_below(rng, modulus);
        if !r.is_zero() {
            let g = r.gcd(modulus);
            let one = UBig::from_u64(1);
            if g.eq(&one) {
                return r;
            }
        }
        if attempts == u64::MAX {
            proof {
                lemma_gcd_one_left(modulus@);
            }
            return UBig::from_u64(1);
        }
        attempts = attempts + 1;
    }
}

pub proof fn lemma_gcd_one_left(m: nat)
    ensures
        gcd(1, m) == 1,
{
    if m > 0 {
        if m == 1 {
            assert(1nat % 1nat == 0nat);
            assert(gcd(1, 1) == gcd(1, 0));
        } else {
            vstd::arithmetic::div_mod::lemma_small_mod(1nat, m);
            assert(gcd(1, m) == gcd(m, 1));
            assert(m % 1 == 0);
            assert(gcd(m, 1) == gcd(1, 0));
        }
    }
}

/// Facts about the remainder of division rounding toward zero.
pub proof fn lemma_trem(a: int, b: int)
    requires
        b > 0,
    ensures
        a >= 0 ==> trem(a, b) == a % b,
        a < 0 ==> -b < trem(a, b) <= 0,
        trem(a, b) == a - b * tdiv(a, b),
{
    if a >= 0 {
        vstd::arithmetic::div_mod::lemma_fundamental_div_mod(a, b);
    } else {
        vstd::arithmetic::div_mod::lemma_fundamental_div_mod(-a, b);
        let q0 = (-a) / b;
        assert(tdiv(a, b) == -q0);
        assert(b * (-q0) == -(b * q0)) by (nonlinear_arith);
        assert(trem(a, b) == -((-a) % b));
    }
}

/// Modular inverse via the extended Euclidean algorithm.
///
/// Returns `Some(x)` with `a · x ≡ 1 (mod m)`, or `None` when `gcd(a, m) ≠ 1`.
pub fn mod_inverse(a: &UBig, m: &UBig) -> (r: Option<UBig>)
    requires
        m@ > 0 || a@ != 1,
    ensures
        r is Some <==> gcd(a@, m@) == 1,
        r matches Some(x) ==> x@ < m@ && (a@ * x@) % m@ == 1nat % m@,
{
    let (g, x, y) = IBig::extended_gcd(a, m);
    let one = UBig::from_u64(1);
    if !g.eq(&one) {
        return None;
    }
    proof {
        if m@ == 0 {
            // gcd(a, 0) == a, which is not 1.
            assert(gcd(a@, 0) == a@);
        }
    }
    let ms = IBig::from_ubig(m);
    let r1 = x.rem(&ms);
    let s = r1.add(&ms);
    let inv = s.rem(&ms);
    proof {
        let mi = m@ as int;
        lemma_trem(x@, mi);
        lemma_trem(s@, mi);
        let k = 1 - tdiv(x@, mi);
        assert(s@ == x@ + mi * k) by (nonlinear_arith)
            requires
                s@ == r1@ + mi,
                r1@ == x@ - mi * tdiv(x@, mi),
                k == 1 - tdiv(x@, mi),
        ;
        assert(s@ >= 0);
        vstd::arithmetic::div_mod::lemma_mod_multiples_vanish(k, x@, mi);
        assert(inv@ == x@ % mi);
        vstd::arithmetic::div_mod::lemma_mul_mod_noop_right(a@ as int, x@, mi);
        assert(a@ * x@ == mi * (-y@) + 1) by (nonlinear_arith)
            requires
                a@ * x@ + m@ * y@ == 1,
                mi == m@,
        ;
        vstd::arithmetic::div_mod::lemma_mod_multiples_vanish(-y@, 1, mi);
        vstd::arithmetic::div_mod::lemma_mod_bound(x@, mi);
    }
    let res = inv.magnitude();
    Some(res)
}

/// Modular exponentiation: `base^exp mod modulus`.
pub fn mod_pow(base: &UBig, exp: &UBig, modulus: &UBig) -> (r: UBig)
    requires
        modulus@ > 0,
    ensures
        modulus@ > 1 ==> r@ == pow(base@ as int, exp@) % (modulus@ as int),
{
    base.modpow(exp, modulus)
}

pub proof fn lemma_with_bit_bounds(v: nat, k: nat, b: nat)
    requires
        v < pow2(b),
        k < b,
    ensures
        pow2(k) <= with_bit(v, k) < pow2(b),
{
    vstd::arithmetic::power2::lemma_pow2_pos(k);
    let pk = pow2(k) as int;
    let q = v as int / pk;
    vstd::arithmetic::div_mod::lemma_fundamental_div_mod(v as int, pk);
    vstd::arithmetic::power2::lemma_pow2_adds(k, (b - k) as nat);
    let m = pow2((b - k) as nat) as int;
    assert(pow2(b) as int == pk * m);
    assert(q < m) by {
        assert(pk * m == m * pk) by (nonlinear_arith);
        vstd::arithmetic::div_mod::lemma_div_by_multiple_is_strongly_ordered(v as int, m * pk, m, pk);
        vstd::arithmetic::div_mod::lemma_div_by_multiple(m, pk);
    }
    assert(m % 2 == 0) by {
        vstd::arithmetic::power2::lemma_pow2_unfold((b - k) as nat);
    }
    if q % 2 == 1 {
        assert(v >= pk) by (nonlinear_arith)
            requires
                v == pk * q + (v as int) % pk,
                q % 2 == 1,
                (v as int) % pk >= 0,
                pk > 0,
        ;
    } else {
        assert(q + 1 < m);
        assert(v + pk < pk * m) by (nonlinear_arith)
            requires
                v == pk * q + (v as int) % pk,
                (v as int) % pk < pk,
                q + 1 < m,
                pk > 0,
        ;
    }
}

pub proof fn lemma_with_bit_zero_odd(v: nat)
    ensures
        with_bit(v, 0) % 2 == 1,
        with_bit(v, 0) >= v,
{
    vstd::arithmetic::power2::lemma2_to64();
}

/// `n - 1 = d·2^s` with `s ≥ 1` and `d` odd: `d` is the odd part of `n - 1`.
pub open spec fn mr_split(n: nat, d: nat, s: nat) -> bool {
    s >= 1 && d % 2 == 1 && d * pow2(s) == n - 1
}

/// A number is below 2 to the power of its bit length.
pub proof fn lemma_below_pow2_bit_len(v: nat)
    ensures
        v < pow2(bit_len(v)),
    decreases v,
{
    vstd::arithmetic::power2::lemma2_to64();
    if v > 0 {
        lemma_below_pow2_bit_len(v / 2);
        vstd::arithmetic::power2::lemma_pow2_unfold(bit_len(v));
        assert(bit_len(v) - 1 == bit_len(v / 2));
    }
}

/// `a` passes the strong-probable-prime test for `n` with `n - 1 = d·2^s`:
/// `a^d ≡ 1`, or `a^(d·2^k) ≡ -1` for some `k < s`.
pub open spec fn mr_passes(a: nat, d: nat, n: nat, s: nat) -> bool {
    mr_value(a, d, n, 0) == 1 || exists|k: nat| k < s && #[trigger] mr_value(a, d, n, k) == n - 1
}

/// Every witness in `ws` lies in `[2, n - 2]` and passes the test.
pub open spec fn all_pass(ws: Seq<nat>, d: nat, n: nat, s: nat) -> bool {
    forall|i: int| 0 <= i < ws.len() ==> 2 <= #[trigger] ws[i] <= n - 2 && mr_passes(ws[i], d, n, s)
}

/// `n` passed `rounds` rounds of Miller–Rabin: some `rounds` witnesses all
/// pass the test for `n - 1 = d·2^s` with `d` odd ([`mr_split`]).
pub open spec fn mr_certified(n: nat, rounds: nat) -> bool {
    exists|ws: Seq<nat>, d: nat, s: nat|
        #[trigger] all_pass(ws, d, n, s) && ws.len() == rounds && mr_split(n, d, s)
}

/// What the prime search checks of its result: 3, or 40 passed rounds of
/// Miller–Rabin.
pub open spec fn prime_tested(p: nat) -> bool {
    p == 3 || mr_certified(p, 40)
}

/// Generate a probable prime of exactly `bits` bits using Miller–Rabin.
///
/// The top and bottom bits of each candidate are forced to 1 and the
/// candidate is tested with 40 Miller–Rabin rounds. Should 2^64 candidates in
/// a row be rejected, the result is `None`.
pub fn random_prime(rng: &mut ChaCha20Rng, bits: u64) -> (r: Option<UBig>)
    requires
        2 <= bits <= 0xffff_ffff,
    ensures
        r matches Some(p) ==> pow2((bits - 1) as nat) <= p@ < pow2(bits as nat),
        r matches Some(p) ==> p@ % 2 == 1,
        r matches Some(p) ==> prime_tested(p@),
        r matches Some(p) ==> found_by_search(bits as nat, p@),
{
    let mut attempts: u64 = 0;
    let ghost mut drawn: Seq<nat> = Seq::empty();
    loop
        invariant
            2 <= bits <= 0xffff_ffff,
            rejected_draws(drawn, bits as nat),
        decreases u64::MAX - attempts,
    {
        let c0 = UBig::random_bits(rng, bits);
        let candidate = prime_candidate(&c0, bits);
        if is_probable_prime(&candidate, 40) {
            proof {
                let all = drawn.push(c0@);
                assert(all.drop_last() =~= drawn);
                assert(prime_search(all, bits as nat, candidate@));
                assert(found_by_search(bits as nat, candidate@));
            }
            return Some(candidate);
        }
        proof {
            vstd::arithmetic::power2::lemma2_to64();
            vstd::arithmetic::power2::lemma_pow2_strictly_increases(1, (bits - 1) as nat);
            if bits == 2 {
                assert(candidate@ == 3) by {
                    assert(pow2(1) == 2);
                    assert(pow2(2) == 4);
                }
            }
            let all = drawn.push(c0@);
            assert forall|i: int| 0 <= i < all.len() implies #[trigger] all[i] < pow2(bits as nat)
                && mr_rejected(prime_candidate_value(all[i], bits as nat)) by {
                if i < drawn.len() {
                    assert(all[i] == drawn[i]);
                }
            }
            drawn = all;
        }
        if attempts == u64::MAX {
            return None;
        }
        attempts = attempts + 1;
    }
}

/// The candidate the prime search makes from a drawn value `c`: `c` with
/// its top bit (`bits - 1`) and its lowest bit set.
pub open spec fn prime_candidate_value(c: nat, bits: nat) -> nat {
    with_bit(with_bit(c, (bits - 1) as nat), 0)
}

/// The candidate made from a drawn `bits`-bit value: its top and lowest bits
/// set, so that it has exactly `bits` bits and is odd.
pub fn prime_candidate(c0: &UBig, bits: u64) -> (r: UBig)
    requires
        2 <= bits <= 0xffff_ffff,
        c0@ < pow2(bits as nat),
    ensures
        r@ == prime_candidate_value(c0@, bits as nat),
        pow2((bits - 1) as nat) <= r@ < pow2(bits as nat),
        r@ % 2 == 1,
{
    let c1 = c0.set_bit(bits - 1);
    let candidate = c1.set_bit(0);
    proof {
        lemma_with_bit_bounds(c0@, (bits - 1) as nat, bits as nat);
        lemma_with_bit_bounds(c1@, 0, bits as nat);
        lemma_with_bit_zero_odd(c1@);
        vstd::arithmetic::power2::lemma2_to64();
        vstd::arithmetic::power2::lemma_pow2_strictly_increases(0, (bits - 1) as nat);
    }
    candidate
}

/// Miller–Rabin rejects `n`: some witness in `[2, n - 2]` fails the
/// strong-probable-prime test.
pub open spec fn mr_rejected(n: nat) -> bool {
    exists|a: nat, d: nat, s: nat| 2 <= a <= n - 2 && mr_split(n, d, s) && !#[trigger] mr_passes(a, d, n, s)
}

/// Every value drawn is below `2^bits`, and the candidate made from it was
/// rejected by Miller–Rabin.
pub open spec fn rejected_draws(drawn: Seq<nat>, bits: nat) -> bool {
    forall|i: int|
        0 <= i < drawn.len() ==> #[trigger] drawn[i] < pow2(bits) && mr_rejected(
            prime_candidate_value(drawn[i], bits),
        )
}

/// `p` is what the prime search returns for some sequence of draws
/// ([`prime_search`]).
pub open spec fn found_by_search(bits: nat, p: nat) -> bool {
    exists|drawn: Seq<nat>| #[trigger] prime_search(drawn, bits, p)
}

/// The prime search drew `drawn` (each below `2^bits`) and returned `p`:
/// `p` is the candidate made from the last value drawn, and the candidates
/// made from every earlier value were rejected.
pub open spec fn prime_search(drawn: Seq<nat>, bits: nat, p: nat) -> bool {
    &&& drawn.len() >= 1
    &&& drawn.last() < pow2(bits)
    &&& p == prime_candidate_value(drawn.last(), bits)
    &&& rejected_draws(drawn.drop_last(), bits)
}

/// One Miller–Rabin round: whether the witness `a` passes the
/// strong-probable-prime test for odd `n` with `n - 1 = d·2^s`.
pub fn mr_round(n: &UBig, d: &UBig, s: u64, a: &UBig) -> (pass: bool)
    requires
        n@ > 4,
        n@ % 2 == 1,
        mr_split(n@, d@, s as nat),
        2 <= a@ <= n@ - 2,
    ensures
        pass == mr_passes(a@, d@, n@, s as nat),
{
    let one = UBig::from_u64(1);
    let two = UBig::from_u64(2);
    let n_minus_1 = n.sub(&one);
    let mut x = a.modpow(d, n);
    proof {
        vstd::arithmetic::power2::lemma2_to64();
        assert(d@ * pow2(0) == d@);
    }
    assert(x@ == mr_value(a@, d@, n@, 0));
    if x.eq(&one) {
        return true;
    }
    if x.eq(&n_minus_1) {
        assert(mr_value(a@, d@, n@, 0) == n@ - 1);
        return true;
    }
    let mut j: u64 = 1;
    while j < s
        invariant
            n@ > 4,
            two@ == 2,
            n_minus_1@ == n@ - 1,
            1 <= j <= s,
            x@ == mr_value(a@, d@, n@, (j - 1) as nat),
            mr_value(a@, d@, n@, 0) != 1,
            forall|k: nat| k < j ==> #[trigger] mr_value(a@, d@, n@, k) != n@ - 1,
        decreases s - j,
    {
        proof {
            lemma_mr_step(a@, d@, n@, (j - 1) as nat);
        }
        x = x.modpow(&two, n);
        if x.eq(&n_minus_1) {
            assert(mr_value(a@, d@, n@, j as nat) == n@ - 1);
            return true;
        }
        j = j + 1;
    }
    false
}

/// Miller–Rabin primality test with `rounds` random witnesses.
///
/// Values below 2, 2 and 3, and even values are decided exactly. For an odd
/// `n > 3` the answer is `true` exactly when each of the `rounds` witnesses
/// drawn from `[2, n - 2]` passes [`mr_round`]; a prime passes every round.
pub fn is_probable_prime(n: &UBig, rounds: u32) -> (r: bool)
    ensures
        n@ < 2 ==> !r,
        (n@ == 2 || n@ == 3) ==> r,
        (n@ > 3 && n@ % 2 == 0) ==> !r,
        is_prime(n@) ==> r,
        (n@ > 3 && n@ % 2 == 1 && rounds == 0) ==> r,
        (n@ > 3 && n@ % 2 == 1 && r) ==> mr_certified(n@, rounds as nat),
        (n@ > 3 && n@ % 2 == 1 && !r) ==> exists|a: nat, d: nat, s: nat|
            2 <= a <= n@ - 2 && mr_split(n@, d, s) && !#[trigger] mr_passes(a, d, n@, s),
{
    let two = UBig::from_u64(2);
    let three = UBig::from_u64(3);
    if n.lt(&two) {
        return false;
    }
    if n.eq(&two) || n.eq(&three) {
        return true;
    }
    if n.is_even() {
        proof {
            if is_prime(n@) {
                assert(n@ % 2 != 0);
            }
        }
        return false;
    }
    let one = UBig::from_u64(1);
    let n_minus_1 = n.sub(&one);
    let mut d = n_minus_1.copy();
    let mut s: u64 = 0;
    let nb = n.bits();
    proof {
        vstd::arithmetic::power2::lemma2_to64();
        lemma_below_pow2_bit_len(n@);
    }
    // n - 1 = d · 2^s with d odd
    while d.is_even()
        invariant
            d@ > 0,
            d@ * pow2(s as nat) == n@ - 1,
            n@ < pow2(nb as nat),
        decreases d@,
    {
        let ghost d0 = d@;
        proof {
            // d is even, so 2^(s+1) <= d·2^s = n - 1 < 2^nb, and s + 1 < nb
            vstd::arithmetic::power2::lemma_pow2_adds(s as nat, 1);
            vstd::arithmetic::power2::lemma2_to64();
            assert(pow2((s + 1) as nat) <= d0 * pow2(s as nat)) by (nonlinear_arith)
                requires
                    d0 >= 2,
                    pow2((s + 1) as nat) == pow2(s as nat) * 2,
            ;
            if s + 1 >= nb {
                if s + 1 > nb {
                    vstd::arithmetic::power2::lemma_pow2_strictly_increases(nb as nat, (s + 1) as nat);
                }
            }
        }
        d = d.shr(1);
        proof {
            vstd::arithmetic::power2::lemma2_to64();
            vstd::arithmetic::power2::lemma_pow2_adds(s as nat, 1);
            vstd::arithmetic::div_mod::lemma_fundamental_div_mod(d0 as int, 2);
            assert(d@ * pow2((s + 1) as nat) == d0 * pow2(s as nat)) by (nonlinear_arith)
                requires
                    d@ == d0 / 2,
                    d0 == 2 * (d0 / 2) + d0 % 2,
                    d0 % 2 == 0,
                    pow2((s + 1) as nat) == pow2(s as nat) * 2,
            ;
        }
        s = s + 1;
    }
    proof {
        // n - 1 is even, so at least one halving happened
        if s == 0 {
            vstd::arithmetic::power2::lemma2_to64();
            assert(pow2(0) == 1);
            assert(d@ * 1 == d@);
            assert(d@ == n@ - 1);
            assert(d@ % 2 == 0);
        }
    }
    assert(mr_split(n@, d@, s as nat));
    let n_minus_2 = n.sub(&two);
    let mut rng = rng();
    let mut i: u32 = 0;
    let ghost mut ws: Seq<nat> = Seq::empty();
    while i < rounds
        invariant
            n@ > 4,
            n@ % 2 == 1,
            n_minus_2@ == n@ - 2,
            two@ == 2,
            mr_split(n@, d@, s as nat),
            i <= rounds,
            ws.len() == i,
            all_pass(ws, d@, n@, s as nat),
        decreases rounds - i,
    {
        let a = UBig::random_range(&mut rng, &two, &n_minus_2);
        if !mr_round(n, &d, s, &a) {
            proof {
                if is_prime(n@) {
                    lemma_prime_passes(a@, d@, n@, s as nat);
                }
                assert(!mr_passes(a@, d@, n@, s as nat));
            }
            return false;
        }
        proof {
            assert(all_pass(ws.push(a@), d@, n@, s as nat)) by {
                assert forall|k: int| 0 <= k < ws.push(a@).len() implies 2 <= #[trigger] ws.push(a@)[k]
                    <= n@ - 2 && mr_passes(ws.push(a@)[k], d@, n@, s as nat) by {
                    if k < ws.len() {
                        assert(ws.push(a@)[k] == ws[k]);
                    }
                }
            }
            ws = ws.push(a@);
        }
        i = i + 1;
    }
    proof {
        let dd: nat = d@;
        let ss: nat = s as nat;
        assert(all_pass(ws, dd, n@, ss) && ws.len() == rounds as nat && mr_split(n@, dd, ss));
        assert(mr_certified(n@, rounds as nat));
    }
    true
}

/// A prime passes the strong-probable-prime test for every witness in
/// `[2, n - 2]`.
pub proof fn lemma_prime_passes(a: nat, d: nat, n: nat, s: nat)
    requires
        is_prime(n),
        n > 4,
        mr_split(n, d, s),
        2 <= a <= n - 2,
    ensures
        mr_passes(a, d, n, s),
{
    if mr_value(a, d, n, 0) != 1 {
        vstd::arithmetic::div_mod::lemma_small_mod(a, n);
        crate::primes::lemma_fermat_unit(n, a);
        assert(d * pow2(s) == (n - 1) as nat);
        lemma_mr_chain(a, d, n, s);
    }
}

/// Convert a residue mod `q` to its centred representative.
pub fn centred(x: &UBig, q: &UBig) -> (r: IBig)
    ensures
        r@ == if x@ > q@ / 2 { x@ - q@ } else { x@ as int },
{
    let half = q.shr(1);
    proof {
        vstd::arithmetic::power2::lemma2_to64();
    }
    if half.lt(x) {
        IBig::from_ubig(x).sub(&IBig::from_ubig(q))
    } else {
        IBig::from_ubig(x)
    }
}

/// The noise that the random words `ws` give: for each word, its lowest bit
/// minus its second-lowest bit, summed.
pub open spec fn noise_sum(ws: Seq<u32>) -> int
    decreases ws.len(),
{
    if ws.len() == 0 {
        0
    } else {
        noise_sum(ws.drop_last()) + (ws.last() & 1) as int - ((ws.last() >> 1u32) & 1) as int
    }
}

/// Sample a small integer: the sum of `eta` differences of two fair coins,
/// taken from the two lowest bits of `eta` random words.
pub fn sample_small_noise(rng: &mut ChaCha20Rng, eta: u32) -> (r: i64)
    ensures
        -(eta as int) <= r <= eta,
        exists|ws: Seq<u32>| ws.len() == eta && r == #[trigger] noise_sum(ws),
{
    let mut acc: i64 = 0;
    let mut i: u32 = 0;
    let ghost mut drawn: Seq<u32> = Seq::empty();
    while i < eta
        invariant
            i <= eta,
            -(i as int) <= acc <= i,
            drawn.len() == i,
            acc == noise_sum(drawn),
        decreases eta - i,
    {
        let bits = next_u32(rng);
        let up = (bits & 1) as i64;
        let down = ((bits >> 1u32) & 1) as i64;
        assert((bits & 1) <= 1 && ((bits >> 1u32) & 1) <= 1) by (bit_vector);
        proof {
            assert(drawn.push(bits).drop_last() =~= drawn);
            drawn = drawn.push(bits);
        }
        acc = acc + up;
        acc = acc - down;
        i = i + 1;
    }
    assert(acc == noise_sum(drawn));
    acc
}

/// Number of bits in a non-negative integer, treating 0 as 1 bit.
pub fn bit_length(n: &UBig) -> (r: u64)
    ensures
        r == if n@ == 0 { 1 } else { bit_len(n@) },
{
    if n.is_zero() {
        1
    } else {
        n.bits()
    }
}

/// Reduce a signed integer into `[0, q)`.
pub fn to_uint_mod(x: &IBig, q: &UBig) -> (r: UBig)
    requires
        q@ > 0,
    ensures
        r@ == x@ % (q@ as int),
{
    let qs = IBig::from_ubig(q);
    let mut r = x.rem(&qs);
    proof {
        lemma_trem(x@, q@ as int);
    }
    if r.is_negative() {
        r = r.add(&qs);
    }
    proof {
        let qi = q@ as int;
        let k = if trem(x@, qi) < 0 { 1 - tdiv(x@, qi) } else { -tdiv(x@, qi) };
        assert(r@ == x@ + qi * k) by (nonlinear_arith)
            requires
                trem(x@, qi) == x@ - qi * tdiv(x@, qi),
                r@ == if trem(x@, qi) < 0 { trem(x@, qi) + qi } else { trem(x@, qi) },
                k == if trem(x@, qi) < 0 { 1 - tdiv(x@, qi) } else { -tdiv(x@, qi) },
        ;
        vstd::arithmetic::div_mod::lemma_mod_multiples_vanish(k, x@, qi);
        assert(0 <= r@ < qi);
        vstd::arithmetic::div_mod::lemma_small_mod(r@ as nat, q@);
    }
    r.magnitude()
}

} // verus!
