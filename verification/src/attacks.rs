//! Textbook attacks.
//!
//! Deliberately weak configurations and the attacks that break them. The
//! point is pedagogical: students should see *why* the standard parameter
//! choices exist. None of these routines can attack a properly sized key
//! pair; they only succeed when the key is intentionally tiny.

use vstd::prelude::*;
use vstd::arithmetic::power::pow;
use crate::bigint::{UBig, gcd, lcm};
use crate::schemes::paillier;
use crate::schemes::paillier::{enc_value, l_value, dec_value};
use crate::primes::is_prime;
use crate::util;

verus! {

/// Result of a factoring attempt.
#[derive(Clone, Debug)]
pub struct Factorisation {
    /// First factor.
    pub p: UBig,
    /// Second factor.
    pub q: UBig,
    /// How many steps were taken.
    pub steps: u64,
}

/// No odd number in `3..d` divides `n`.
pub open spec fn no_odd_divisor_below(n: nat, d: nat) -> bool {
    forall|e: nat| 3 <= e < d && e % 2 == 1 ==> #[trigger] (n % e) != 0
}

/// Trial-division factorisation. Even `n` splits as `2 · n/2` in one step;
/// odd `n` is tried against `3, 5, 7, …` while `d² ≤ n`, for fewer than
/// `max_steps` steps. Practical only for `n` up to ~50 bits.
pub fn factor_trial_division(n: &UBig, max_steps: u64) -> (r: Option<Factorisation>)
    ensures
        n@ % 2 == 0 ==> (r matches Some(f) && f.p@ == 2 && f.q@ == n@ / 2 && f.steps == 1),
        n@ % 2 == 1 ==> match r {
            Some(f) => {
                &&& f.p@ * f.q@ == n@
                &&& 3 <= f.p@ && f.p@ % 2 == 1 && n@ % f.p@ == 0 && f.p@ * f.p@ <= n@
                &&& no_odd_divisor_below(n@, f.p@)
                &&& f.steps == (f.p@ - 1) / 2 && f.steps < max_steps
            },
            None => forall|e: nat|
                3 <= e && e % 2 == 1 && e * e <= n@ && (e - 1) / 2 < max_steps ==> #[trigger] (n@
                    % e) != 0,
        },
{
    let two = UBig::from_u64(2);
    if n.is_even() {
        let q = n.div(&two);
        return Some(Factorisation { p: two, q, steps: 1 });
    }
    let mut d = UBig::from_u64(3);
    let mut steps: u64 = 1;
    while d.mul(&d).le(n) && steps < max_steps
        invariant
            n@ % 2 == 1,
            two@ == 2,
            1 <= steps,
            d@ == 2 * steps + 1,
            no_odd_divisor_below(n@, d@),
            steps <= max_steps || steps == 1,
        decreases max_steps - steps,
    {
        let (q, m) = n.div_rem(&d);
        if m.is_zero() {
            proof {
                vstd::arithmetic::div_mod::lemma_fundamental_div_mod(n@ as int, d@ as int);
            }
            return Some(Factorisation { p: d, q, steps });
        }
        proof {
            assert forall|e: nat| 3 <= e < d@ + 2 && e % 2 == 1 implies #[trigger] (n@ % e) != 0 by {
                if e < d@ {
                    assert(no_odd_divisor_below(n@, d@));
                } else if e == d@ {
                } else {
                    assert(e == d@ + 1);
                    assert(false);
                }
            }
        }
        d = d.add(&two);
        steps = steps + 1;
    }
    proof {
        assert forall|e: nat|
            3 <= e && e % 2 == 1 && e * e <= n@ && (e - 1) / 2 < max_steps implies #[trigger] (n@
            % e) != 0 by {
            if e >= d@ {
                assert(e * e >= d@ * d@) by (nonlinear_arith)
                    requires
                        e >= d@,
                        d@ >= 0,
                ;
            }
        }
    }
    None
}

/// One step of the rho walk: `x ↦ (x² + c) mod n`.
pub open spec fn rho_step(x: nat, c: nat, n: nat) -> nat {
    ((x * x + c) % n) as nat
}

/// The walk from `x0` after `k` steps.
pub open spec fn rho_iter(x0: nat, c: nat, n: nat, k: nat) -> nat
    decreases k,
{
    if k == 0 {
        x0
    } else {
        rho_step(rho_iter(x0, c, n, (k - 1) as nat), c, n)
    }
}

/// `|a - b|`.
pub open spec fn abs_diff(a: nat, b: nat) -> nat {
    if a < b {
        (b - a) as nat
    } else {
        (a - b) as nat
    }
}

/// The gcd that Floyd's cycle search checks at step `k`:
/// `gcd(|x_k - x_2k|, n)`.
pub open spec fn rho_gcd(x0: nat, c: nat, n: nat, k: nat) -> nat {
    gcd(abs_diff(rho_iter(x0, c, n, k), rho_iter(x0, c, n, 2 * k)), n)
}

/// The first step `k` in `from..=max` at which [`rho_gcd`] is not 1.
pub open spec fn rho_first_from(x0: nat, c: nat, n: nat, max: nat, from: nat) -> Option<nat>
    decreases max + 1 - from,
{
    if from > max {
        None
    } else if rho_gcd(x0, c, n, from) != 1 {
        Some(from)
    } else {
        rho_first_from(x0, c, n, max, from + 1)
    }
}

/// One rho attempt from `x0` with constant `c`, stopping at the first gcd
/// other than 1 within `max` steps: that gcd and the step, when it is a
/// proper divisor (not `n` itself).
pub open spec fn rho_spec(n: nat, x0: nat, c: nat, max: nat) -> Option<(nat, nat)> {
    match rho_first_from(x0, c, n, max, 1) {
        Some(k) => if rho_gcd(x0, c, n, k) != n {
            Some((rho_gcd(x0, c, n, k), k))
        } else {
            None
        },
        None => None,
    }
}

/// One attempt of Pollard's rho with Floyd's cycle search from `x0` with
/// constant `c`, for at most `max_steps` steps.
pub fn rho_attempt(n: &UBig, x0: &UBig, c: &UBig, max_steps: u64) -> (r: Option<Factorisation>)
    requires
        n@ % 2 == 1,
        n@ > 1,
        x0@ < n@,
        c@ < n@,
    ensures
        match rho_spec(n@, x0@, c@, max_steps as nat) {
            Some((d, k)) => r matches Some(f) && f.p@ == d && f.q@ == n@ / d && f.steps == k,
            None => r is None,
        },
        r matches Some(f) ==> f.p@ * f.q@ == n@ && 1 < f.p@ < n@ && n@ % f.p@ == 0,
{
    let one = UBig::from_u64(1);
    let mut x = x0.copy();
    let mut y = x0.copy();
    let mut d = one.copy();
    let mut steps: u64 = 0;
    let ghost (n0, a0, c0, mx) = (n@, x0@, c@, max_steps as nat);
    while d.eq(&one) && steps < max_steps
        invariant
            n@ == n0 && x0@ == a0 && c@ == c0 && max_steps == mx,
            n0 % 2 == 1,
            n0 > 1,
            one@ == 1,
            steps <= max_steps,
            x@ == rho_iter(a0, c0, n0, steps as nat),
            y@ == rho_iter(a0, c0, n0, 2 * steps as nat),
            d@ == 1 ==> rho_first_from(a0, c0, n0, mx, 1) == rho_first_from(a0, c0, n0, mx, (steps + 1) as nat),
            d@ != 1 ==> steps >= 1 && rho_first_from(a0, c0, n0, mx, 1) == Some(steps as nat) && d@
                == rho_gcd(a0, c0, n0, steps as nat),
        decreases max_steps - steps,
    {
        x = x.mul(&x).add(c).rem(n);
        y = y.mul(&y).add(c).rem(n);
        proof {
            assert(rho_iter(a0, c0, n0, (2 * steps + 1) as nat) == rho_step(rho_iter(a0, c0, n0, 2 * steps as nat), c0, n0));
        }
        y = y.mul(&y).add(c).rem(n);
        proof {
            assert(rho_iter(a0, c0, n0, (2 * steps + 2) as nat) == rho_step(rho_iter(a0, c0, n0, (2 * steps + 1) as nat), c0, n0));
            assert(rho_iter(a0, c0, n0, (steps + 1) as nat) == rho_step(rho_iter(a0, c0, n0, steps as nat), c0, n0));
            assert((2 * steps + 2) as nat == 2 * ((steps + 1) as nat));
        }
        let diff = if y.lt(&x) {
            x.sub(&y)
        } else {
            y.sub(&x)
        };
        d = diff.gcd(n);
        steps = steps + 1;
        assert(d@ == rho_gcd(a0, c0, n0, steps as nat));
    }
    proof {
        crate::primes::lemma_gcd_divides(abs_diff(x@, y@), n0);
    }
    if !d.eq(&one) && !d.eq(n) {
        let q = n.div(&d);
        proof {
            vstd::arithmetic::div_mod::lemma_fundamental_div_mod(n@ as int, d@ as int);
            if d@ > n@ {
                vstd::arithmetic::div_mod::lemma_small_mod(n@, d@);
            }
        }
        return Some(Factorisation { p: d, q, steps });
    }
    None
}

/// Pollard's rho with fresh random starting points: up to 8 attempts
/// ([`rho_attempt`]) of at most `max_steps` steps each, each from a random
/// start and constant below `n`. Even `n` splits as `2 · n/2` in one step.
///
/// A factor is reported only when it is a divisor strictly between 1 and
/// `n`; the attempts may all fail, in which case the result is `None`.
pub fn factor_pollard_rho(n: &UBig, max_steps: u64) -> (r: Option<Factorisation>)
    ensures
        n@ % 2 == 0 ==> (r matches Some(f) && f.p@ == 2 && f.q@ == n@ / 2 && f.steps == 1),
        n@ % 2 == 1 ==> (r matches Some(f) ==> f.p@ * f.q@ == n@ && 1 < f.p@ < n@ && n@ % f.p@
            == 0),
        n@ % 2 == 1 ==> (r matches Some(f) ==> exists|x0: nat, c: nat|
            x0 < n@ && c < n@ && #[trigger] rho_spec(n@, x0, c, max_steps as nat) == Some((f.p@, f.steps as nat))),
        n@ == 1 ==> r is None,
{
    let two = UBig::from_u64(2);
    if n.is_even() {
        let q = n.div(&two);
        return Some(Factorisation { p: two, q, steps: 1 });
    }
    let one = UBig::from_u64(1);
    if n.eq(&one) {
        return None;
    }
    let mut rng = util::rng();
    let mut outer: u32 = 0;
    while outer < 8
        invariant
            n@ % 2 == 1,
            n@ > 1,
        decreases 8 - outer,
    {
        let x = util::rand_below(&mut rng, n);
        let c = util::rand_below(&mut rng, n);
        if let Some(f) = rho_attempt(n, &x, &c, max_steps) {
            assert(rho_spec(n@, x@, c@, max_steps as nat) == Some((f.p@, f.steps as nat)));
            return Some(f);
        }
        outer = outer + 1;
    }
    None
}

/// The `L` value from which `μ` is computed for modulus `n` and exponent `λ`:
/// `L((1 + n)^λ mod n²)`.
pub open spec fn mu_base(n: nat, lambda: nat) -> int {
    l_value((pow((n + 1) as int, lambda) % ((n * n) as int)) as nat, n)
}

/// Recover a Paillier secret key from a factorisation of the modulus:
/// `λ = lcm(p - 1, q - 1)` and `μ = L((1+n)^λ mod n²)⁻¹ mod n`.
///
/// This is the obvious lesson: factor `n` and the whole thing falls.
pub fn recover_paillier_sk(pk: &paillier::PublicKey, fact: &Factorisation) -> (sk: paillier::SecretKey)
    requires
        fact.p@ * fact.q@ == pk.n@,
        pk.n@ > 1,
        gcd(mu_base(pk.n@, lcm((fact.p@ - 1) as nat, (fact.q@ - 1) as nat)) as nat, pk.n@) == 1,
    ensures
        sk.pk.n@ == pk.n@,
        sk.lambda@ == lcm((fact.p@ - 1) as nat, (fact.q@ - 1) as nat),
        sk.mu@ < pk.n@,
        (mu_base(pk.n@, sk.lambda@) * sk.mu@) % (pk.n@ as int) == 1,
{
    proof {
        if fact.p@ == 0 || fact.q@ == 0 {
            assert(fact.p@ * fact.q@ == 0) by (nonlinear_arith)
                requires
                    fact.p@ == 0 || fact.q@ == 0,
            ;
        }
    }
    let one = UBig::from_u64(1);
    let p_minus_1 = fact.p.sub(&one);
    let q_minus_1 = fact.q.sub(&one);
    let lambda = p_minus_1.lcm(&q_minus_1);
    let n_sq = pk.n_squared();
    proof {
        paillier::lemma_square_pos(pk.n@ as int);
    }
    let g = pk.n.add(&one);
    let g_lambda = util::mod_pow(&g, &lambda, &n_sq);
    proof {
        paillier::lemma_one_plus_n_pow(pk.n@ as int, lambda@);
        assert(g_lambda@ >= 1);
    }
    let l = g_lambda.sub(&one).div(&pk.n);
    assert(l@ == mu_base(pk.n@, lambda@));
    let mu = match util::mod_inverse(&l, &pk.n) {
        Some(x) => x,
        None => {
            assert(false);
            one.copy()
        },
    };
    proof {
        vstd::arithmetic::div_mod::lemma_small_mod(1, pk.n@);
    }
    paillier::SecretKey { lambda, mu, pk: pk.copy() }
}

/// The key recovered from a factorisation into two distinct primes works:
/// with `λ = lcm(p - 1, q - 1)` and `μ` inverse to `mu_base(n, λ)` modulo
/// `n` (what [`recover_paillier_sk`] returns), every encryption of `m` under
/// randomness coprime to `n` decrypts to `m mod n`.
pub proof fn lemma_recovered_key_decrypts(n: nat, p: nat, q: nat, lambda: nat, mu: nat, m: nat, r: nat)
    requires
        is_prime(p),
        is_prime(q),
        p != q,
        n == p * q,
        lambda == lcm((p - 1) as nat, (q - 1) as nat),
        (mu_base(n, lambda) * mu) % (n as int) == 1,
        gcd(r, n) == 1,
    ensures
        dec_value(n, lambda, mu, enc_value(n, m, r) as nat) == m % n,
{
    paillier::lemma_decrypt_encrypt(n, lambda, mu, p, q, m, r);
}

/// Search `0..bound` for a plaintext that encrypts to `target` under the
/// known randomness `r`.
///
/// Paillier used with *deterministic* randomness is broken when the message
/// space is tiny: anyone can re-encrypt every candidate and compare.
pub fn brute_force_paillier(
    pk: &paillier::PublicKey,
    target: &paillier::Ciphertext,
    r: &UBig,
    bound: u64,
) -> (res: Option<u64>)
    requires
        pk.n@ > 0,
    ensures
        res matches Some(m) ==> m < bound && enc_value(pk.n@, m as nat, r@) == target.c@ && forall|
            k: nat,
        | k < m ==> #[trigger] enc_value(pk.n@, k, r@) != target.c@,
        res is None ==> forall|k: nat| k < bound ==> #[trigger] enc_value(pk.n@, k, r@) != target.c@,
{
    let mut m: u64 = 0;
    while m < bound
        invariant
            pk.n@ > 0,
            m <= bound,
            forall|k: nat| k < m ==> #[trigger] enc_value(pk.n@, k, r@) != target.c@,
        decreases bound - m,
    {
        let m_b = UBig::from_u64(m);
        let test = paillier::encrypt_with_randomness(pk, &m_b, r);
        if test.c.eq(&target.c) {
            return Some(m);
        }
        m = m + 1;
    }
    None
}

} // verus!
