//! Elementary number theory over primes: Euclid's lemma, the binomial
//! theorem, Fermat's little theorem, the Carmichael exponent of a product of
//! two distinct primes, and the order of squares modulo a safe prime. Paillier
//! and BGN decryption rest on these facts.

use vstd::prelude::*;
use vstd::arithmetic::power::pow;
use vstd::arithmetic::div_mod::{
    lemma_fundamental_div_mod, lemma_mod_multiples_basic, lemma_mul_mod_noop_left,
    lemma_small_mod, lemma_mod_equivalence,
};
use crate::bigint::{gcd, lcm};

verus! {

/// `p` is prime: greater than one, with no divisor strictly between 1 and `p`.
pub open spec fn is_prime(p: nat) -> bool {
    p > 1 && forall|d: nat| 1 < d < p ==> #[trigger] (p % d) != 0
}

/// `d` divides `x` when `x = d · k` for the quotient `k`.
proof fn lemma_divides_as_product(x: int, d: int)
    requires
        d > 0,
        x % d == 0,
    ensures
        x == d * (x / d),
{
    lemma_fundamental_div_mod(x, d);
}

/// Euclid's lemma for a cofactor below the prime: `p | a·b` with `0 < a < p` gives `p | b`.
proof fn lemma_euclid_small(p: nat, a: nat, b: int)
    requires
        is_prime(p),
        0 < a < p,
        (a * b) % (p as int) == 0,
    ensures
        b % (p as int) == 0,
    decreases a,
{
    let pi = p as int;
    let ai = a as int;
    if a > 1 {
        assert(p % a != 0);
        let k = (p / a) as int;
        let r = (p % a) as int;
        lemma_fundamental_div_mod(pi, ai);
        assert(pi == ai * k + r);
        lemma_divides_as_product(ai * b, pi);
        let j = (ai * b) / pi;
        assert(r * b == pi * (b - k * j)) by (nonlinear_arith)
            requires
                pi == ai * k + r,
                ai * b == pi * j,
        ;
        lemma_mod_multiples_basic(b - k * j, pi);
        assert((r * b) % pi == 0) by {
            assert(pi * (b - k * j) == (b - k * j) * pi) by (nonlinear_arith);
        }
        lemma_euclid_small(p, r as nat, b);
    } else {
        assert(ai * b == b) by (nonlinear_arith)
            requires
                ai == 1,
        ;
    }
}

/// Euclid's lemma: a prime dividing a product divides one of its factors.
pub proof fn lemma_euclid(p: nat, a: int, b: int)
    requires
        is_prime(p),
        (a * b) % (p as int) == 0,
    ensures
        a % (p as int) == 0 || b % (p as int) == 0,
{
    let pi = p as int;
    let a0 = a % pi;
    if a0 != 0 {
        lemma_mul_mod_noop_left(a, b, pi);
        lemma_euclid_small(p, a0 as nat, b);
    }
}


/// The binomial coefficient `C(n, k)`, by Pascal's rule.
pub open spec fn binom(n: nat, k: nat) -> nat
    decreases n,
{
    if k == 0 {
        1
    } else if n == 0 {
        0
    } else {
        binom((n - 1) as nat, (k - 1) as nat) + binom((n - 1) as nat, k)
    }
}

/// `C(n, k) = 0` above the diagonal, and `C(n, n) = 1`.
proof fn lemma_binom_edges(n: nat, k: nat)
    ensures
        k > n ==> binom(n, k) == 0,
        binom(n, n) == 1,
    decreases n,
{
    if n > 0 {
        lemma_binom_edges((n - 1) as nat, (k - 1) as nat);
        lemma_binom_edges((n - 1) as nat, k);
        lemma_binom_edges((n - 1) as nat, n);
    }
}

/// Absorption: `k · C(n, k) = n · C(n - 1, k - 1)`.
proof fn lemma_binom_absorb(n: nat, k: nat)
    requires
        n >= 1,
        k >= 1,
    ensures
        k * binom(n, k) == n * binom((n - 1) as nat, (k - 1) as nat),
    decreases n,
{
    let n1 = (n - 1) as nat;
    let k1 = (k - 1) as nat;
    if n == 1 {
        lemma_binom_edges(0, k1);
        lemma_binom_edges(0, k);
        if k > 1 {
            assert(binom(0, k1) == 0);
        }
    } else {
        let n2 = (n - 2) as nat;
        // k·C(n-1, k) = (n-1)·C(n-2, k-1)
        lemma_binom_absorb(n1, k);
        let a = binom(n1, k1);
        let b = binom(n1, k);
        assert(binom(n, k) == a + b);
        if k == 1 {
            assert(a == 1);
            assert(binom(n2, 0) == 1);
            assert(k * b == n1 * 1);
            assert(k * binom(n, k) == n * a) by (nonlinear_arith)
                requires
                    k == 1,
                    binom(n, k) == a + b,
                    k * b == n1,
                    a == 1,
                    n1 + 1 == n,
            ;
        } else {
            let k2 = (k - 2) as nat;
            lemma_binom_absorb(n1, k1);
            assert(k1 * a == n1 * binom(n2, k2));
            assert(k * b == n1 * binom(n2, k1));
            assert(a == binom(n2, k2) + binom(n2, k1));
            assert(k * binom(n, k) == n * a) by (nonlinear_arith)
                requires
                    binom(n, k) == a + b,
                    k1 * a == n1 * binom(n2, k2),
                    k * b == n1 * binom(n2, k1),
                    a == binom(n2, k2) + binom(n2, k1),
                    k1 + 1 == k,
                    n1 + 1 == n,
            ;
        }
    }
}

/// A prime divides every inner binomial coefficient `C(p, k)`, `0 < k < p`.
proof fn lemma_prime_divides_binom(p: nat, k: nat)
    requires
        is_prime(p),
        0 < k < p,
    ensures
        binom(p, k) % p == 0,
{
    let pi = p as int;
    lemma_binom_absorb(p, k);
    let c = binom((p - 1) as nat, (k - 1) as nat) as int;
    let ki = k as int;
    let bk = binom(p, k) as int;
    assert(ki * bk == pi * c);
    assert(ki * bk == c * pi) by (nonlinear_arith)
        requires
            ki * bk == pi * c,
    ;
    lemma_mod_multiples_basic(c, pi);
    lemma_euclid(p, k as int, binom(p, k) as int);
    lemma_small_mod(k, p);
}

/// The partial binomial sum `Σ_{i ≤ j} C(n, i) · x^i`.
pub open spec fn binom_sum(x: int, n: nat, j: nat) -> int
    decreases j,
{
    if j == 0 {
        1
    } else {
        binom_sum(x, n, (j - 1) as nat) + binom(n, j) * pow(x, j)
    }
}

/// Pascal's rule summed: `S(n + 1, j) = S(n, j) + x · S(n, j - 1)`.
proof fn lemma_binom_sum_step(x: int, n: nat, j: nat)
    requires
        j >= 1,
    ensures
        binom_sum(x, n + 1, j) == binom_sum(x, n, j) + x * binom_sum(x, n, (j - 1) as nat),
    decreases j,
{
    let j1 = (j - 1) as nat;
    assert(pow(x, j) == x * pow(x, j1)) by {
        reveal(pow);
    }
    assert(binom(n + 1, j) == binom(n, j1) + binom(n, j));
    if j == 1 {
        assert(pow(x, 0) == 1) by {
            reveal(pow);
        }
        assert(binom(n, 0) == 1);
        assert(binom_sum(x, n + 1, 0) == 1);
        assert(binom_sum(x, n, 0) == 1);
        assert(binom_sum(x, n + 1, 1) == 1 + binom(n + 1, 1) * pow(x, 1));
        assert(binom_sum(x, n, 1) == 1 + binom(n, 1) * pow(x, 1));
        assert(binom_sum(x, n + 1, j) == binom_sum(x, n, j) + x * binom_sum(x, n, j1)) by (nonlinear_arith)
            requires
                binom_sum(x, n + 1, 1) == 1 + binom(n + 1, 1) * pow(x, 1),
                binom_sum(x, n, 1) == 1 + binom(n, 1) * pow(x, 1),
                binom(n + 1, 1) == 1 + binom(n, 1),
                pow(x, 1) == x * 1,
                binom_sum(x, n, 0) == 1,
                j == 1,
                j1 == 0,
        ;
    } else {
        let j2 = (j - 2) as nat;
        lemma_binom_sum_step(x, n, j1);
        let s1 = binom_sum(x, n + 1, j1);
        let a = binom_sum(x, n, j1);
        let b = binom_sum(x, n, j2);
        assert(s1 == a + x * b);
        assert(a == b + binom(n, j1) * pow(x, j1));
        assert(binom_sum(x, n, j) == a + binom(n, j) * pow(x, j));
        assert(binom_sum(x, n + 1, j) == s1 + binom(n + 1, j) * pow(x, j));
        assert(binom_sum(x, n + 1, j) == binom_sum(x, n, j) + x * a) by (nonlinear_arith)
            requires
                binom_sum(x, n + 1, j) == s1 + binom(n + 1, j) * pow(x, j),
                s1 == a + x * b,
                a == b + binom(n, j1) * pow(x, j1),
                binom_sum(x, n, j) == a + binom(n, j) * pow(x, j),
                binom(n + 1, j) == binom(n, j1) + binom(n, j),
                pow(x, j) == x * pow(x, j1),
        ;
    }
}

/// The binomial theorem: `(x + 1)^n = Σ_{i ≤ n} C(n, i) · x^i`.
pub proof fn lemma_binomial_theorem(x: int, n: nat)
    ensures
        pow(x + 1, n) == binom_sum(x, n, n),
    decreases n,
{
    reveal(pow);
    if n > 0 {
        let n1 = (n - 1) as nat;
        lemma_binomial_theorem(x, n1);
        lemma_binom_sum_step(x, n1, n);
        lemma_binom_edges(n1, n);
        assert(binom_sum(x, n1, n) == binom_sum(x, n1, n1) + binom(n1, n) * pow(x, n));
        assert(binom(n1, n) * pow(x, n) == 0);
        assert(pow(x + 1, n) == (x + 1) * pow(x + 1, n1));
        assert((x + 1) * binom_sum(x, n1, n1) == binom_sum(x, n1, n1) + x * binom_sum(x, n1, n1)) by (nonlinear_arith);
    }
}


/// Below the top term, the binomial sum of a prime exponent is `1` modulo the prime.
proof fn lemma_prime_binom_sum(p: nat, x: int, j: nat)
    requires
        is_prime(p),
        j < p,
    ensures
        (binom_sum(x, p, j) - 1) % (p as int) == 0,
    decreases j,
{
    let pi = p as int;
    if j == 0 {
        lemma_small_mod(0, p);
    } else {
        let j1 = (j - 1) as nat;
        lemma_prime_binom_sum(p, x, j1);
        lemma_prime_divides_binom(p, j);
        let u = binom_sum(x, p, j1) - 1;
        let b = binom(p, j) as int;
        lemma_divides_as_product(u, pi);
        lemma_divides_as_product(b, pi);
        let w = pow(x, j);
        assert(binom_sum(x, p, j) - 1 == u + b * w);
        let k = u / pi + (b / pi) * w;
        assert(u + b * w == k * pi) by (nonlinear_arith)
            requires
                u == pi * (u / pi),
                b == pi * (b / pi),
                k == u / pi + (b / pi) * w,
        ;
        lemma_mod_multiples_basic(k, pi);
    }
}

/// The "freshman's dream" modulo a prime: `(x + 1)^p ≡ x^p + 1 (mod p)`.
proof fn lemma_freshman(p: nat, x: int)
    requires
        is_prime(p),
    ensures
        (pow(x + 1, p) - (pow(x, p) + 1)) % (p as int) == 0,
{
    let p1 = (p - 1) as nat;
    lemma_binomial_theorem(x, p);
    lemma_binom_edges(p, p);
    assert(binom_sum(x, p, p) == binom_sum(x, p, p1) + binom(p, p) * pow(x, p));
    lemma_prime_binom_sum(p, x, p1);
    assert(pow(x + 1, p) - (pow(x, p) + 1) == binom_sum(x, p, p1) - 1);
}

/// Fermat's little theorem: `a^p ≡ a (mod p)` for a prime `p`.
pub proof fn lemma_fermat(p: nat, a: nat)
    requires
        is_prime(p),
    ensures
        pow(a as int, p) % (p as int) == (a as int) % (p as int),
    decreases a,
{
    let pi = p as int;
    if a == 0 {
        vstd::arithmetic::power::lemma0_pow(p);
    } else {
        let x = (a - 1) as nat;
        lemma_fermat(p, x);
        lemma_freshman(p, x as int);
        // a^p - a = (a^p - (x^p + 1)) + (x^p - x)
        lemma_mod_equivalence(pow(x as int, p), x as int, pi);
        let d1 = pow(a as int, p) - (pow(x as int, p) + 1);
        let d2 = pow(x as int, p) - x;
        lemma_divides_as_product(d1, pi);
        lemma_divides_as_product(d2, pi);
        let k = d1 / pi + d2 / pi;
        assert(pow(a as int, p) - a == k * pi) by (nonlinear_arith)
            requires
                d1 == pi * (d1 / pi),
                d2 == pi * (d2 / pi),
                k == d1 / pi + d2 / pi,
                d1 == pow(a as int, p) - (pow(x as int, p) + 1),
                d2 == pow(x as int, p) - x,
                x + 1 == a,
        ;
        lemma_mod_multiples_basic(k, pi);
        lemma_mod_equivalence(pow(a as int, p), a as int, pi);
    }
}

/// Fermat's little theorem for a unit: `a^(p-1) ≡ 1 (mod p)` when `p ∤ a`.
pub proof fn lemma_fermat_unit(p: nat, a: nat)
    requires
        is_prime(p),
        a % p != 0,
    ensures
        pow(a as int, (p - 1) as nat) % (p as int) == 1,
{
    let pi = p as int;
    let p1 = (p - 1) as nat;
    let e = pow(a as int, p1);
    lemma_fermat(p, a);
    assert(pow(a as int, p) == a * e) by {
        reveal(pow);
    }
    lemma_mod_equivalence(pow(a as int, p), a as int, pi);
    assert(pow(a as int, p) - a == (a as int) * (e - 1)) by (nonlinear_arith)
        requires
            pow(a as int, p) == a * e,
    ;
    lemma_euclid(p, a as int, e - 1);
    lemma_mod_equivalence(e, 1, pi);
    lemma_small_mod(1, p);
}

/// `gcd(a, b)` divides both `a` and `b`, and is positive unless both are zero.
pub proof fn lemma_gcd_divides(a: nat, b: nat)
    ensures
        (a > 0 || b > 0) ==> gcd(a, b) > 0,
        gcd(a, b) > 0 ==> a % gcd(a, b) == 0 && b % gcd(a, b) == 0,
    decreases b,
{
    if b > 0 {
        let r = a % b;
        lemma_gcd_divides(b, r);
        let g = gcd(b, r);
        assert(gcd(a, b) == g);
        if g > 0 {
            let k1 = b / g;
            let k2 = r / g;
            vstd::arithmetic::div_mod::lemma_fundamental_div_mod(b as int, g as int);
            vstd::arithmetic::div_mod::lemma_fundamental_div_mod(r as int, g as int);
            vstd::arithmetic::div_mod::lemma_fundamental_div_mod(a as int, b as int);
            let qa = a / b;
            let kk = (k1 * qa + k2) as int;
            assert(a as int == kk * (g as int)) by (nonlinear_arith)
                requires
                    b == g * k1,
                    r == g * k2,
                    a == b * qa + r,
                    kk == k1 * qa + k2,
            ;
            vstd::arithmetic::div_mod::lemma_mod_multiples_basic(kk, g as int);
        }
    }
}

/// A common divisor of `a` and `b` divides `gcd(a, b)`.
pub proof fn lemma_common_divisor_divides_gcd(a: nat, b: nat, d: nat)
    requires
        d > 0,
        a % d == 0,
        b % d == 0,
    ensures
        gcd(a, b) % d == 0,
    decreases b,
{
    if b > 0 {
        let r = a % b;
        let di = d as int;
        lemma_fundamental_div_mod(a as int, b as int);
        lemma_divides_as_product(a as int, di);
        lemma_divides_as_product(b as int, di);
        let k = (a / d) as int - (a / b) as int * (b / d) as int;
        assert(r as int == k * di) by (nonlinear_arith)
            requires
                a == b * (a / b) + r,
                a as int == di * (a / d) as int,
                b as int == di * (b / d) as int,
                k == (a / d) as int - (a / b) as int * (b / d) as int,
        ;
        lemma_mod_multiples_basic(k, di);
        lemma_common_divisor_divides_gcd(b, r, d);
    }
}

/// A prime factor of `n` does not divide any `r` coprime to `n`.
pub proof fn lemma_coprime_prime_factor(p: nat, n: nat, r: nat)
    requires
        is_prime(p),
        n % p == 0,
        gcd(r, n) == 1,
    ensures
        r % p != 0,
{
    if r % p == 0 {
        lemma_common_divisor_divides_gcd(r, n, p);
        lemma_small_mod(1, p);
    }
}

/// Every `n > 1` has a prime factor.
pub proof fn lemma_prime_factor(n: nat) -> (p: nat)
    requires
        n > 1,
    ensures
        is_prime(p),
        n % p == 0,
    decreases n,
{
    if is_prime(n) {
        vstd::arithmetic::div_mod::lemma_mod_self_0(n as int);
        n
    } else {
        let d = choose|d: nat| 1 < d < n && #[trigger] (n % d) == 0;
        let p = lemma_prime_factor(d);
        lemma_divides_as_product(n as int, d as int);
        lemma_divides_as_product(d as int, p as int);
        let k = (d / p) as int * (n / d) as int;
        assert(n as int == k * (p as int)) by (nonlinear_arith)
            requires
                n as int == (d as int) * ((n / d) as int),
                d as int == (p as int) * ((d / p) as int),
                k == (d / p) as int * (n / d) as int,
        ;
        lemma_mod_multiples_basic(k, p as int);
        p
    }
}

/// `λ = lcm(a, b)` is a multiple of both `a` and `b`.
pub proof fn lemma_lcm_multiple(a: nat, b: nat)
    requires
        a > 0,
        b > 0,
    ensures
        lcm(a, b) == a * (b / gcd(a, b)),
        lcm(a, b) == b * (a / gcd(a, b)),
{
    lemma_gcd_divides(a, b);
    let g = gcd(a, b);
    lemma_divides_as_product(a as int, g as int);
    lemma_divides_as_product(b as int, g as int);
    let x = a / g;
    let y = b / g;
    assert(x * b == a * y) by (nonlinear_arith)
        requires
            a == g * x,
            b == g * y,
    ;
    assert(x * b == b * x) by (nonlinear_arith);
}

/// A power that is `1` modulo `m` stays `1` modulo `m` when raised further.
pub proof fn lemma_pow_one_mod(r: int, e: nat, k: nat, m: int)
    requires
        m > 1,
        pow(r, e) % m == 1,
    ensures
        pow(r, e * k) % m == 1,
{
    vstd::arithmetic::power::lemma_pow_multiplies(r, e, k);
    vstd::arithmetic::power::lemma_pow_mod_noop(pow(r, e), k, m);
    vstd::arithmetic::power::lemma1_pow(k);
    lemma_small_mod(1, m as nat);
}

/// Two distinct primes that both divide `x` divide it together.
pub proof fn lemma_two_primes_divide(p: nat, q: nat, x: int)
    requires
        is_prime(p),
        is_prime(q),
        p != q,
        x % (p as int) == 0,
        x % (q as int) == 0,
    ensures
        x % ((p * q) as int) == 0,
{
    let pi = p as int;
    let qi = q as int;
    lemma_divides_as_product(x, pi);
    let u = x / pi;
    assert(x == pi * u);
    // q does not divide p
    if p % q == 0 {
        if q < p {
            assert(p % q != 0);
        } else {
            lemma_small_mod(p, q);
        }
    }
    lemma_euclid(q, pi, u);
    lemma_divides_as_product(u, qi);
    let v = u / qi;
    assert(x == v * (pi * qi)) by (nonlinear_arith)
        requires
            x == pi * u,
            u == qi * v,
    ;
    assert(pi * qi > 0) by (nonlinear_arith)
        requires
            pi > 1,
            qi > 1,
    ;
    lemma_mod_multiples_basic(v, pi * qi);
}

/// A power of a number that a prime does not divide is not divisible by it either.
pub proof fn lemma_pow_not_divisible(p: nat, r: int, k: nat)
    requires
        is_prime(p),
        r % (p as int) != 0,
    ensures
        pow(r, k) % (p as int) != 0,
    decreases k,
{
    reveal(pow);
    if k == 0 {
        lemma_small_mod(1, p);
    } else {
        lemma_pow_not_divisible(p, r, (k - 1) as nat);
        if pow(r, k) % (p as int) == 0 {
            lemma_euclid(p, r, pow(r, (k - 1) as nat));
        }
    }
}

/// Carmichael: for distinct primes `p`, `q` and `r` divisible by neither,
/// `r^lcm(p-1, q-1) ≡ 1 (mod p·q)`.
pub proof fn lemma_carmichael(p: nat, q: nat, r: nat)
    requires
        is_prime(p),
        is_prime(q),
        p != q,
        r % p != 0,
        r % q != 0,
    ensures
        pow(r as int, lcm((p - 1) as nat, (q - 1) as nat)) % ((p * q) as int) == 1,
{
    let n = p * q;
    let p1 = (p - 1) as nat;
    let q1 = (q - 1) as nat;
    let lambda = lcm(p1, q1);
    lemma_fermat_unit(p, r);
    lemma_fermat_unit(q, r);
    lemma_lcm_multiple(p1, q1);
    let g = gcd(p1, q1);
    lemma_pow_one_mod(r as int, p1, q1 / g, p as int);
    lemma_pow_one_mod(r as int, q1, p1 / g, q as int);
    let e = pow(r as int, lambda);
    lemma_mod_equivalence(e, 1, p as int);
    lemma_mod_equivalence(e, 1, q as int);
    lemma_small_mod(1, p);
    lemma_small_mod(1, q);
    lemma_two_primes_divide(p, q, e - 1);
    assert(n > 1) by (nonlinear_arith)
        requires
            n == p * q,
            p > 1,
            q > 1,
    ;
    lemma_mod_equivalence(e, 1, n as int);
    lemma_small_mod(1, n);
}

/// Each prime factor of `p·q` leaves a non-zero remainder on an `r` coprime to `p·q`.
pub proof fn lemma_coprime_to_product(p: nat, q: nat, r: nat)
    requires
        is_prime(p),
        is_prime(q),
        gcd(r, p * q) == 1,
    ensures
        r % p != 0,
        r % q != 0,
{
    let n = p * q;
    lemma_mod_multiples_basic(q as int, p as int);
    lemma_mod_multiples_basic(p as int, q as int);
    assert(n == q * p) by (nonlinear_arith)
        requires
            n == p * q,
    ;
    lemma_coprime_prime_factor(p, n, r);
    lemma_coprime_prime_factor(q, n, r);
}


/// `g^e ≢ 1 (mod p)` for every exponent `0 < e < k`.
pub open spec fn no_small_order(g: int, p: nat, k: nat) -> bool {
    forall|e: nat| 0 < e < k ==> #[trigger] pow(g, e) % (p as int) != 1
}

/// `g^a ≡ 1` and `g^b ≡ 1` give `g^gcd(a, b) ≡ 1 (mod m)`.
pub proof fn lemma_pow_one_gcd(g: int, a: nat, b: nat, m: int)
    requires
        m > 1,
        pow(g, a) % m == 1,
        pow(g, b) % m == 1,
    ensures
        pow(g, gcd(a, b)) % m == 1,
    decreases b,
{
    if b > 0 {
        let r = a % b;
        let k = a / b;
        lemma_fundamental_div_mod(a as int, b as int);
        lemma_pow_one_mod(g, b, k, m);
        vstd::arithmetic::power::lemma_pow_adds(g, b * k, r);
        assert(b * k + r == a);
        lemma_mul_mod_noop_left(pow(g, b * k), pow(g, r), m);
        assert(1 * pow(g, r) == pow(g, r));
        lemma_pow_one_gcd(g, b, r, m);
    }
}

/// A divisor of a positive number is at most that number.
proof fn lemma_divisor_le(d: nat, k: nat)
    requires
        d > 0,
        k > 0,
        k % d == 0,
    ensures
        d <= k,
{
    lemma_divides_as_product(k as int, d as int);
    let t = k / d;
    assert(d <= k) by (nonlinear_arith)
        requires
            k == d * t,
            k > 0,
            d > 0,
    ;
}

/// Modulo a safe prime `p = 2q + 1` (`q` prime), a square `g = c² mod p`
/// other than 1 has order exactly `q`.
pub proof fn lemma_square_order(p: nat, q: nat, c: nat)
    requires
        is_prime(p),
        is_prime(q),
        p == 2 * q + 1,
        1 < c < p,
        (c * c) % p != 1,
    ensures
        pow(((c * c) % p) as int, q) % (p as int) == 1,
        no_small_order(((c * c) % p) as int, p, q),
        ((c * c) % p) % p != 0,
{
    let pi = p as int;
    let g = ((c * c) % p) as int;
    // g^q ≡ c^(2q) = c^(p-1) ≡ 1
    vstd::arithmetic::power::lemma_pow_mod_noop((c * c) as int, q, pi);
    assert(pow(c as int, 2) == c * c) by {
        reveal(pow);
        vstd::arithmetic::power::lemma_pow1(c as int);
    }
    vstd::arithmetic::power::lemma_pow_multiplies(c as int, 2, q);
    assert(2 * q == (p - 1) as nat);
    lemma_small_mod(c, p);
    lemma_fermat_unit(p, c);
    // no smaller exponent gives 1
    assert forall|k: nat| 0 < k < q implies #[trigger] pow(g, k) % pi != 1 by {
        if pow(g, k) % pi == 1 {
            lemma_pow_one_gcd(g, k, q, pi);
            lemma_gcd_divides(k, q);
            let d = gcd(k, q);
            lemma_divisor_le(d, k);
            if d > 1 {
                assert(q % d != 0);
            }
            assert(d == 1);
            vstd::arithmetic::power::lemma_pow1(g);
            lemma_small_mod(g as nat, p);
        }
    }
    // g is not a multiple of p: otherwise c² would be
    if g % pi == 0 {
        lemma_small_mod(g as nat, p);
        assert(g == 0);
        lemma_euclid(p, c as int, c as int);
    }
}

/// Powers of a unit modulo a prime are distinct for exponents closer than its order.
pub proof fn lemma_distinct_powers(p: nat, g: int, a: nat, b: nat, k: nat)
    requires
        is_prime(p),
        g % (p as int) != 0,
        no_small_order(g, p, k),
        a < b,
        b - a < k,
    ensures
        pow(g, a) % (p as int) != pow(g, b) % (p as int),
{
    let pi = p as int;
    let d = (b - a) as nat;
    if pow(g, a) % pi == pow(g, b) % pi {
        vstd::arithmetic::power::lemma_pow_adds(g, a, d);
        assert(a + d == b);
        let x = pow(g, a);
        let y = pow(g, d);
        lemma_mod_equivalence(x * y, x, pi);
        assert(x * y - x == x * (y - 1)) by (nonlinear_arith);
        lemma_euclid(p, x, y - 1);
        lemma_pow_not_divisible(p, g, a);
        lemma_mod_equivalence(y, 1, pi);
        lemma_small_mod(1, p);
        assert(pow(g, d) % pi != 1);
    }
}


/// A number that a prime does not divide is coprime to it.
pub proof fn lemma_prime_coprime(p: nat, y: nat)
    requires
        is_prime(p),
        y % p != 0,
    ensures
        gcd(y, p) == 1,
{
    lemma_gcd_divides(y, p);
    let d = gcd(y, p);
    lemma_divisor_le(d, p);
    if d > 1 {
        if d < p {
            assert(p % d != 0);
        } else {
            assert(d == p);
        }
    }
}


/// Modulo a prime, the only square roots of 1 are `1` and `-1`.
pub proof fn lemma_sqrt_one(p: nat, y: nat)
    requires
        is_prime(p),
        y < p,
        (y * y) % p == 1,
    ensures
        y == 1 || y == p - 1,
{
    let pi = p as int;
    let yi = y as int;
    lemma_small_mod(1, p);
    lemma_mod_equivalence(yi * yi, 1, pi);
    assert((yi - 1) * (yi + 1) == yi * yi - 1) by (nonlinear_arith);
    lemma_euclid(p, yi - 1, yi + 1);
    if (yi - 1) % pi == 0 {
        lemma_divides_as_product(yi - 1, pi);
        let k = (yi - 1) / pi;
        assert(k == 0) by (nonlinear_arith)
            requires
                yi - 1 == pi * k,
                -1 <= yi - 1 < pi - 1,
                pi > 1,
        ;
    } else {
        lemma_divides_as_product(yi + 1, pi);
        let k = (yi + 1) / pi;
        assert(k == 1) by (nonlinear_arith)
            requires
                yi + 1 == pi * k,
                1 <= yi + 1 <= pi,
                pi > 1,
        ;
    }
}

/// The Miller–Rabin chain `a^(d·2^i) mod n`.
pub open spec fn mr_value(a: nat, d: nat, n: nat, i: nat) -> int {
    pow(a as int, d * vstd::arithmetic::power2::pow2(i)) % (n as int)
}

/// One step of the chain squares the previous value.
pub proof fn lemma_mr_step(a: nat, d: nat, n: nat, i: nat)
    requires
        n > 1,
    ensures
        (mr_value(a, d, n, i) * mr_value(a, d, n, i)) % (n as int) == mr_value(a, d, n, i + 1),
        pow(mr_value(a, d, n, i), 2) % (n as int) == mr_value(a, d, n, i + 1),
{
    let ni = n as int;
    let e = d * vstd::arithmetic::power2::pow2(i);
    let x = pow(a as int, e);
    vstd::arithmetic::power2::lemma_pow2_adds(i, 1);
    vstd::arithmetic::power2::lemma2_to64();
    assert(d * vstd::arithmetic::power2::pow2(i + 1) == e * 2) by (nonlinear_arith)
        requires
            vstd::arithmetic::power2::pow2(i + 1) == vstd::arithmetic::power2::pow2(i) * 2,
            e == d * vstd::arithmetic::power2::pow2(i),
    ;
    vstd::arithmetic::power::lemma_pow_multiplies(a as int, e, 2);
    assert(pow(x, 2) == x * x) by {
        reveal(pow);
        vstd::arithmetic::power::lemma_pow1(x);
    }
    vstd::arithmetic::power::lemma_pow_mod_noop(x, 2, ni);
    assert(pow(x % ni, 2) == (x % ni) * (x % ni)) by {
        reveal(pow);
        vstd::arithmetic::power::lemma_pow1(x % ni);
    }
}

/// For a prime `n`, a chain that starts off 1 and reaches 1 at step `k`
/// passes through `n - 1` before step `k`.
pub proof fn lemma_mr_chain(a: nat, d: nat, n: nat, k: nat)
    requires
        is_prime(n),
        mr_value(a, d, n, 0) != 1,
        mr_value(a, d, n, k) == 1,
    ensures
        exists|i: nat| i < k && #[trigger] mr_value(a, d, n, i) == n - 1,
    decreases k,
{
    if k > 0 {
        let k1 = (k - 1) as nat;
        let y = mr_value(a, d, n, k1);
        lemma_mr_step(a, d, n, k1);
        vstd::arithmetic::div_mod::lemma_mod_bound(pow(a as int, d * vstd::arithmetic::power2::pow2(k1)), n as int);
        lemma_sqrt_one(n, y as nat);
        if y == 1 {
            lemma_mr_chain(a, d, n, k1);
        } else {
            assert(mr_value(a, d, n, k1) == n - 1);
        }
    }
}

} // verus!
