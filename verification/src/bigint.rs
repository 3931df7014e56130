//! Arbitrary-precision integers.
//!
//! `UBig` (non-negative) and `IBig` (signed) keep their magnitude as
//! little-endian base-2^32 digits without trailing zeros, so two values are
//! equal exactly when their digits are. The arithmetic itself is done by
//! `num-bigint`; each operation is a small trusted call from digits to
//! digits, and everything around those calls is verified here.

use vstd::prelude::*;
use vstd::arithmetic::power::pow;
use vstd::arithmetic::power2::pow2;
use num_integer::Integer;
use num_bigint::RandBigInt;
use rand_chacha::ChaCha20Rng;

verus! {

/// Whether `|x| < 2^96`, the range that three 32-bit limbs cover.
pub open spec fn magnitude_below_2_96(x: int) -> bool {
    -0x1_0000_0000_0000_0000_0000_0000 < x < 0x1_0000_0000_0000_0000_0000_0000
}

/// The radix of the digit representation.
pub open spec fn radix() -> nat {
    0x1_0000_0000
}

/// Value of little-endian base-2^32 digits.
pub open spec fn digits_val(d: Seq<u32>) -> nat
    decreases d.len(),
{
    if d.len() == 0 {
        0
    } else {
        d[0] as nat + radix() * digits_val(d.drop_first())
    }
}

/// Value of a sign and a magnitude.
pub open spec fn signed_val(neg: bool, d: Seq<u32>) -> int {
    if neg {
        -(digits_val(d) as int)
    } else {
        digits_val(d) as int
    }
}

/// Digits without a trailing (most significant) zero.
pub open spec fn canonical(d: Seq<u32>) -> bool {
    d.len() == 0 || d.last() != 0
}

/// Greatest common divisor (Euclid).
pub open spec fn gcd(a: nat, b: nat) -> nat
    decreases b,
{
    if b == 0 {
        a
    } else {
        gcd(b, a % b)
    }
}

/// Least common multiple, zero when both arguments are zero.
pub open spec fn lcm(a: nat, b: nat) -> nat {
    if a == 0 && b == 0 {
        0
    } else {
        (a / gcd(a, b)) * b
    }
}

/// Number of bits needed to write `v` (zero for zero).
pub open spec fn bit_len(v: nat) -> nat
    decreases v,
{
    if v == 0 {
        0
    } else {
        1 + bit_len(v / 2)
    }
}

/// `v` with bit `k` set.
pub open spec fn with_bit(v: nat, k: nat) -> nat {
    if (v / pow2(k)) % 2 == 1 {
        v
    } else {
        v + pow2(k)
    }
}

/// Quotient of division rounding toward zero (`b != 0`).
pub open spec fn tdiv(a: int, b: int) -> int {
    let q = (if a < 0 { -a } else { a }) / (if b < 0 { -b } else { b });
    if (a < 0) != (b < 0) {
        -q
    } else {
        q
    }
}

/// Remainder of division rounding toward zero; it has the sign of `a`.
pub open spec fn trem(a: int, b: int) -> int {
    a - b * tdiv(a, b)
}

/// Decimal digits of `v`, most significant first.
pub open spec fn decimal(v: nat) -> Seq<char>
    decreases v,
{
    if v < 10 {
        seq![digit_char(v)]
    } else {
        decimal(v / 10).push(digit_char(v % 10))
    }
}

/// The character of a decimal digit.
pub open spec fn digit_char(d: nat) -> char {
    if d == 0 { '0' } else if d == 1 { '1' } else if d == 2 { '2' } else if d == 3 { '3' }
    else if d == 4 { '4' } else if d == 5 { '5' } else if d == 6 { '6' } else if d == 7 { '7' }
    else if d == 8 { '8' } else { '9' }
}

// ---------------------------------------------------------------------------
// Facts about digit sequences
// ---------------------------------------------------------------------------

pub proof fn lemma_val_div_mod(d: Seq<u32>)
    requires
        d.len() > 0,
    ensures
        digits_val(d) % radix() == d[0] as nat,
        digits_val(d) / radix() == digits_val(d.drop_first()),
{
    let x = digits_val(d) as int;
    let q = digits_val(d.drop_first()) as int;
    assert(x == q * 0x1_0000_0000 + d[0] as int);
    vstd::arithmetic::div_mod::lemma_fundamental_div_mod_converse(x, 0x1_0000_0000, q, d[0] as int);
}

pub proof fn lemma_val_drop_zero(d: Seq<u32>)
    requires
        d.len() > 0,
        d.last() == 0,
    ensures
        digits_val(d) == digits_val(d.drop_last()),
    decreases d.len(),
{
    if d.len() == 1 {
        assert(d.drop_first().len() == 0);
        assert(d.drop_last().len() == 0);
        assert(digits_val(d.drop_first()) == 0);
        assert(digits_val(d.drop_last()) == 0);
        assert(d[0] == d.last());
    } else {
        let r = d.drop_first();
        lemma_val_drop_zero(r);
        assert(d.drop_last().drop_first() =~= r.drop_last());
        assert(d.drop_last()[0] == d[0]);
    }
}

pub proof fn lemma_canonical_pos(d: Seq<u32>)
    requires
        canonical(d),
        d.len() > 0,
    ensures
        digits_val(d) > 0,
    decreases d.len(),
{
    if d.len() > 1 {
        let r = d.drop_first();
        assert(r.last() == d.last());
        lemma_canonical_pos(r);
    }
}

pub proof fn lemma_canonical_unique(a: Seq<u32>, b: Seq<u32>)
    requires
        canonical(a),
        canonical(b),
        digits_val(a) == digits_val(b),
    ensures
        a == b,
    decreases a.len(),
{
    if a.len() == 0 {
        if b.len() > 0 {
            lemma_canonical_pos(b);
        }
        assert(a =~= b);
    } else if b.len() == 0 {
        lemma_canonical_pos(a);
    } else {
        lemma_val_div_mod(a);
        lemma_val_div_mod(b);
        let ra = a.drop_first();
        let rb = b.drop_first();
        assert(canonical(ra)) by {
            if ra.len() > 0 {
                assert(ra.last() == a.last());
            }
        }
        assert(canonical(rb)) by {
            if rb.len() > 0 {
                assert(rb.last() == b.last());
            }
        }
        lemma_canonical_unique(ra, rb);
        assert(a =~= b) by {
            assert forall|i: int| 0 <= i < a.len() implies a[i] == b[i] by {
                if i > 0 {
                    assert(a[i] == ra[i - 1]);
                    assert(b[i] == rb[i - 1]);
                }
            }
        }
    }
}

/// Canonical digits of length three or more stand for a value of at least 2^64.
pub proof fn lemma_canonical_big(d: Seq<u32>)
    requires
        canonical(d),
        d.len() >= 3,
    ensures
        digits_val(d) >= radix() * radix(),
{
    let r = d.drop_first();
    let rr = r.drop_first();
    assert(rr.last() == d.last());
    lemma_canonical_pos(rr);
    assert(digits_val(r) >= radix());
}

pub proof fn lemma_val_one(d: Seq<u32>)
    requires
        d.len() == 1,
    ensures
        digits_val(d) == d[0] as nat,
{
    assert(d.drop_first().len() == 0);
    assert(digits_val(d.drop_first()) == 0);
}

pub proof fn lemma_val_two(d: Seq<u32>)
    requires
        d.len() == 2,
    ensures
        digits_val(d) == d[0] as nat + radix() * d[1] as nat,
{
    lemma_val_one(d.drop_first());
}

pub proof fn lemma_val_three(d: Seq<u32>)
    requires
        d.len() == 3,
    ensures
        digits_val(d) == d[0] as nat + radix() * (d[1] as nat + radix() * d[2] as nat),
{
    lemma_val_two(d.drop_first());
}

pub proof fn lemma_val_four(d: Seq<u32>)
    requires
        d.len() == 4,
    ensures
        digits_val(d) == d[0] as nat + radix() * (d[1] as nat + radix() * (d[2] as nat + radix()
            * d[3] as nat)),
{
    lemma_val_three(d.drop_first());
}

/// Drop trailing zero digits.
pub fn trim_digits(v: Vec<u32>) -> (r: Vec<u32>)
    ensures
        canonical(r@),
        digits_val(r@) == digits_val(v@),
{
    let mut r = v;
    while r.len() > 0 && r[r.len() - 1] == 0
        invariant
            digits_val(r@) == digits_val(v@),
        decreases r.len(),
    {
        proof {
            lemma_val_drop_zero(r@);
        }
        r.pop();
    }
    r
}

// ---------------------------------------------------------------------------
// Calls into num-bigint, digits in, digits out
// ---------------------------------------------------------------------------

/// `BigUint` addition (`+`): the digits of the sum.
#[verifier::external_body]
fn biguint_add(a: &[u32], b: &[u32]) -> (r: Vec<u32>)
    ensures
        digits_val(r@) == digits_val(a@) + digits_val(b@),
{
    (num_bigint::BigUint::from_slice(a) + num_bigint::BigUint::from_slice(b)).to_u32_digits()
}

/// `BigUint` subtraction (`-`), which panics on underflow: the digits of the difference.
#[verifier::external_body]
fn biguint_sub(a: &[u32], b: &[u32]) -> (r: Vec<u32>)
    requires
        digits_val(a@) >= digits_val(b@),
    ensures
        digits_val(r@) == digits_val(a@) - digits_val(b@),
{
    (num_bigint::BigUint::from_slice(a) - num_bigint::BigUint::from_slice(b)).to_u32_digits()
}

/// `BigUint` multiplication (`*`): the digits of the product.
#[verifier::external_body]
fn biguint_mul(a: &[u32], b: &[u32]) -> (r: Vec<u32>)
    ensures
        digits_val(r@) == digits_val(a@) * digits_val(b@),
{
    (num_bigint::BigUint::from_slice(a) * num_bigint::BigUint::from_slice(b)).to_u32_digits()
}

/// `Integer::div_rem` on `BigUint`, which panics on a zero divisor: quotient and remainder.
#[verifier::external_body]
fn biguint_div_rem(a: &[u32], b: &[u32]) -> (r: (Vec<u32>, Vec<u32>))
    requires
        digits_val(b@) > 0,
    ensures
        digits_val(r.0@) == digits_val(a@) / digits_val(b@),
        digits_val(r.1@) == digits_val(a@) % digits_val(b@),
{
    let (q, m) = num_bigint::BigUint::from_slice(a).div_rem(&num_bigint::BigUint::from_slice(b));
    (q.to_u32_digits(), m.to_u32_digits())
}

/// `BigUint::modpow`, which panics on a zero modulus. For a modulus above one
/// the result is `base^exp mod m`; for the modulus one nothing is claimed.
#[verifier::external_body]
fn biguint_modpow(b: &[u32], e: &[u32], m: &[u32]) -> (r: Vec<u32>)
    requires
        digits_val(m@) > 0,
    ensures
        digits_val(m@) > 1 ==> digits_val(r@) == pow(digits_val(b@) as int, digits_val(e@))
            % (digits_val(m@) as int),
{
    let m = num_bigint::BigUint::from_slice(m);
    num_bigint::BigUint::from_slice(b).modpow(&num_bigint::BigUint::from_slice(e), &m).to_u32_digits()
}

/// `Integer::gcd` on `BigUint` (zero when both are zero).
#[verifier::external_body]
fn biguint_gcd(a: &[u32], b: &[u32]) -> (r: Vec<u32>)
    ensures
        digits_val(r@) == gcd(digits_val(a@), digits_val(b@)),
{
    num_bigint::BigUint::from_slice(a).gcd(&num_bigint::BigUint::from_slice(b)).to_u32_digits()
}

/// `Integer::lcm` on `BigUint`: `a / gcd(a, b) * b`, zero when both are zero.
#[verifier::external_body]
fn biguint_lcm(a: &[u32], b: &[u32]) -> (r: Vec<u32>)
    ensures
        digits_val(r@) == lcm(digits_val(a@), digits_val(b@)),
{
    num_bigint::BigUint::from_slice(a).lcm(&num_bigint::BigUint::from_slice(b)).to_u32_digits()
}

/// `<` on `BigUint`.
#[verifier::external_body]
fn biguint_lt(a: &[u32], b: &[u32]) -> (r: bool)
    ensures
        r == (digits_val(a@) < digits_val(b@)),
{
    num_bigint::BigUint::from_slice(a) < num_bigint::BigUint::from_slice(b)
}

/// `BigUint::bits`: the number of bits of the value.
#[verifier::external_body]
fn biguint_bits(a: &[u32]) -> (r: u64)
    ensures
        r as nat == bit_len(digits_val(a@)),
{
    num_bigint::BigUint::from_slice(a).bits()
}

/// `BigUint::set_bit(bit, true)`.
#[verifier::external_body]
fn biguint_set_bit(a: &[u32], bit: u64) -> (r: Vec<u32>)
    ensures
        digits_val(r@) == with_bit(digits_val(a@), bit as nat),
{
    let mut x = num_bigint::BigUint::from_slice(a);
    x.set_bit(bit, true);
    x.to_u32_digits()
}

/// `>>` on `BigUint`: division by a power of two.
#[verifier::external_body]
fn biguint_shr(a: &[u32], k: u64) -> (r: Vec<u32>)
    ensures
        digits_val(r@) == digits_val(a@) / pow2(k as nat),
{
    (num_bigint::BigUint::from_slice(a) >> k).to_u32_digits()
}

/// `BigUint::to_str_radix(10)`: the decimal digits.
#[verifier::external_body]
fn biguint_to_decimal(a: &[u32]) -> (r: String)
    ensures
        r@ == decimal(digits_val(a@)),
{
    num_bigint::BigUint::from_slice(a).to_str_radix(10)
}

/// `+` on `BigInt`.
#[verifier::external_body]
fn bigint_add(an: bool, a: &[u32], bn: bool, b: &[u32]) -> (r: (bool, Vec<u32>))
    ensures
        signed_val(r.0, r.1@) == signed_val(an, a@) + signed_val(bn, b@),
{
    let x = num_bigint::BigInt::from_slice(if an { num_bigint::Sign::Minus } else { num_bigint::Sign::Plus }, a);
    let y = num_bigint::BigInt::from_slice(if bn { num_bigint::Sign::Minus } else { num_bigint::Sign::Plus }, b);
    let (s, d) = (x + y).to_u32_digits();
    (s == num_bigint::Sign::Minus, d)
}

/// `*` on `BigInt`.
#[verifier::external_body]
fn bigint_mul(an: bool, a: &[u32], bn: bool, b: &[u32]) -> (r: (bool, Vec<u32>))
    ensures
        signed_val(r.0, r.1@) == signed_val(an, a@) * signed_val(bn, b@),
{
    let x = num_bigint::BigInt::from_slice(if an { num_bigint::Sign::Minus } else { num_bigint::Sign::Plus }, a);
    let y = num_bigint::BigInt::from_slice(if bn { num_bigint::Sign::Minus } else { num_bigint::Sign::Plus }, b);
    let (s, d) = (x * y).to_u32_digits();
    (s == num_bigint::Sign::Minus, d)
}

/// `/` and `%` on `BigInt` (both round toward zero; the remainder takes the
/// sign of the dividend), which panic on a zero divisor.
#[verifier::external_body]
fn bigint_div_rem(an: bool, a: &[u32], bn: bool, b: &[u32]) -> (r: (bool, Vec<u32>, bool, Vec<u32>))
    requires
        digits_val(b@) > 0,
    ensures
        signed_val(r.0, r.1@) == tdiv(signed_val(an, a@), signed_val(bn, b@)),
        signed_val(r.2, r.3@) == trem(signed_val(an, a@), signed_val(bn, b@)),
{
    let x = num_bigint::BigInt::from_slice(if an { num_bigint::Sign::Minus } else { num_bigint::Sign::Plus }, a);
    let y = num_bigint::BigInt::from_slice(if bn { num_bigint::Sign::Minus } else { num_bigint::Sign::Plus }, b);
    let (qs, qd) = (&x / &y).to_u32_digits();
    let (rs, rd) = (&x % &y).to_u32_digits();
    (qs == num_bigint::Sign::Minus, qd, rs == num_bigint::Sign::Minus, rd)
}

/// `Integer::extended_gcd` on `BigInt` for two non-negative arguments: a
/// non-negative gcd and Bezout coefficients `x`, `y` with `a·x + b·y = gcd`.
#[verifier::external_body]
fn bigint_extended_gcd(a: &[u32], b: &[u32]) -> (r: (Vec<u32>, bool, Vec<u32>, bool, Vec<u32>))
    ensures
        digits_val(r.0@) == gcd(digits_val(a@), digits_val(b@)),
        digits_val(a@) * signed_val(r.1, r.2@) + digits_val(b@) * signed_val(r.3, r.4@)
            == digits_val(r.0@) as int,
{
    let x = num_bigint::BigInt::from_slice(num_bigint::Sign::Plus, a);
    let e = x.extended_gcd(&num_bigint::BigInt::from_slice(num_bigint::Sign::Plus, b));
    let (xs, xd) = e.x.to_u32_digits();
    let (ys, yd) = e.y.to_u32_digits();
    (e.gcd.to_u32_digits().1, xs == num_bigint::Sign::Minus, xd, ys == num_bigint::Sign::Minus, yd)
}

/// The ChaCha20 generator of `rand_chacha`.
#[verifier::external_type_specification]
#[verifier::external_body]
pub struct ExChaCha20Rng(rand_chacha::ChaCha20Rng);

/// `RandBigInt::gen_biguint_below`, which panics on a zero bound: a value below the bound.
#[verifier::external_body]
fn biguint_rand_below(rng: &mut ChaCha20Rng, bound: &[u32]) -> (r: Vec<u32>)
    requires
        digits_val(bound@) > 0,
    ensures
        digits_val(r@) < digits_val(bound@),
{
    rng.gen_biguint_below(&num_bigint::BigUint::from_slice(bound)).to_u32_digits()
}

/// `RandBigInt::gen_biguint`: a value of at most `bits` bits.
#[verifier::external_body]
fn biguint_rand_bits(rng: &mut ChaCha20Rng, bits: u64) -> (r: Vec<u32>)
    requires
        bits <= 0xffff_ffff,
    ensures
        digits_val(r@) < pow2(bits as nat),
{
    rng.gen_biguint(bits).to_u32_digits()
}

/// `RandBigInt::gen_biguint_range`, which panics unless `lo < hi`: a value in `lo..hi`.
#[verifier::external_body]
fn biguint_rand_range(rng: &mut ChaCha20Rng, lo: &[u32], hi: &[u32]) -> (r: Vec<u32>)
    requires
        digits_val(lo@) < digits_val(hi@),
    ensures
        digits_val(lo@) <= digits_val(r@) < digits_val(hi@),
{
    let l = num_bigint::BigUint::from_slice(lo);
    rng.gen_biguint_range(&l, &num_bigint::BigUint::from_slice(hi)).to_u32_digits()
}

// ---------------------------------------------------------------------------
// Unsigned big integers
// ---------------------------------------------------------------------------

/// A non-negative integer of any size.
#[derive(Debug, PartialEq, Eq)]
pub struct UBig {
    digits: Vec<u32>,
}

impl UBig {
    #[verifier::type_invariant]
    spec fn inv(self) -> bool {
        canonical(self.digits@)
    }

    /// The value.
    pub closed spec fn val(self) -> nat {
        digits_val(self.digits@)
    }

    fn from_digits(v: Vec<u32>) -> (r: UBig)
        ensures
            r.val() == digits_val(v@),
    {
        UBig { digits: trim_digits(v) }
    }

    pub fn zero() -> (r: UBig)
        ensures
            r@ == 0,
    {
        UBig { digits: Vec::new() }
    }

    pub fn from_u64(v: u64) -> (r: UBig)
        ensures
            r@ == v,
    {
        let lo = (v & 0xffff_ffff) as u32;
        let hi = (v >> 32u64) as u32;
        assert(((v & 0xffff_ffff) as u32) as u64 == v % 0x1_0000_0000 && ((v >> 32u64) as u32)
            as u64 == v / 0x1_0000_0000) by (bit_vector);
        let mut d: Vec<u32> = Vec::new();
        d.push(lo);
        d.push(hi);
        proof {
            lemma_val_two(d@);
        }
        UBig::from_digits(d)
    }

    pub fn from_u128(v: u128) -> (r: UBig)
        ensures
            r@ == v,
    {
        let d0 = (v & 0xffff_ffff) as u32;
        let d1 = ((v >> 32u128) & 0xffff_ffff) as u32;
        let d2 = ((v >> 64u128) & 0xffff_ffff) as u32;
        let d3 = (v >> 96u128) as u32;
        assert(((v & 0xffff_ffff) as u32) as u128 == v % 0x1_0000_0000 && (((v >> 32u128)
            & 0xffff_ffff) as u32) as u128 == (v / 0x1_0000_0000) % 0x1_0000_0000 && (((v
            >> 64u128) & 0xffff_ffff) as u32) as u128 == (v / 0x1_0000_0000_0000_0000)
            % 0x1_0000_0000 && ((v >> 96u128) as u32) as u128 == v
            / 0x1_0000_0000_0000_0000_0000_0000) by (bit_vector);
        let mut d: Vec<u32> = Vec::new();
        d.push(d0);
        d.push(d1);
        d.push(d2);
        d.push(d3);
        proof {
            lemma_val_four(d@);
            let b = 0x1_0000_0000int;
            let x = v as int;
            vstd::arithmetic::div_mod::lemma_fundamental_div_mod(x, b);
            vstd::arithmetic::div_mod::lemma_fundamental_div_mod(x / b, b);
            vstd::arithmetic::div_mod::lemma_fundamental_div_mod(x / b / b, b);
            vstd::arithmetic::div_mod::lemma_div_denominator(x, b, b);
            vstd::arithmetic::div_mod::lemma_div_denominator(x / b, b, b);
            vstd::arithmetic::div_mod::lemma_div_denominator(x, b, b * b);
            assert(x / b / b / b < b) by {
                assert(x / (b * b * b) < b) by (nonlinear_arith)
                    requires
                        0 <= x < b * b * b * b,
                        b > 0,
                ;
            }
            vstd::arithmetic::div_mod::lemma_small_mod((x / b / b / b) as nat, b as nat);
        }
        UBig::from_digits(d)
    }

    /// The value, when it fits in a `u64`.
    pub fn to_u64(&self) -> (r: Option<u64>)
        ensures
            r matches Some(x) ==> x == self@,
            r is None <==> self@ > u64::MAX,
    {
        proof {
            use_type_invariant(self);
        }
        let n = self.digits.len();
        if n == 0 {
            Some(0)
        } else if n == 1 {
            proof {
                lemma_val_one(self.digits@);
            }
            Some(self.digits[0] as u64)
        } else if n == 2 {
            proof {
                lemma_val_two(self.digits@);
            }
            let lo = self.digits[0] as u64;
            let hi = self.digits[1] as u64;
            assert(hi * 0x1_0000_0000 + lo <= u64::MAX) by (nonlinear_arith)
                requires
                    lo < 0x1_0000_0000,
                    hi < 0x1_0000_0000,
            ;
            Some(hi * 0x1_0000_0000 + lo)
        } else {
            proof {
                lemma_canonical_big(self.digits@);
            }
            None
        }
    }

    pub fn is_zero(&self) -> (r: bool)
        ensures
            r == (self@ == 0),
    {
        proof {
            use_type_invariant(self);
            if self.digits.len() > 0 {
                lemma_canonical_pos(self.digits@);
            }
        }
        self.digits.len() == 0
    }

    pub fn is_even(&self) -> (r: bool)
        ensures
            r == (self@ % 2 == 0),
    {
        if self.digits.len() == 0 {
            true
        } else {
            proof {
                lemma_val_div_mod(self.digits@);
                let v = self@ as int;
                vstd::arithmetic::div_mod::lemma_mod_mod(v, 2, 0x8000_0000);
            }
            self.digits[0] % 2 == 0
        }
    }

    pub fn eq(&self, other: &UBig) -> (r: bool)
        ensures
            r == (self@ == other@),
    {
        proof {
            use_type_invariant(self);
            use_type_invariant(other);
        }
        if self.digits.len() != other.digits.len() {
            proof {
                if self@ == other@ {
                    lemma_canonical_unique(self.digits@, other.digits@);
                }
            }
            return false;
        }
        let mut i: usize = 0;
        while i < self.digits.len()
            invariant
                i <= self.digits.len() == other.digits.len(),
                canonical(self.digits@),
                canonical(other.digits@),
                forall|j: int| 0 <= j < i ==> self.digits@[j] == other.digits@[j],
            decreases self.digits.len() - i,
        {
            if self.digits[i] != other.digits[i] {
                proof {
                    if self@ == other@ {
                        lemma_canonical_unique(self.digits@, other.digits@);
                    }
                }
                return false;
            }
            i = i + 1;
        }
        assert(self.digits@ =~= other.digits@);
        true
    }

    pub fn lt(&self, other: &UBig) -> (r: bool)
        ensures
            r == (self@ < other@),
    {
        biguint_lt(self.digits.as_slice(), other.digits.as_slice())
    }

    pub fn le(&self, other: &UBig) -> (r: bool)
        ensures
            r == (self@ <= other@),
    {
        !biguint_lt(other.digits.as_slice(), self.digits.as_slice())
    }

    pub fn copy(&self) -> (r: UBig)
        ensures
            r@ == self@,
    {
        proof {
            use_type_invariant(self);
        }
        let d = self.digits.clone();
        assert(d@ =~= self.digits@);
        UBig { digits: d }
    }

    pub fn add(&self, other: &UBig) -> (r: UBig)
        ensures
            r@ == self@ + other@,
    {
        UBig::from_digits(biguint_add(self.digits.as_slice(), other.digits.as_slice()))
    }

    pub fn sub(&self, other: &UBig) -> (r: UBig)
        requires
            self@ >= other@,
        ensures
            r@ == self@ - other@,
    {
        UBig::from_digits(biguint_sub(self.digits.as_slice(), other.digits.as_slice()))
    }

    pub fn mul(&self, other: &UBig) -> (r: UBig)
        ensures
            r@ == self@ * other@,
    {
        UBig::from_digits(biguint_mul(self.digits.as_slice(), other.digits.as_slice()))
    }

    pub fn div_rem(&self, other: &UBig) -> (r: (UBig, UBig))
        requires
            other@ > 0,
        ensures
            r.0@ == self@ / other@,
            r.1@ == self@ % other@,
    {
        let (q, m) = biguint_div_rem(self.digits.as_slice(), other.digits.as_slice());
        (UBig::from_digits(q), UBig::from_digits(m))
    }

    pub fn div(&self, other: &UBig) -> (r: UBig)
        requires
            other@ > 0,
        ensures
            r@ == self@ / other@,
    {
        self.div_rem(other).0
    }

    /// Remainder; for non-negative values this is also the floored modulus.
    pub fn rem(&self, other: &UBig) -> (r: UBig)
        requires
            other@ > 0,
        ensures
            r@ == self@ % other@,
    {
        self.div_rem(other).1
    }

    pub fn modpow(&self, exp: &UBig, m: &UBig) -> (r: UBig)
        requires
            m@ > 0,
        ensures
            m@ > 1 ==> r@ == pow(self@ as int, exp@) % (m@ as int),
    {
        UBig::from_digits(
            biguint_modpow(self.digits.as_slice(), exp.digits.as_slice(), m.digits.as_slice()),
        )
    }

    pub fn gcd(&self, other: &UBig) -> (r: UBig)
        ensures
            r@ == gcd(self@, other@),
    {
        UBig::from_digits(biguint_gcd(self.digits.as_slice(), other.digits.as_slice()))
    }

    pub fn lcm(&self, other: &UBig) -> (r: UBig)
        ensures
            r@ == lcm(self@, other@),
    {
        UBig::from_digits(biguint_lcm(self.digits.as_slice(), other.digits.as_slice()))
    }

    pub fn bits(&self) -> (r: u64)
        ensures
            r == bit_len(self@),
    {
        biguint_bits(self.digits.as_slice())
    }

    pub fn set_bit(&self, bit: u64) -> (r: UBig)
        ensures
            r@ == with_bit(self@, bit as nat),
    {
        UBig::from_digits(biguint_set_bit(self.digits.as_slice(), bit))
    }

    pub fn shr(&self, k: u64) -> (r: UBig)
        ensures
            r@ == self@ / pow2(k as nat),
    {
        UBig::from_digits(biguint_shr(self.digits.as_slice(), k))
    }

    pub fn to_decimal(&self) -> (r: String)
        ensures
            r@ == decimal(self@),
    {
        biguint_to_decimal(self.digits.as_slice())
    }

    /// A uniformly random value below `bound`.
    pub fn random_below(rng: &mut ChaCha20Rng, bound: &UBig) -> (r: UBig)
        requires
            bound@ > 0,
        ensures
            r@ < bound@,
    {
        UBig::from_digits(biguint_rand_below(rng, bound.digits.as_slice()))
    }

    /// A uniformly random value of at most `bits` bits.
    pub fn random_bits(rng: &mut ChaCha20Rng, bits: u64) -> (r: UBig)
        requires
            bits <= 0xffff_ffff,
        ensures
            r@ < pow2(bits as nat),
    {
        UBig::from_digits(biguint_rand_bits(rng, bits))
    }

    /// A uniformly random value in `lo..hi`.
    pub fn random_range(rng: &mut ChaCha20Rng, lo: &UBig, hi: &UBig) -> (r: UBig)
        requires
            lo@ < hi@,
        ensures
            lo@ <= r@ < hi@,
    {
        UBig::from_digits(biguint_rand_range(rng, lo.digits.as_slice(), hi.digits.as_slice()))
    }

    /// Little-endian base-2^32 digits, without trailing zeros.
    pub fn to_digits(&self) -> (r: Vec<u32>)
        ensures
            digits_val(r@) == self@,
            canonical(r@),
    {
        proof {
            use_type_invariant(self);
        }
        self.digits.clone()
    }

    /// The value of little-endian base-2^32 digits.
    pub fn from_u32_digits(v: Vec<u32>) -> (r: UBig)
        ensures
            r@ == digits_val(v@),
    {
        UBig::from_digits(v)
    }
}

// ---------------------------------------------------------------------------
// Signed big integers
// ---------------------------------------------------------------------------

/// An integer of any size and sign.
#[derive(Debug, PartialEq, Eq)]
pub struct IBig {
    neg: bool,
    mag: UBig,
}

impl IBig {
    #[verifier::type_invariant]
    spec fn inv(self) -> bool {
        self.mag@ == 0 ==> !self.neg
    }

    /// The value.
    pub closed spec fn val(self) -> int {
        if self.neg {
            -(self.mag@ as int)
        } else {
            self.mag@ as int
        }
    }

    fn from_parts(neg: bool, v: Vec<u32>) -> (r: IBig)
        ensures
            r.val() == signed_val(neg, v@),
    {
        let mag = UBig::from_digits(v);
        let z = mag.is_zero();
        IBig { neg: neg && !z, mag }
    }

    pub fn zero() -> (r: IBig)
        ensures
            r@ == 0,
    {
        IBig { neg: false, mag: UBig::zero() }
    }

    pub fn from_ubig(v: &UBig) -> (r: IBig)
        ensures
            r@ == v@ as int,
    {
        IBig { neg: false, mag: v.copy() }
    }

    pub fn from_i64(v: i64) -> (r: IBig)
        ensures
            r@ == v,
    {
        IBig::from_i128(v as i128)
    }

    pub fn from_i128(v: i128) -> (r: IBig)
        ensures
            r@ == v,
    {
        if v >= 0 {
            IBig { neg: false, mag: UBig::from_u128(v as u128) }
        } else {
            let m = (-(v + 1)) as u128 + 1;
            let mag = UBig::from_u128(m);
            IBig { neg: true, mag }
        }
    }

    /// The value, when its magnitude is below 2^96.
    pub fn to_i128(&self) -> (r: Option<i128>)
        ensures
            r matches Some(x) ==> x == self@,
            r is Some <==> magnitude_below_2_96(self@),
    {
        proof {
            use_type_invariant(self);
            use_type_invariant(&self.mag);
        }
        let d = &self.mag.digits;
        let n = d.len();
        if n > 3 {
            proof {
                lemma_canonical_big(d@);
                let r = d@.drop_first();
                let rr = r.drop_first();
                let rrr = rr.drop_first();
                assert(rrr.last() == d@.last());
                lemma_canonical_pos(rrr);
                lemma_val_div_mod(d@);
                lemma_val_div_mod(r);
                lemma_val_div_mod(rr);
                let v = self.mag@;
                assert(v >= 0x1_0000_0000_0000_0000_0000_0000) by (nonlinear_arith)
                    requires
                        v == d@[0] as nat + 0x1_0000_0000 * (r[0] as nat + 0x1_0000_0000 * (
                        rr[0] as nat + 0x1_0000_0000 * digits_val(rrr))),
                        digits_val(rrr) >= 1,
                ;
            }
            return None;
        }
        let mut x: u128 = 0;
        if n >= 1 {
            x = d[0] as u128;
        }
        if n >= 2 {
            x = x + (d[1] as u128) * 0x1_0000_0000;
        }
        if n >= 3 {
            x = x + (d[2] as u128) * 0x1_0000_0000_0000_0000;
        }
        proof {
            if n == 0 {
            } else if n == 1 {
                lemma_val_one(d@);
            } else if n == 2 {
                lemma_val_two(d@);
            } else {
                lemma_val_three(d@);
            }
        }
        assert(x < 0x1_0000_0000_0000_0000_0000_0000);
        let xi = x as i128;
        if self.neg {
            Some(-xi)
        } else {
            Some(xi)
        }
    }

    /// The value, when it lies in `0..=u64::MAX`.
    pub fn to_u64(&self) -> (r: Option<u64>)
        ensures
            r matches Some(x) ==> x == self@,
            r is None <==> (self@ < 0 || self@ > u64::MAX),
    {
        proof {
            use_type_invariant(self);
        }
        if self.neg {
            None
        } else {
            self.mag.to_u64()
        }
    }

    pub fn copy(&self) -> (r: IBig)
        ensures
            r@ == self@,
    {
        proof {
            use_type_invariant(self);
        }
        IBig { neg: self.neg, mag: self.mag.copy() }
    }

    /// The absolute value as an unsigned integer.
    pub fn magnitude(&self) -> (r: UBig)
        ensures
            r@ as int == if self@ < 0 { -self@ } else { self@ },
    {
        self.mag.copy()
    }

    pub fn abs(&self) -> (r: IBig)
        ensures
            r@ == if self@ < 0 { -self@ } else { self@ },
    {
        IBig { neg: false, mag: self.mag.copy() }
    }

    pub fn neg(&self) -> (r: IBig)
        ensures
            r@ == -self@,
    {
        proof {
            use_type_invariant(self);
        }
        let z = self.mag.is_zero();
        IBig { neg: !self.neg && !z, mag: self.mag.copy() }
    }

    pub fn is_zero(&self) -> (r: bool)
        ensures
            r == (self@ == 0),
    {
        self.mag.is_zero()
    }

    pub fn is_negative(&self) -> (r: bool)
        ensures
            r == (self@ < 0),
    {
        proof {
            use_type_invariant(self);
        }
        self.neg
    }

    /// Bezout coefficients: a non-negative `g = gcd(a, b)` with `a·x + b·y = g`.
    pub fn extended_gcd(a: &UBig, b: &UBig) -> (r: (UBig, IBig, IBig))
        ensures
            r.0@ == gcd(a@, b@),
            a@ * r.1@ + b@ * r.2@ == r.0@ as int,
    {
        let (g, xn, xd, yn, yd) = bigint_extended_gcd(a.digits.as_slice(), b.digits.as_slice());
        (UBig::from_digits(g), IBig::from_parts(xn, xd), IBig::from_parts(yn, yd))
    }

    pub fn eq(&self, other: &IBig) -> (r: bool)
        ensures
            r == (self@ == other@),
    {
        proof {
            use_type_invariant(self);
            use_type_invariant(other);
        }
        self.neg == other.neg && self.mag.eq(&other.mag)
    }

    pub fn lt(&self, other: &IBig) -> (r: bool)
        ensures
            r == (self@ < other@),
    {
        proof {
            use_type_invariant(self);
            use_type_invariant(other);
        }
        if self.neg && !other.neg {
            true
        } else if !self.neg && other.neg {
            false
        } else if self.neg {
            other.mag.lt(&self.mag)
        } else {
            self.mag.lt(&other.mag)
        }
    }

    pub fn le(&self, other: &IBig) -> (r: bool)
        ensures
            r == (self@ <= other@),
    {
        !other.lt(self)
    }

    pub fn add(&self, other: &IBig) -> (r: IBig)
        ensures
            r@ == self@ + other@,
    {
        let (n, d) = bigint_add(
            self.neg,
            self.mag.digits.as_slice(),
            other.neg,
            other.mag.digits.as_slice(),
        );
        IBig::from_parts(n, d)
    }

    pub fn sub(&self, other: &IBig) -> (r: IBig)
        ensures
            r@ == self@ - other@,
    {
        let (n, d) = bigint_add(
            self.neg,
            self.mag.digits.as_slice(),
            !other.neg,
            other.mag.digits.as_slice(),
        );
        IBig::from_parts(n, d)
    }

    pub fn mul(&self, other: &IBig) -> (r: IBig)
        ensures
            r@ == self@ * other@,
    {
        let (n, d) = bigint_mul(
            self.neg,
            self.mag.digits.as_slice(),
            other.neg,
            other.mag.digits.as_slice(),
        );
        IBig::from_parts(n, d)
    }

    /// Quotient rounded toward zero and the remainder with the sign of `self`.
    pub fn div_rem(&self, other: &IBig) -> (r: (IBig, IBig))
        requires
            other@ != 0,
        ensures
            r.0@ == tdiv(self@, other@),
            r.1@ == trem(self@, other@),
    {
        let (qn, qd, rn, rd) = bigint_div_rem(
            self.neg,
            self.mag.digits.as_slice(),
            other.neg,
            other.mag.digits.as_slice(),
        );
        (IBig::from_parts(qn, qd), IBig::from_parts(rn, rd))
    }

    /// Division rounding toward zero.
    pub fn div(&self, other: &IBig) -> (r: IBig)
        requires
            other@ != 0,
        ensures
            r@ == tdiv(self@, other@),
    {
        self.div_rem(other).0
    }

    /// Remainder with the sign of `self`.
    pub fn rem(&self, other: &IBig) -> (r: IBig)
        requires
            other@ != 0,
        ensures
            r@ == trem(self@, other@),
    {
        self.div_rem(other).1
    }

    /// Number of bits of the absolute value.
    pub fn bits(&self) -> (r: u64)
        ensures
            r == bit_len(if self@ < 0 { (-self@) as nat } else { self@ as nat }),
    {
        self.mag.bits()
    }

    /// Sign and little-endian base-2^32 digits of the magnitude.
    pub fn to_parts(&self) -> (r: (bool, Vec<u32>))
        ensures
            signed_val(r.0, r.1@) == self@,
    {
        (self.neg, self.mag.to_digits())
    }

    /// The integer with the given sign and magnitude digits.
    pub fn from_sign_digits(neg: bool, v: Vec<u32>) -> (r: IBig)
        ensures
            r@ == signed_val(neg, v@),
    {
        IBig::from_parts(neg, v)
    }
}

impl Clone for UBig {
    fn clone(&self) -> (r: Self)
        ensures
            r@ == self@,
    {
        self.copy()
    }
}

impl Clone for IBig {
    fn clone(&self) -> (r: Self)
        ensures
            r@ == self@,
    {
        self.copy()
    }
}

impl View for IBig {
    type V = int;

    closed spec fn view(&self) -> int {
        self.val()
    }
}

impl View for UBig {
    type V = nat;

    closed spec fn view(&self) -> nat {
        self.val()
    }
}

} // verus!
