//! Educational visualisations: traces and ciphertext anatomy diagrams.
//!
//! Nothing here adds cryptographic capability; it helps a student *see*
//! what is happening. Every function is pure: data in, terminal-ready text
//! out.

use vstd::prelude::*;
use crate::bigint::{UBig, IBig, decimal, bit_len};
use crate::ring::{self, max_abs, padd, pneg, pmul, is_small, is_ternary};
use crate::schemes::{bfv, paillier};
use crate::text;
use crate::text::int_decimal;
use vstd::utf8::{encode_utf8, decode_utf8, is_char_boundary};
use vstd::string::StringSliceAdditionalSpecFns;

verus! {

/// Decimal digits shortened to "first8…last8" when there are more than 20.
pub open spec fn shortened(s: Seq<char>) -> Seq<char> {
    if s.len() <= 20 {
        s
    } else {
        s.take(8) + seq!['…'] + s.skip(s.len() - 8)
    }
}

/// The text of [`short_uint`].
pub open spec fn short_uint_text(v: nat) -> Seq<char> {
    shortened(decimal(v)) + " ("@ + decimal(bit_len(v)) + "bits)"@
}

/// The text of [`short_int`].
pub open spec fn short_int_text(v: int) -> Seq<char> {
    if v < 0 {
        seq!['-'] + shortened(decimal((-v) as nat))
    } else {
        shortened(decimal(v as nat))
    }
}

fn shorten(s: &[char]) -> (r: Vec<char>)
    ensures
        r@ == shortened(s@),
{
    if s.len() <= 20 {
        text::slice_of(s, 0, s.len())
    } else {
        let mut r = text::slice_of(s, 0, 8);
        r.push('…');
        let tail = text::slice_of(s, s.len() - 8, s.len());
        text::push_all(&mut r, tail.as_slice());
        assert(s@.subrange(0, 8) =~= s@.take(8));
        assert(s@.subrange(s@.len() - 8, s@.len() as int) =~= s@.skip(s@.len() - 8));
        r
    }
}

/// Format an unsigned integer shortened to "first8…last8 (Nbits)".
pub fn short_uint(x: &UBig) -> (r: String)
    ensures
        r@ == short_uint_text(x@),
{
    let d = text::chars_of(x.to_decimal().as_str());
    let mut r = shorten(d.as_slice());
    text::push_str(&mut r, " (");
    let b = text::u64_decimal(x.bits());
    text::push_all(&mut r, b.as_slice());
    text::push_str(&mut r, "bits)");
    text::string_of(r.as_slice())
}

/// Format a signed integer shortened similarly, with a leading `-` when negative.
pub fn short_int(x: &IBig) -> (r: String)
    ensures
        r@ == short_int_text(x@),
{
    let d = text::chars_of(x.magnitude().to_decimal().as_str());
    let mut r: Vec<char> = Vec::new();
    if x.is_negative() {
        r.push('-');
    }
    let s = shorten(d.as_slice());
    text::push_all(&mut r, s.as_slice());
    proof {
        if x@ >= 0 {
            assert(r@ =~= shortened(decimal(x@ as nat)));
        }
    }
    text::string_of(r.as_slice())
}

// ---------------------------------------------------------------------------
// Terminal styling
// ---------------------------------------------------------------------------

/// A character that starts a terminal escape sequence.
pub open spec fn has_escape(s: Seq<char>) -> bool {
    exists|k: int| 0 <= k < s.len() && s[k] == '\u{1b}'
}

/// `r` is `s` as the `colored` crate renders it with the SGR parameters
/// `code`: unchanged when colouring is off, wrapped in the style and reset
/// sequences when it is on.
pub open spec fn styled(s: Seq<char>, code: Seq<char>, r: Seq<char>) -> bool {
    !has_escape(s) ==> (r == s || r == "\u{1b}["@ + code + "m"@ + s + "\u{1b}[0m"@)
}

/// `Colorize::dimmed`, rendered with `Display`. Whether colours are used
/// depends on the environment and on whether stdout is a terminal, so the
/// contract allows both renderings.
#[verifier::external_body]
pub fn dimmed(s: &str) -> (r: String)
    ensures
        styled(s@, "2"@, r@),
{
    colored::Colorize::dimmed(s).to_string()
}

/// `Colorize::bold`, rendered with `Display` (plain or styled, as for [`dimmed`]).
#[verifier::external_body]
fn bold(s: &str) -> (r: String)
    ensures
        styled(s@, "1"@, r@),
{
    colored::Colorize::bold(s).to_string()
}

/// `Colorize::bold` then `Colorize::underline`, rendered with `Display`
/// (plain or styled, as for [`dimmed`]).
#[verifier::external_body]
fn bold_underline(s: &str) -> (r: String)
    ensures
        styled(s@, "1;4"@, r@),
{
    colored::Colorize::underline(colored::Colorize::bold(s)).to_string()
}

/// `Colorize::cyan` then `Colorize::bold`, rendered with `Display`
/// (plain or styled, as for [`dimmed`]).
#[verifier::external_body]
fn cyan_bold(s: &str) -> (r: String)
    ensures
        styled(s@, "1;36"@, r@),
{
    colored::Colorize::bold(colored::Colorize::cyan(s)).to_string()
}

/// `Colorize::green`, rendered with `Display` (plain or styled, as for [`dimmed`]).
#[verifier::external_body]
fn green(s: &str) -> (r: String)
    ensures
        styled(s@, "32"@, r@),
{
    colored::Colorize::green(s).to_string()
}

/// `Colorize::yellow`, rendered with `Display` (plain or styled, as for [`dimmed`]).
#[verifier::external_body]
fn yellow(s: &str) -> (r: String)
    ensures
        styled(s@, "33"@, r@),
{
    colored::Colorize::yellow(s).to_string()
}

// ---------------------------------------------------------------------------
// Traces
// ---------------------------------------------------------------------------

/// A single step in a homomorphic-operation trace.
#[derive(Clone, Debug)]
pub struct TraceStep {
    /// Short label (`"keygen"`, `"enc(a)"`, `"add"`).
    pub label: String,
    /// Multi-line description of what happened.
    pub detail: String,
    /// Optional value snapshot, shortened for display.
    pub snapshot: Option<String>,
}

impl TraceStep {
    /// Build a new step.
    pub fn new(label: &str, detail: &str) -> (r: Self)
        ensures
            r.label@ == label@,
            r.detail@ == detail@,
            r.snapshot is None,
    {
        TraceStep {
            label: text::string_of(text::chars_of(label).as_slice()),
            detail: text::string_of(text::chars_of(detail).as_slice()),
            snapshot: None,
        }
    }

    /// Attach a value snapshot (truncated when rendered).
    pub fn with_snapshot(self, snapshot: &str) -> (r: Self)
        ensures
            r.label == self.label,
            r.detail == self.detail,
            r.snapshot matches Some(s) && s@ == snapshot@,
    {
        let mut r = self;
        r.snapshot = Some(text::string_of(text::chars_of(snapshot).as_slice()));
        r
    }
}

fn step(label: &str, detail: &[char], snapshot: &[char]) -> (r: TraceStep)
    ensures
        r.label@ == label@,
        r.detail@ == detail@,
        r.snapshot matches Some(s) && s@ == snapshot@,
{
    let d = text::string_of(detail);
    let sn = text::string_of(snapshot);
    TraceStep::new(label, d.as_str()).with_snapshot(sn.as_str())
}

/// The snapshot that reports noise figures `(noise, log₂ noise, budget)`.
pub open spec fn noise_snapshot(f: (int, nat, nat)) -> Seq<char> {
    "noise ≈ 2^"@ + decimal(f.1) + ".0, budget ≈ "@ + decimal(f.2) + ".0 bits ("@ + short_int_text(f.0)
        + ")"@
}

fn noise_snap(sk: &bfv::SecretKey, ct: &bfv::Ciphertext) -> (r: Vec<char>)
    requires
        sk.params.q@ != 0,
        sk.params.t@ != 0,
        crate::bigint::tdiv(sk.params.q@, sk.params.t@) != 0,
        1 <= ct.parts.len(),
        forall|i: int| 1 <= i < ct.parts.len() ==> #[trigger] ct.parts@[i]@.len() == ct.parts@[0]@.len(),
        ct.parts.len() >= 2 ==> ct.parts@[1]@.len() == sk.s@.len(),
    ensures
        r@ == noise_snapshot(crate::playground::noise_figures(*sk, *ct)),
{
    let (n, log, budget) = bfv::noise_estimate(sk, ct);
    let mut r: Vec<char> = Vec::new();
    text::push_str(&mut r, "noise ≈ 2^");
    text::push_all(&mut r, text::u64_decimal(log).as_slice());
    text::push_str(&mut r, ".0, budget ≈ ");
    text::push_all(&mut r, text::u64_decimal(budget).as_slice());
    text::push_str(&mut r, ".0 bits (");
    text::push_str(&mut r, short_int(&n).as_str());
    text::push_str(&mut r, ")");
    assert(r@ == noise_snapshot((n@, log as nat, budget as nat)));
    r
}

/// The details of the BFV trace's key-generation step.
pub open spec fn bfv_keygen_detail(n: nat, q: int, t: int, eta: nat) -> Seq<char> {
    "Toy BFV parameters:\n  n = "@ + decimal(n) + "\n  log₂ q ≈ "@ + decimal(
        bit_len(if q < 0 { (-q) as nat } else { q as nat }),
    ) + "\n  t = "@ + int_decimal(t) + "\n  η = "@ + decimal(eta)
}

fn ibig_decimal(x: &IBig) -> (r: Vec<char>)
    ensures
        r@ == int_decimal(x@),
{
    let mut r: Vec<char> = Vec::new();
    if x.is_negative() {
        r.push('-');
    }
    text::push_str(&mut r, x.magnitude().to_decimal().as_str());
    proof {
        if x@ >= 0 {
            assert(r@ =~= decimal(x@ as nat));
        } else {
            assert(r@ =~= seq!['-'] + decimal((-x@) as nat));
        }
    }
    r
}

/// Under the toy parameters, the sum of fresh encryptions of `a < 256` and
/// `b < 256` under an honest key decrypts to `(a + b) mod 256`.
proof fn lemma_toy_sum_decrypts(
    pk: bfv::PublicKey,
    sk: bfv::SecretKey,
    ct_a: bfv::Ciphertext,
    ct_b: bfv::Ciphertext,
    ct_sum: bfv::Ciphertext,
    pa: Seq<u64>,
    pb: Seq<u64>,
    out: Seq<u64>,
)
    requires
        pk.params@ == (1024nat, 1152921504606846883int, 256int, 6nat),
        sk.params@ == pk.params@,
        sk.s@.len() == 1024,
        is_ternary(sk.s@),
        pk.a@.len() == 1024,
        exists|e: Seq<int>|
            e.len() == pk.params.n && is_small(e, pk.params.eta as int) && #[trigger] pk.b@ == pneg(
                padd(pmul(pk.a@, sk.s@, pk.params.q@), e, pk.params.q@),
                pk.params.q@,
            ),
        exists|u: Seq<int>, e1: Seq<int>, e2: Seq<int>|
            #![trigger bfv::encrypt_parts(pk@, pa, u, e1, e2)]
            u.len() == pk.params.n && is_ternary(u) && e1.len() == pk.params.n && is_small(
                e1,
                pk.params.eta as int,
            ) && e2.len() == pk.params.n && is_small(e2, pk.params.eta as int) && (
            ct_a.parts@[0]@,
            ct_a.parts@[1]@,
            ) == bfv::encrypt_parts(pk@, pa, u, e1, e2),
        exists|u: Seq<int>, e1: Seq<int>, e2: Seq<int>|
            #![trigger bfv::encrypt_parts(pk@, pb, u, e1, e2)]
            u.len() == pk.params.n && is_ternary(u) && e1.len() == pk.params.n && is_small(
                e1,
                pk.params.eta as int,
            ) && e2.len() == pk.params.n && is_small(e2, pk.params.eta as int) && (
            ct_b.parts@[0]@,
            ct_b.parts@[1]@,
            ) == bfv::encrypt_parts(pk@, pb, u, e1, e2),
        ct_a.parts.len() == 2,
        ct_b.parts.len() == 2,
        ct_sum.parts.len() == 2,
        forall|i: int|
            0 <= i < 2 ==> #[trigger] ct_sum.parts@[i]@ == padd(ct_a.parts@[i]@, ct_b.parts@[i]@, pk.params.q@),
        out.len() >= 1,
        out[0] as int == bfv::decrypt_coeff(
            ring::phase(bfv::parts_view(ct_sum.parts@), sk.s@, sk.params.q@)[0],
            sk.params.t@,
            sk.params.q@,
        ),
        pa.len() == 1,
        pb.len() == 1,
        pa[0] < 256,
        pb[0] < 256,
    ensures
        out[0] == (pa[0] + pb[0]) % 256,
{
    let p = pk.params@;
    let q = pk.params.q@;
    let e = choose|e: Seq<int>|
        e.len() == pk.params.n && is_small(e, pk.params.eta as int) && #[trigger] pk.b@ == pneg(
            padd(pmul(pk.a@, sk.s@, q), e, q),
            q,
        );
    let (u1, e11, e21) = choose|u: Seq<int>, e1: Seq<int>, e2: Seq<int>|
        #![trigger bfv::encrypt_parts(pk@, pa, u, e1, e2)]
        u.len() == pk.params.n && is_ternary(u) && e1.len() == pk.params.n && is_small(
            e1,
            pk.params.eta as int,
        ) && e2.len() == pk.params.n && is_small(e2, pk.params.eta as int) && (
        ct_a.parts@[0]@,
        ct_a.parts@[1]@,
        ) == bfv::encrypt_parts(pk@, pa, u, e1, e2);
    let (u2, e12, e22) = choose|u: Seq<int>, e1: Seq<int>, e2: Seq<int>|
        #![trigger bfv::encrypt_parts(pk@, pb, u, e1, e2)]
        u.len() == pk.params.n && is_ternary(u) && e1.len() == pk.params.n && is_small(
            e1,
            pk.params.eta as int,
        ) && e2.len() == pk.params.n && is_small(e2, pk.params.eta as int) && (
        ct_b.parts@[0]@,
        ct_b.parts@[1]@,
        ) == bfv::encrypt_parts(pk@, pb, u, e1, e2);
    assert forall|i: int| 0 <= i < pa.len() implies (#[trigger] pa[i]) < p.2 by {}
    assert forall|i: int| 0 <= i < pb.len() implies (#[trigger] pb[i]) < p.2 by {}
    bfv::lemma_decrypt_add(p, pk.a@, sk.s@, e, pa, u1, e11, e21, pb, u2, e12, e22);
    assert(bfv::parts_view(ct_sum.parts@) =~= seq![
        padd(ct_a.parts@[0]@, ct_b.parts@[0]@, q),
        padd(ct_a.parts@[1]@, ct_b.parts@[1]@, q),
    ]);
    assert(bfv::padded_plain(pa, 1024)[0] == pa[0]);
    assert(bfv::padded_plain(pb, 1024)[0] == pb[0]);
    let b = pneg(padd(pmul(pk.a@, sk.s@, q), e, q), q);
    assert(pk@ == (b, pk.a@, p));
    let (c0, c1) = bfv::encrypt_parts((b, pk.a@, p), pa, u1, e11, e21);
    let (d0, d1) = bfv::encrypt_parts((b, pk.a@, p), pb, u2, e12, e22);
    assert(c0 == ct_a.parts@[0]@ && c1 == ct_a.parts@[1]@);
    assert(d0 == ct_b.parts@[0]@ && d1 == ct_b.parts@[1]@);
    let ph = ring::phase(seq![padd(c0, d0, q), padd(c1, d1, q)], sk.s@, q);
    assert(bfv::decrypt_coeff(ph[0], 256, q) == (bfv::padded_plain(pa, 1024)[0] + bfv::padded_plain(pb, 1024)[0]) % 256);
}

/// A noise snapshot; when `small` holds, one whose figures are those of a
/// toy encryption with `⌊log₂ noise⌋` at most `log_max` and a budget of
/// `59 - 8 - 1 - ⌊log₂ noise⌋` bits.
pub open spec fn toy_snapshot(s: Seq<char>, small: bool, log_max: nat) -> bool {
    exists|f: (int, nat, nat)|
        s == #[trigger] noise_snapshot(f) && (small ==> f.1 <= log_max && f.2 == 50 - f.1)
}

/// `bit_len` does not decrease.
proof fn lemma_bit_len_mono(a: nat, b: nat)
    requires
        a <= b,
    ensures
        bit_len(a) <= bit_len(b),
    decreases b,
{
    if a > 0 {
        lemma_bit_len_mono(a / 2, b / 2);
    }
}

/// Under the toy parameters (`n = 1024`, `q ≈ 2^60`, `t = 256`, `η = 6`), a
/// fresh encryption of plaintext coefficients below 256 under an honest key
/// has noise figures `(noise, ⌊log₂ noise⌋, budget)` with `⌊log₂ noise⌋` at
/// most 13 and a budget of `59 - 8 - 1 - ⌊log₂ noise⌋`, at least 37 bits:
/// the noise is the small figure and the budget the large one.
#[verifier::spinoff_prover]
#[verifier::rlimit(60)]
pub proof fn law_toy_fresh_figures(
    pk: bfv::PublicKey,
    sk: bfv::SecretKey,
    ct: bfv::Ciphertext,
    plain: Seq<u64>,
)
    requires
        pk.params@ == (1024nat, 1152921504606846883int, 256int, 6nat),
        sk.params@ == pk.params@,
        sk.s@.len() == 1024,
        is_ternary(sk.s@),
        pk.a@.len() == 1024,
        exists|e: Seq<int>|
            e.len() == pk.params.n && is_small(e, pk.params.eta as int) && #[trigger] pk.b@ == pneg(
                padd(pmul(pk.a@, sk.s@, pk.params.q@), e, pk.params.q@),
                pk.params.q@,
            ),
        ct.parts.len() == 2,
        exists|u: Seq<int>, e1: Seq<int>, e2: Seq<int>|
            #![trigger bfv::encrypt_parts(pk@, plain, u, e1, e2)]
            u.len() == pk.params.n && is_ternary(u) && e1.len() == pk.params.n && is_small(
                e1,
                pk.params.eta as int,
            ) && e2.len() == pk.params.n && is_small(e2, pk.params.eta as int) && (
            ct.parts@[0]@,
            ct.parts@[1]@,
            ) == bfv::encrypt_parts(pk@, plain, u, e1, e2),
        forall|i: int| 0 <= i < plain.len() ==> (#[trigger] plain[i]) < 256,
    ensures
        crate::playground::noise_figures(sk, ct).1 <= 13,
        crate::playground::noise_figures(sk, ct).2 == 50 - crate::playground::noise_figures(sk, ct).1,
        crate::playground::noise_figures(sk, ct).2 >= 37,
{
    let p = pk.params@;
    let q = pk.params.q@;
    let e = choose|e: Seq<int>|
        e.len() == pk.params.n && is_small(e, pk.params.eta as int) && #[trigger] pk.b@ == pneg(
            padd(pmul(pk.a@, sk.s@, q), e, q),
            q,
        );
    let (u, e1, e2) = choose|u: Seq<int>, e1: Seq<int>, e2: Seq<int>|
        #![trigger bfv::encrypt_parts(pk@, plain, u, e1, e2)]
        u.len() == pk.params.n && is_ternary(u) && e1.len() == pk.params.n && is_small(
            e1,
            pk.params.eta as int,
        ) && e2.len() == pk.params.n && is_small(e2, pk.params.eta as int) && (
        ct.parts@[0]@,
        ct.parts@[1]@,
        ) == bfv::encrypt_parts(pk@, plain, u, e1, e2);
    assert forall|i: int| 0 <= i < plain.len() implies (#[trigger] plain[i]) < p.2 by {}
    bfv::law_fresh_noise(p, pk.a@, sk.s@, e, plain, u, e1, e2);
    let b = pneg(padd(pmul(pk.a@, sk.s@, q), e, q), q);
    assert(pk@ == (b, pk.a@, p));
    let (c0, c1) = bfv::encrypt_parts((b, pk.a@, p), plain, u, e1, e2);
    assert(bfv::parts_view(ct.parts@) =~= seq![c0, c1]);
    let noise = bfv::max_noise(ring::phase(seq![c0, c1], sk.s@, q), crate::bigint::tdiv(q, 256));
    lemma_toy_bit_lens();
    assert(0 <= noise <= 12457);
    lemma_bit_len_mono(noise as nat, 12457);
}

/// Under the toy parameters, the sum (as `add` makes it) of fresh
/// encryptions of plaintext coefficients below 256 under an honest key has
/// noise figures with `⌊log₂ noise⌋` at most 14, one more than a fresh
/// encryption, and a budget of `59 - 8 - 1 - ⌊log₂ noise⌋`, at least 36 bits.
#[verifier::spinoff_prover]
#[verifier::rlimit(60)]
pub proof fn law_toy_sum_figures(
    pk: bfv::PublicKey,
    sk: bfv::SecretKey,
    ct_a: bfv::Ciphertext,
    ct_b: bfv::Ciphertext,
    ct_sum: bfv::Ciphertext,
    pa: Seq<u64>,
    pb: Seq<u64>,
)
    requires
        pk.params@ == (1024nat, 1152921504606846883int, 256int, 6nat),
        sk.params@ == pk.params@,
        sk.s@.len() == 1024,
        is_ternary(sk.s@),
        pk.a@.len() == 1024,
        exists|e: Seq<int>|
            e.len() == pk.params.n && is_small(e, pk.params.eta as int) && #[trigger] pk.b@ == pneg(
                padd(pmul(pk.a@, sk.s@, pk.params.q@), e, pk.params.q@),
                pk.params.q@,
            ),
        exists|u: Seq<int>, e1: Seq<int>, e2: Seq<int>|
            #![trigger bfv::encrypt_parts(pk@, pa, u, e1, e2)]
            u.len() == pk.params.n && is_ternary(u) && e1.len() == pk.params.n && is_small(
                e1,
                pk.params.eta as int,
            ) && e2.len() == pk.params.n && is_small(e2, pk.params.eta as int) && (
            ct_a.parts@[0]@,
            ct_a.parts@[1]@,
            ) == bfv::encrypt_parts(pk@, pa, u, e1, e2),
        exists|u: Seq<int>, e1: Seq<int>, e2: Seq<int>|
            #![trigger bfv::encrypt_parts(pk@, pb, u, e1, e2)]
            u.len() == pk.params.n && is_ternary(u) && e1.len() == pk.params.n && is_small(
                e1,
                pk.params.eta as int,
            ) && e2.len() == pk.params.n && is_small(e2, pk.params.eta as int) && (
            ct_b.parts@[0]@,
            ct_b.parts@[1]@,
            ) == bfv::encrypt_parts(pk@, pb, u, e1, e2),
        ct_a.parts.len() == 2,
        ct_b.parts.len() == 2,
        ct_sum.parts.len() == 2,
        forall|i: int|
            0 <= i < 2 ==> #[trigger] ct_sum.parts@[i]@ == padd(ct_a.parts@[i]@, ct_b.parts@[i]@, pk.params.q@),
        forall|i: int| 0 <= i < pa.len() ==> (#[trigger] pa[i]) < 256,
        forall|i: int| 0 <= i < pb.len() ==> (#[trigger] pb[i]) < 256,
    ensures
        crate::playground::noise_figures(sk, ct_sum).1 <= 14,
        crate::playground::noise_figures(sk, ct_sum).2 == 50 - crate::playground::noise_figures(sk, ct_sum).1,
        crate::playground::noise_figures(sk, ct_sum).2 >= 36,
{
    let p = pk.params@;
    let q = pk.params.q@;
    let e = choose|e: Seq<int>|
        e.len() == pk.params.n && is_small(e, pk.params.eta as int) && #[trigger] pk.b@ == pneg(
            padd(pmul(pk.a@, sk.s@, q), e, q),
            q,
        );
    let (u1, e11, e21) = choose|u: Seq<int>, e1: Seq<int>, e2: Seq<int>|
        #![trigger bfv::encrypt_parts(pk@, pa, u, e1, e2)]
        u.len() == pk.params.n && is_ternary(u) && e1.len() == pk.params.n && is_small(
            e1,
            pk.params.eta as int,
        ) && e2.len() == pk.params.n && is_small(e2, pk.params.eta as int) && (
        ct_a.parts@[0]@,
        ct_a.parts@[1]@,
        ) == bfv::encrypt_parts(pk@, pa, u, e1, e2);
    let (u2, e12, e22) = choose|u: Seq<int>, e1: Seq<int>, e2: Seq<int>|
        #![trigger bfv::encrypt_parts(pk@, pb, u, e1, e2)]
        u.len() == pk.params.n && is_ternary(u) && e1.len() == pk.params.n && is_small(
            e1,
            pk.params.eta as int,
        ) && e2.len() == pk.params.n && is_small(e2, pk.params.eta as int) && (
        ct_b.parts@[0]@,
        ct_b.parts@[1]@,
        ) == bfv::encrypt_parts(pk@, pb, u, e1, e2);
    assert forall|i: int| 0 <= i < pa.len() implies (#[trigger] pa[i]) < p.2 by {}
    assert forall|i: int| 0 <= i < pb.len() implies (#[trigger] pb[i]) < p.2 by {}
    bfv::law_sum_noise(p, pk.a@, sk.s@, e, pa, u1, e11, e21, pb, u2, e12, e22);
    let b = pneg(padd(pmul(pk.a@, sk.s@, q), e, q), q);
    assert(pk@ == (b, pk.a@, p));
    let (c0, c1) = bfv::encrypt_parts((b, pk.a@, p), pa, u1, e11, e21);
    let (d0, d1) = bfv::encrypt_parts((b, pk.a@, p), pb, u2, e12, e22);
    assert(c0 == ct_a.parts@[0]@ && c1 == ct_a.parts@[1]@);
    assert(d0 == ct_b.parts@[0]@ && d1 == ct_b.parts@[1]@);
    assert(bfv::parts_view(ct_sum.parts@) =~= seq![padd(c0, d0, q), padd(c1, d1, q)]);
    let noise = bfv::max_noise(
        ring::phase(seq![padd(c0, d0, q), padd(c1, d1, q)], sk.s@, q),
        crate::bigint::tdiv(q, 256),
    );
    lemma_toy_bit_lens();
    assert(0 <= noise <= 24914);
    lemma_bit_len_mono(noise as nat, 24914);
}

/// The bit lengths the toy parameters' figures rest on.
proof fn lemma_toy_bit_lens()
    ensures
        1152921504606846883int % 256 == 163,
        bit_len(12457) == 14,
        bit_len(24914) == 15,
        bit_len(1152921504606846883) == 60,
        bit_len(256) == 9,
{
    assert(bit_len(12457) == 14) by {
        reveal_with_fuel(bit_len, 15);
    }
    assert(bit_len(24914) == 15) by {
        reveal_with_fuel(bit_len, 16);
    }
    assert(bit_len(1152921504606846883) == 60) by {
        reveal_with_fuel(bit_len, 61);
    }
    assert(bit_len(256) == 9) by {
        reveal_with_fuel(bit_len, 10);
    }
}

/// Build a trace for a BFV add under the toy parameters: keygen, enc(a),
/// enc(b), add, decrypt, with noise read-outs.
pub fn trace_bfv_add(a: u64, b: u64) -> (steps: Vec<TraceStep>)
    requires
        a + b <= u64::MAX,
    ensures
        steps@.len() == 5,
        steps@[0].label@ == "keygen"@,
        steps@[0].detail@ == bfv_keygen_detail(1024, 1152921504606846883, 256, 6),
        steps@[0].snapshot matches Some(s) && s@ == "Δ = ⌊q/t⌋"@,
        steps@[1].label@ == "enc(a)"@,
        steps@[1].detail@ == "Encrypted vector ["@ + decimal(a as nat) + "]."@,
        steps@[1].snapshot matches Some(s) && toy_snapshot(s@, a < 256, 13),
        steps@[2].label@ == "enc(b)"@,
        steps@[2].detail@ == "Encrypted vector ["@ + decimal(b as nat) + "]."@,
        steps@[2].snapshot matches Some(s) && s@ == "noise ~ same order as enc(a)"@,
        steps@[3].label@ == "add"@,
        steps@[3].detail@ == "Add: component-wise polynomial addition.\nNoise grows by ~1 bit."@,
        steps@[3].snapshot matches Some(s) && toy_snapshot(s@, a < 256 && b < 256, 14),
        steps@[4].label@ == "decrypt"@,
        steps@[4].detail@ == "Scaled rounding back to ℤ_t."@,
        steps@[4].snapshot matches Some(s) && exists|x: u64|
            s@ == "recovered = "@ + #[trigger] decimal(x as nat) + ", expected "@ + decimal((a + b) as nat),
        a < 256 && b < 256 ==> (steps@[4].snapshot matches Some(s) && s@ == "recovered = "@ + decimal(
            ((a + b) % 256) as nat,
        ) + ", expected "@ + decimal((a + b) as nat)),
{
    let mut steps: Vec<TraceStep> = Vec::new();
    let params = bfv::Params::toy();
    let (pk, sk) = bfv::keygen(&params);
    assert(crate::bigint::tdiv(1152921504606846883int, 256int) != 0);

    let mut d0: Vec<char> = Vec::new();
    text::push_str(&mut d0, "Toy BFV parameters:\n  n = ");
    text::push_all(&mut d0, text::u64_decimal(params.n as u64).as_slice());
    text::push_str(&mut d0, "\n  log₂ q ≈ ");
    text::push_all(&mut d0, text::u64_decimal(params.q.bits()).as_slice());
    text::push_str(&mut d0, "\n  t = ");
    text::push_all(&mut d0, ibig_decimal(&params.t).as_slice());
    text::push_str(&mut d0, "\n  η = ");
    text::push_all(&mut d0, text::u64_decimal(params.eta as u64).as_slice());
    steps.push(step("keygen", d0.as_slice(), text::chars_of("Δ = ⌊q/t⌋").as_slice()));

    let mut pa: Vec<u64> = Vec::new();
    pa.push(a);
    let ct_a = bfv::encrypt(&pk, pa.as_slice());
    let snap_a = noise_snap(&sk, &ct_a);
    proof {
        if a < 256 {
            law_toy_fresh_figures(pk, sk, ct_a, pa@);
        }
        assert(toy_snapshot(snap_a@, a < 256, 13));
    }
    let mut d1 = text::chars_of("Encrypted vector [");
    text::push_all(&mut d1, text::u64_decimal(a).as_slice());
    text::push_str(&mut d1, "].");
    steps.push(step("enc(a)", d1.as_slice(), snap_a.as_slice()));

    let mut pb: Vec<u64> = Vec::new();
    pb.push(b);
    let ct_b = bfv::encrypt(&pk, pb.as_slice());
    let mut d2 = text::chars_of("Encrypted vector [");
    text::push_all(&mut d2, text::u64_decimal(b).as_slice());
    text::push_str(&mut d2, "].");
    steps.push(
        step("enc(b)", d2.as_slice(), text::chars_of("noise ~ same order as enc(a)").as_slice()),
    );

    let ct_sum = bfv::add(&ct_a, &ct_b);
    let snap_s = noise_snap(&sk, &ct_sum);
    proof {
        if a < 256 && b < 256 {
            law_toy_sum_figures(pk, sk, ct_a, ct_b, ct_sum, pa@, pb@);
        }
        assert(toy_snapshot(snap_s@, a < 256 && b < 256, 14));
    }
    steps.push(
        step(
            "add",
            text::chars_of("Add: component-wise polynomial addition.\nNoise grows by ~1 bit.").as_slice(),
            snap_s.as_slice(),
        ),
    );

    let out = bfv::decrypt(&sk, &ct_sum);
    proof {
        if a < 256 && b < 256 {
            lemma_toy_sum_decrypts(pk, sk, ct_a, ct_b, ct_sum, pa@, pb@, out@);
        }
    }
    let mut s4 = text::chars_of("recovered = ");
    let x = out[0];
    text::push_all(&mut s4, text::u64_decimal(x).as_slice());
    text::push_str(&mut s4, ", expected ");
    text::push_all(&mut s4, text::u64_decimal(a + b).as_slice());
    assert(s4@ == "recovered = "@ + decimal(x as nat) + ", expected "@ + decimal((a + b) as nat));
    steps.push(step("decrypt", text::chars_of("Scaled rounding back to ℤ_t.").as_slice(), s4.as_slice()));
    steps
}

// ---------------------------------------------------------------------------
// Anatomy
// ---------------------------------------------------------------------------

/// The line describing component `i` of a BFV ciphertext.
pub open spec fn part_line(i: nat, c: Seq<int>) -> Seq<char> {
    "    c_"@ + decimal(i) + "  ‖·‖∞ ≈ "@ + short_int_text(max_abs(c)) + " (≈ 2^"@ + decimal(
        bfv::log2_value(max_abs(c)),
    ) + ".0 of q)\n"@
}

/// The lines describing the first `k` components.
pub open spec fn part_lines(parts: Seq<Seq<int>>, k: int) -> Seq<char>
    decreases k,
{
    if k <= 0 {
        Seq::empty()
    } else {
        part_lines(parts, k - 1) + part_line((k - 1) as nat, parts[k - 1])
    }
}

/// The body of the BFV anatomy diagram, after its title.
pub open spec fn anatomy_bfv_body(ct: bfv::Ciphertext) -> Seq<char> {
    let q = ct.params.q@;
    let qbits = decimal(bit_len(if q < 0 { (-q) as nat } else { q as nat }));
    let k = ct.parts.len();
    "\n  ring degree n  = "@ + decimal(ct.params.n as nat) + "\n  ciphertext mod = 2^"@ + qbits
        + "  (q has "@ + qbits + " bits)\n  plaintext mod  = "@ + int_decimal(ct.params.t@)
        + "\n  components     = "@ + decimal(k as nat) + "\n"@ + "\n  components:\n"@ + part_lines(
        bfv::parts_view(ct.parts@),
        k as int,
    ) + "\n  decrypts as:  m = ⌊ t · (c₀ + c₁·s"@ + (if k >= 3 {
        " + c₂·s²"@
    } else {
        Seq::empty()
    }) + ") / q ⌉  mod t\n"@
}

/// Render the BFV ciphertext anatomy: number of components, log₂ q, t, and
/// the size of each component.
#[verifier::rlimit(40)]
pub fn anatomy_bfv(ct: &bfv::Ciphertext) -> (r: String)
    ensures
        exists|h: Seq<char>|
            styled("BFV ciphertext anatomy"@, "1;4"@, h) && r@ == "\n"@ + h + "\n"@ + anatomy_bfv_body(
                *ct,
            ),
{
    let p = &ct.params;
    let title = bold_underline("BFV ciphertext anatomy");
    let mut out: Vec<char> = Vec::new();
    text::push_str(&mut out, "\n");
    text::push_str(&mut out, title.as_str());
    text::push_str(&mut out, "\n");
    let ghost head = out@;
    let qbits = text::u64_decimal(p.q.bits());
    text::push_str(&mut out, "\n  ring degree n  = ");
    text::push_all(&mut out, text::u64_decimal(p.n as u64).as_slice());
    text::push_str(&mut out, "\n  ciphertext mod = 2^");
    text::push_all(&mut out, qbits.as_slice());
    text::push_str(&mut out, "  (q has ");
    text::push_all(&mut out, qbits.as_slice());
    text::push_str(&mut out, " bits)\n  plaintext mod  = ");
    text::push_all(&mut out, ibig_decimal(&p.t).as_slice());
    text::push_str(&mut out, "\n  components     = ");
    text::push_all(&mut out, text::u64_decimal(ct.parts.len() as u64).as_slice());
    text::push_str(&mut out, "\n");
    text::push_str(&mut out, "\n  components:\n");
    let ghost pv = bfv::parts_view(ct.parts@);
    let ghost mid = out@;
    let mut i: usize = 0;
    while i < ct.parts.len()
        invariant
            i <= ct.parts@.len(),
            pv == bfv::parts_view(ct.parts@),
            out@ == mid + part_lines(pv, i as int),
        decreases ct.parts.len() - i,
    {
        let inf = ct.parts[i].inf_norm();
        let ghost before = out@;
        text::push_str(&mut out, "    c_");
        text::push_all(&mut out, text::u64_decimal(i as u64).as_slice());
        text::push_str(&mut out, "  ‖·‖∞ ≈ ");
        text::push_str(&mut out, short_int(&inf).as_str());
        text::push_str(&mut out, " (≈ 2^");
        text::push_all(&mut out, text::u64_decimal(bfv::bigint_log2(&inf)).as_slice());
        text::push_str(&mut out, ".0 of q)\n");
        assert(pv[i as int] == ct.parts@[i as int]@);
        assert(out@ =~= before + part_line(i as nat, pv[i as int]));
        i = i + 1;
    }
    text::push_str(&mut out, "\n  decrypts as:  m = ⌊ t · (c₀ + c₁·s");
    let ghost before_tail = out@;
    if ct.parts.len() >= 3 {
        text::push_str(&mut out, " + c₂·s²");
    }
    text::push_str(&mut out, ") / q ⌉  mod t\n");
    proof {
        if ct.parts.len() < 3 {
            assert(before_tail + Seq::<char>::empty() =~= before_tail);
        }
        assert(out@ =~= head + anatomy_bfv_body(*ct));
    }
    text::string_of(out.as_slice())
}

// ---------------------------------------------------------------------------
// Paillier trace
// ---------------------------------------------------------------------------

/// The detail of the homomorphic-add step of the Paillier trace.
pub open spec fn paillier_add_detail() -> Seq<char> {
    "c_sum = c_a · c_b mod n²\nThe product of ciphertexts decrypts to the sum of plaintexts.\nNo secret key was used — anyone can do this."@
}

/// The steps of a Paillier add trace for the modulus `n`, the secret
/// `λ`, `μ`, the plaintexts `a`, `b`, the key size `bits` and the
/// encryption randomness `ra`, `rb`: keygen, enc(a), enc(b), the
/// homomorphic add and the decryption of the sum.
pub open spec fn paillier_trace(
    steps: Seq<TraceStep>,
    n: nat,
    lambda: nat,
    mu: nat,
    a: u64,
    b: u64,
    bits: u64,
    ra: nat,
    rb: nat,
) -> bool {
    let ca = paillier::enc_value(n, a as nat, ra);
    let cb = paillier::enc_value(n, b as nat, rb);
    let cs = (ca * cb) % ((n * n) as int);
    &&& steps.len() == 5
    &&& steps[0].label@ == "keygen"@
    &&& steps[0].detail@ == "Generated a "@ + decimal(bits as nat) + "-bit Paillier key pair."@
    &&& steps[0].snapshot matches Some(s) && s@ == "n = "@ + short_uint_text(n)
    &&& steps[1].label@ == "enc(a)"@
    &&& steps[1].detail@ == "Encrypted a = "@ + decimal(a as nat) + ".\nFresh randomness sampled from ℤ_n*."@
    &&& steps[1].snapshot matches Some(s) && s@ == "c_a = "@ + short_uint_text(ca as nat)
    &&& steps[2].label@ == "enc(b)"@
    &&& steps[2].detail@ == "Encrypted b = "@ + decimal(b as nat) + "."@
    &&& steps[2].snapshot matches Some(s) && s@ == "c_b = "@ + short_uint_text(cb as nat)
    &&& steps[3].label@ == "homomorphic add"@
    &&& steps[3].detail@ == paillier_add_detail()
    &&& steps[3].snapshot matches Some(s) && s@ == "c_sum = "@ + short_uint_text(cs as nat)
    &&& steps[4].label@ == "decrypt"@
    &&& steps[4].detail@ == "Recovered plaintext."@
    &&& steps[4].snapshot matches Some(s) && s@ == "m_sum = "@ + decimal(
        paillier::dec_value(n, lambda, mu, cs as nat) as nat,
    ) + " (expected "@ + decimal((a + b) as nat) + ")"@
}

/// `(n, λ, μ)` is a key pair as `paillier::keygen(bits)` makes one: from
/// two distinct tested primes of `bits / 2` bits.
pub open spec fn generated_paillier_key(n: nat, lambda: nat, mu: nat, bits: u64) -> bool {
    exists|p: nat, q: nat|
        #[trigger] paillier::key_parts(n, lambda, mu, p, q, (bits / 2) as nat) && crate::util::prime_tested(p)
            && crate::util::prime_tested(q)
}

/// `steps` is the Paillier add trace of `a` and `b` for some key pair that
/// `paillier::keygen(bits)` makes and some encryption randomness coprime to
/// the modulus.
pub open spec fn paillier_trace_made(steps: Seq<TraceStep>, a: u64, b: u64, bits: u64) -> bool {
    exists|n: nat, lambda: nat, mu: nat, ra: nat, rb: nat|
        #[trigger] paillier_trace(steps, n, lambda, mu, a, b, bits, ra, rb) && 1 <= ra < n && 1 <= rb < n
            && crate::bigint::gcd(ra, n) == 1 && crate::bigint::gcd(rb, n) == 1 && generated_paillier_key(
            n,
            lambda,
            mu,
            bits,
        )
}

/// The Paillier add trace for a given key pair, plaintexts and encryption
/// randomness (see [`paillier_trace`]). For a key whose factors are prime,
/// the decrypted sum is `(a + b) mod n`.
pub fn trace_paillier_steps(
    pk: &paillier::PublicKey,
    sk: &paillier::SecretKey,
    a: u64,
    b: u64,
    bits: u64,
    ra: &UBig,
    rb: &UBig,
) -> (steps: Vec<TraceStep>)
    requires
        pk.n@ > 1,
        sk.pk.n@ == pk.n@,
        a + b <= u64::MAX,
        crate::bigint::gcd(ra@, pk.n@) == 1,
        crate::bigint::gcd(rb@, pk.n@) == 1,
    ensures
        paillier_trace(steps@, pk.n@, sk.lambda@, sk.mu@, a, b, bits, ra@, rb@),
        forall|p: nat, q: nat|
            paillier::decryption_key(pk.n@, sk.lambda@, sk.mu@, p, q) && crate::primes::is_prime(p) && crate::primes::is_prime(q) ==> (
            #[trigger] steps@[4].snapshot matches Some(s) && s@ == "m_sum = "@ + decimal(
                ((a + b) as nat) % pk.n@,
            ) + " (expected "@ + decimal((a + b) as nat) + ")"@),
{
    let mut steps: Vec<TraceStep> = Vec::new();
    let mut d0 = text::chars_of("Generated a ");
    text::push_all(&mut d0, text::u64_decimal(bits).as_slice());
    text::push_str(&mut d0, "-bit Paillier key pair.");
    let mut s0 = text::chars_of("n = ");
    text::push_str(&mut s0, short_uint(&pk.n).as_str());
    steps.push(step("keygen", d0.as_slice(), s0.as_slice()));

    let m_a = UBig::from_u64(a);
    let m_b = UBig::from_u64(b);
    let ct_a = paillier::encrypt_with_randomness(pk, &m_a, ra);
    let mut d1 = text::chars_of("Encrypted a = ");
    text::push_all(&mut d1, text::u64_decimal(a).as_slice());
    text::push_str(&mut d1, ".\nFresh randomness sampled from ℤ_n*.");
    let mut s1 = text::chars_of("c_a = ");
    text::push_str(&mut s1, short_uint(&ct_a.c).as_str());
    steps.push(step("enc(a)", d1.as_slice(), s1.as_slice()));

    let ct_b = paillier::encrypt_with_randomness(pk, &m_b, rb);
    let mut d2 = text::chars_of("Encrypted b = ");
    text::push_all(&mut d2, text::u64_decimal(b).as_slice());
    text::push_str(&mut d2, ".");
    let mut s2 = text::chars_of("c_b = ");
    text::push_str(&mut s2, short_uint(&ct_b.c).as_str());
    steps.push(step("enc(b)", d2.as_slice(), s2.as_slice()));

    let ct_sum = paillier::add(pk, &ct_a, &ct_b);
    let mut s3 = text::chars_of("c_sum = ");
    text::push_str(&mut s3, short_uint(&ct_sum.c).as_str());
    steps.push(
        step(
            "homomorphic add",
            text::chars_of("c_sum = c_a · c_b mod n²\nThe product of ciphertexts decrypts to the sum of plaintexts.\nNo secret key was used — anyone can do this.").as_slice(),
            s3.as_slice(),
        ),
    );

    proof {
        paillier::lemma_sum_decryptable(pk.n@, m_a@, ra@, m_b@, rb@, sk.lambda@);
    }
    let m_sum = paillier::decrypt(sk, &ct_sum);
    let mut s4 = text::chars_of("m_sum = ");
    text::push_str(&mut s4, m_sum.to_decimal().as_str());
    text::push_str(&mut s4, " (expected ");
    text::push_all(&mut s4, text::u64_decimal(a + b).as_slice());
    text::push_str(&mut s4, ")");
    assert(s4@ == "m_sum = "@ + decimal(m_sum@) + " (expected "@ + decimal((a + b) as nat) + ")"@);
    steps.push(step("decrypt", text::chars_of("Recovered plaintext.").as_slice(), s4.as_slice()));
    proof {
        assert forall|p: nat, q: nat|
            paillier::decryption_key(pk.n@, sk.lambda@, sk.mu@, p, q) && crate::primes::is_prime(p) && crate::primes::is_prime(q) implies (
            #[trigger] steps@[4].snapshot matches Some(s) && s@ == "m_sum = "@ + decimal(
                ((a + b) as nat) % pk.n@,
            ) + " (expected "@ + decimal((a + b) as nat) + ")"@) by {
            paillier::lemma_decrypt_add(pk.n@, sk.lambda@, sk.mu@, p, q, m_a@, ra@, m_b@, rb@);
        }
    }
    steps
}

/// Build a trace for a Paillier add: keygen, enc(a), enc(b), add, decrypt,
/// with a fresh key pair and fresh randomness coprime to `n`
/// ([`trace_paillier_steps`]).
///
/// `None` only when key generation gives up.
#[verifier::spinoff_prover]
#[verifier::rlimit(60)]
pub fn trace_paillier_add(a: u64, b: u64, bits: u64) -> (r: Option<Vec<TraceStep>>)
    requires
        4 <= bits,
        bits / 2 <= 0xffff_ffff,
        a + b <= u64::MAX,
    ensures
        r matches Some(steps) ==> paillier_trace_made(steps@, a, b, bits),
{
    let (pk, sk) = match paillier::keygen(bits) {
        Some(keys) => keys,
        None => {
            return None;
        },
    };
    proof {
        let (p, q) = choose|p: nat, q: nat| #[trigger] paillier::key_parts(pk.n@, sk.lambda@, sk.mu@, p, q, (bits / 2) as nat);
        vstd::arithmetic::power2::lemma_pow2_pos(((bits / 2) - 1) as nat);
        assert(p * q > 1) by (nonlinear_arith)
            requires
                p >= 1,
                q >= 1,
                p != q,
        ;
    }
    let mut rng = crate::util::rng();
    let ra = crate::util::rand_coprime(&mut rng, &pk.n);
    let rb = crate::util::rand_coprime(&mut rng, &pk.n);
    let steps = trace_paillier_steps(&pk, &sk, a, b, bits, &ra, &rb);
    proof {
        let (p, q) = choose|p: nat, q: nat| #[trigger] paillier::key_parts(pk.n@, sk.lambda@, sk.mu@, p, q, (bits / 2) as nat)
            && crate::util::prime_tested(p) && crate::util::prime_tested(q);
        assert(paillier::key_parts(pk.n@, sk.lambda@, sk.mu@, p, q, (bits / 2) as nat));
        assert(paillier_trace(steps@, pk.n@, sk.lambda@, sk.mu@, a, b, bits, ra@, rb@));
        let (n, lambda, mu, xa, xb) = (pk.n@, sk.lambda@, sk.mu@, ra@, rb@);
        assert(generated_paillier_key(n, lambda, mu, bits));
        assert(paillier_trace(steps@, n, lambda, mu, a, b, bits, xa, xb));
        assert(1 <= xa < n && 1 <= xb < n);
        assert(crate::bigint::gcd(xa, n) == 1 && crate::bigint::gcd(xb, n) == 1);
        assert(paillier_trace_made(steps@, a, b, bits));
    }
    Some(steps)
}

// ---------------------------------------------------------------------------
// Rendering traces
// ---------------------------------------------------------------------------

/// `s` shortened, by its UTF-8 length, to its first and last `max/2 - 2`
/// bytes around " … " when it is longer than `max` bytes.
pub open spec fn truncated(s: Seq<char>, max: nat) -> Seq<char> {
    let b = encode_utf8(s);
    let k = max / 2 - 2;
    if b.len() <= max {
        s
    } else {
        decode_utf8(b.take(k)) + " … "@ + decode_utf8(b.skip(b.len() - k))
    }
}

/// The cut points of [`truncated`] fall between characters.
pub open spec fn truncatable(s: Seq<char>, max: nat) -> bool {
    let b = encode_utf8(s);
    let k = max / 2 - 2;
    b.len() <= max || (is_char_boundary(b, k) && is_char_boundary(b, b.len() - k))
}

fn truncate(s: &str, max: usize) -> (r: String)
    requires
        max >= 4,
        truncatable(s@, max as nat),
    ensures
        r@ == truncated(s@, max as nat),
{
    let bytes = s.as_bytes();
    let n = bytes.len();
    proof {
        assert(s.spec_bytes() == encode_utf8(s@));
        assert(n == encode_utf8(s@).len());
    }
    if n <= max {
        return text::string_of(text::chars_of(s).as_slice());
    }
    let k = max / 2 - 2;
    let (head, _) = s.split_at(k);
    let (_, tail) = s.split_at(n - k);
    proof {
        vstd::utf8::encode_utf8_decode_utf8(head@);
        vstd::utf8::encode_utf8_decode_utf8(tail@);
        let b = encode_utf8(s@);
        assert(b.subrange(0, k as int) =~= b.take(k as int));
        assert(b.subrange((n - k) as int, b.len() as int) =~= b.skip(b.len() - k));
    }
    let mut out = text::chars_of(head);
    text::push_str(&mut out, " … ");
    text::push_str(&mut out, tail);
    text::string_of(out.as_slice())
}

/// A piece of rendered text: plain, or painted with SGR parameters.
pub enum Piece {
    /// Text written as it is.
    Plain(Seq<char>),
    /// Text painted with the given parameters when colours are on.
    Paint(Seq<char>, Seq<char>),
}

/// A piece as written, with colours on or off.
pub open spec fn piece_text(p: Piece, on: bool) -> Seq<char> {
    match p {
        Piece::Plain(t) => t,
        Piece::Paint(code, t) => if on {
            "\u{1b}["@ + code + "m"@ + t + "\u{1b}[0m"@
        } else {
            t
        },
    }
}

/// Pieces written one after the other, each with its own colour switch.
pub open spec fn emit(ps: Seq<Piece>, on: Seq<bool>) -> Seq<char>
    decreases ps.len(),
{
    if ps.len() == 0 || on.len() != ps.len() {
        Seq::empty()
    } else {
        emit(ps.drop_last(), on.drop_last()) + piece_text(ps.last(), on.last())
    }
}

/// The step marker `[ i]`, the number right-aligned in two columns.
pub open spec fn marker_text(i: nat) -> Seq<char> {
    let d = decimal(i);
    "["@ + (if d.len() < 2 { seq![' '] + d } else { d }) + "]"@
}

/// The pieces for the detail lines of a step.
pub open spec fn detail_pieces(ls: Seq<Seq<char>>) -> Seq<Piece>
    decreases ls.len(),
{
    if ls.len() == 0 {
        Seq::empty()
    } else {
        detail_pieces(ls.drop_last()) + seq![
            Piece::Plain("       "@),
            Piece::Paint("2"@, ls.last()),
            Piece::Plain("\n"@),
        ]
    }
}

/// The pieces for the snapshot line of a step.
pub open spec fn snapshot_pieces(snap: Option<String>) -> Seq<Piece> {
    match snap {
        Some(s) => seq![
            Piece::Plain("       "@),
            Piece::Paint("32"@, "→"@),
            Piece::Plain(" "@),
            Piece::Paint("33"@, truncated(s@, 78)),
            Piece::Plain("\n"@),
        ],
        None => Seq::empty(),
    }
}

/// The pieces for step `i` (counted from 0) of a trace.
pub open spec fn step_pieces(i: nat, st: TraceStep) -> Seq<Piece> {
    seq![
        Piece::Plain("\n  "@),
        Piece::Paint("1;36"@, marker_text(i + 1)),
        Piece::Plain(" "@),
        Piece::Paint("1"@, st.label@),
        Piece::Plain("\n"@),
    ] + detail_pieces(text::lines_of(st.detail@)) + snapshot_pieces(st.snapshot)
}

/// The pieces of a rendered trace: the title, then each step.
pub open spec fn trace_pieces(title: Seq<char>, steps: Seq<TraceStep>) -> Seq<Piece>
    decreases steps.len(),
{
    if steps.len() == 0 {
        seq![Piece::Plain("\n"@), Piece::Paint("1;4"@, title), Piece::Plain("\n"@)]
    } else {
        trace_pieces(title, steps.drop_last()) + step_pieces(
            (steps.len() - 1) as nat,
            steps.last(),
        )
    }
}

/// No piece to be painted holds an escape character.
pub open spec fn paintable(ps: Seq<Piece>) -> bool {
    forall|k: int|
        0 <= k < ps.len() ==> (#[trigger] ps[k] matches Piece::Paint(_, t) ==> !has_escape(t))
}

/// Every snapshot of the steps can be shortened to 78 bytes.
pub open spec fn snapshots_fit(steps: Seq<TraceStep>) -> bool {
    forall|i: int|
        0 <= i < steps.len() ==> ((#[trigger] steps[i]).snapshot matches Some(s) ==> truncatable(
            s@,
            78,
        ))
}

proof fn lemma_emit_push(ps: Seq<Piece>, on: Seq<bool>, p: Piece, b: bool)
    requires
        ps.len() == on.len(),
    ensures
        emit(ps.push(p), on.push(b)) == emit(ps, on) + piece_text(p, b),
{
    assert(ps.push(p).drop_last() =~= ps);
    assert(on.push(b).drop_last() =~= on);
}

/// Append a painted piece, given what the painting wrapper returned.
proof fn lemma_paint_step(
    ps: Seq<Piece>,
    on: Seq<bool>,
    out: Seq<char>,
    code: Seq<char>,
    t: Seq<char>,
    r: Seq<char>,
) -> (b: bool)
    requires
        ps.len() == on.len(),
        out == emit(ps, on),
        styled(t, code, r),
        !has_escape(t),
    ensures
        out + r == emit(ps.push(Piece::Paint(code, t)), on.push(b)),
{
    let b = r != t;
    lemma_emit_push(ps, on, Piece::Paint(code, t), b);
    b
}

fn marker(i: usize) -> (r: Vec<char>)
    requires
        i < 0xffff_ffff,
    ensures
        r@ == marker_text((i + 1) as nat),
{
    let d = text::u64_decimal((i + 1) as u64);
    let mut r = text::chars_of("[");
    if d.len() < 2 {
        r.push(' ');
    }
    text::push_all(&mut r, d.as_slice());
    text::push_str(&mut r, "]");
    proof {
        let dd = decimal((i + 1) as nat);
        if dd.len() < 2 {
            assert(r@ =~= "["@ + (seq![' '] + dd) + "]"@);
        } else {
            assert(r@ =~= "["@ + dd + "]"@);
        }
    }
    r
}

/// Render a sequence of trace steps as a coloured, indented terminal block.
///
/// The text is laid out as [`trace_pieces`] says; each painted piece comes
/// out plain or styled, depending on whether the terminal takes colours.
pub fn render_trace(title: &str, steps: &[TraceStep]) -> (r: String)
    requires
        steps@.len() < 0xffff_ffff,
        snapshots_fit(steps@),
    ensures
        paintable(trace_pieces(title@, steps@)) ==> exists|on: Seq<bool>|
            on.len() == trace_pieces(title@, steps@).len() && r@ == #[trigger] emit(
                trace_pieces(title@, steps@),
                on,
            ),
{
    let ghost all = trace_pieces(title@, steps@);
    let ghost ok = paintable(all);
    let mut out: Vec<char> = Vec::new();
    let ghost mut ps: Seq<Piece> = Seq::empty();
    let ghost mut on: Seq<bool> = Seq::empty();
    proof {
        lemma_trace_pieces_prefix(title@, steps@, 0);
        if ok {
            lemma_paintable_sub(all, trace_pieces(title@, steps@.take(0)));
        }
    }
    let ghost first = trace_pieces(title@, steps@.take(0));
    text::push_str(&mut out, "\n");
    proof {
        lemma_emit_push(ps, on, Piece::Plain("\n"@), false);
        ps = ps.push(Piece::Plain("\n"@));
        on = on.push(false);
    }
    let t = bold_underline(title);
    proof {
        if ok {
            lemma_paint_ok(first, 1, "1;4"@, title@);
            let b = lemma_paint_step(ps, on, out@, "1;4"@, title@, t@);
            ps = ps.push(Piece::Paint("1;4"@, title@));
            on = on.push(b);
        }
    }
    text::push_str(&mut out, t.as_str());
    text::push_str(&mut out, "\n");
    proof {
        if ok {
            lemma_emit_push(ps, on, Piece::Plain("\n"@), false);
            ps = ps.push(Piece::Plain("\n"@));
            on = on.push(false);
            assert(ps =~= first);
        }
    }
    let mut i: usize = 0;
    while i < steps.len()
        invariant
            i <= steps@.len() < 0xffff_ffff,
            snapshots_fit(steps@),
            all == trace_pieces(title@, steps@),
            ok == paintable(all),
            ok ==> ps == trace_pieces(title@, steps@.take(i as int)),
            ok ==> on.len() == ps.len(),
            ok ==> out@ == emit(ps, on),
        decreases steps.len() - i,
    {
        let ghost sp = step_pieces(i as nat, steps@[i as int]);
        let ghost base = ps;
        let ghost before = out@;
        proof {
            lemma_trace_pieces_prefix(title@, steps@, i + 1);
            if ok {
                lemma_paintable_sub(all, trace_pieces(title@, steps@.take(i + 1)));
                assert(trace_pieces(title@, steps@.take(i + 1)) == base + sp);
                lemma_paintable_suffix(base, sp);
            }
            assert(snapshots_fit(steps@));
            assert(steps@[i as int].snapshot matches Some(sn) ==> truncatable(sn@, 78));
        }
        render_step(&mut out, i, &steps[i], Ghost(ok));
        proof {
            if ok {
                let fl = choose|fl: Seq<bool>| fl.len() == sp.len() && #[trigger] emit(sp, fl) == out@.skip(before.len() as int);
                assert(out@ =~= before + emit(sp, fl));
                lemma_emit_concat(base, on, sp, fl);
                ps = base + sp;
                on = on + fl;
            }
        }
        i = i + 1;
    }
    proof {
        if ok {
            assert(steps@.take(steps@.len() as int) =~= steps@);
        }
    }
    text::string_of(out.as_slice())
}

/// Render step `i` of a trace onto `out`.
#[verifier::spinoff_prover]
#[verifier::rlimit(60)]
fn render_step(out: &mut Vec<char>, i: usize, st: &TraceStep, ok: Ghost<bool>)
    requires
        i < 0xffff_ffff,
        st.snapshot matches Some(sn) ==> truncatable(sn@, 78),
        ok@ ==> paintable(step_pieces(i as nat, *st)),
    ensures
        ok@ ==> exists|fl: Seq<bool>|
            fl.len() == step_pieces(i as nat, *st).len() && #[trigger] emit(step_pieces(i as nat, *st), fl)
                == final(out)@.skip(old(out)@.len() as int),
        final(out)@.len() >= old(out)@.len(),
        final(out)@.take(old(out)@.len() as int) == old(out)@,
{
    let ghost ok = ok@;
    let ghost start = out@;
    let ghost sp = step_pieces(i as nat, *st);
    let ghost mut ps: Seq<Piece> = Seq::empty();
    let ghost mut on: Seq<bool> = Seq::empty();
    let ghost base = ps;
    let ghost lv0 = text::lines_of(st.detail@);
    proof {
        lemma_step_pieces(i as nat, *st);
        if ok {
            assert(paintable(base + sp)) by {
                assert(base + sp =~= sp);
            }
        }
    }
    let mut tmp: Vec<char> = Vec::new();
    text::push_str(&mut tmp, "\n  ");
    proof {
        if ok {
            lemma_emit_push(ps, on, Piece::Plain("\n  "@), false);
            ps = ps.push(Piece::Plain("\n  "@));
            on = on.push(false);
        }
    }
    let mk = marker(i);
    let mks = text::string_of(mk.as_slice());
    let painted_mk = cyan_bold(mks.as_str());
    proof {
        if ok {
            lemma_paint_ok(base + sp, (base.len() + 1) as int, "1;36"@, mks@);
            let b = lemma_paint_step(ps, on, tmp@, "1;36"@, mks@, painted_mk@);
            ps = ps.push(Piece::Paint("1;36"@, mks@));
            on = on.push(b);
        }
    }
    text::push_str(&mut tmp, painted_mk.as_str());
    text::push_str(&mut tmp, " ");
    proof {
        if ok {
            lemma_emit_push(ps, on, Piece::Plain(" "@), false);
            ps = ps.push(Piece::Plain(" "@));
            on = on.push(false);
        }
    }
    let lb = bold(st.label.as_str());
    proof {
        if ok {
            lemma_paint_ok(base + sp, (base.len() + 3) as int, "1"@, st.label@);
            let b = lemma_paint_step(ps, on, tmp@, "1"@, st.label@, lb@);
            ps = ps.push(Piece::Paint("1"@, st.label@));
            on = on.push(b);
        }
    }
    text::push_str(&mut tmp, lb.as_str());
    text::push_str(&mut tmp, "\n");
    proof {
        if ok {
            lemma_emit_push(ps, on, Piece::Plain("\n"@), false);
            ps = ps.push(Piece::Plain("\n"@));
            on = on.push(false);
            assert(ps =~= base + sp.take(5));
            assert(detail_pieces(lv0.take(0)) =~= Seq::<Piece>::empty());
            assert(ps =~= base + sp.take(5) + detail_pieces(lv0.take(0)));
        }
    }
    let dchars = text::chars_of(st.detail.as_str());
    let dl = text::lines(dchars.as_slice());
    let ghost lv = text::line_views(dl@);
    let mut j: usize = 0;
    while j < dl.len()
        invariant
            j <= dl@.len(),
            lv == text::line_views(dl@),
            lv == lv0,
            lv.len() == dl@.len(),
            sp.take((5 + 3 * lv.len()) as int) == sp.take(5) + detail_pieces(lv),
            sp.len() >= (5 + 3 * lv.len()) as int,
            ok ==> paintable(base + sp),
            ok ==> ps == base + sp.take(5) + detail_pieces(lv.take(j as int)),
            ok ==> on.len() == ps.len(),
            ok ==> tmp@ == emit(ps, on),
        decreases dl.len() - j,
    {
        text::push_str(&mut tmp, "       ");
        proof {
            if ok {
                lemma_emit_push(ps, on, Piece::Plain("       "@), false);
                ps = ps.push(Piece::Plain("       "@));
                on = on.push(false);
            }
        }
        let line_s = text::string_of(dl[j].as_slice());
        let dm = dimmed(line_s.as_str());
        proof {
            assert(lv[j as int] == dl@[j as int]@);
            lemma_detail_pieces_index(lv, j as int);
            if ok {
                let k = 5 + 3 * j + 1;
                assert(sp.take((5 + 3 * lv.len()) as int)[k] == detail_pieces(lv)[3 * j + 1]);
                assert(sp[k] == Piece::Paint("2"@, lv[j as int]));
                lemma_paint_ok(base + sp, (base.len() + k) as int, "2"@, lv[j as int]);
                let b = lemma_paint_step(ps, on, tmp@, "2"@, lv[j as int], dm@);
                ps = ps.push(Piece::Paint("2"@, lv[j as int]));
                on = on.push(b);
            }
        }
        text::push_str(&mut tmp, dm.as_str());
        text::push_str(&mut tmp, "\n");
        proof {
            if ok {
                lemma_emit_push(ps, on, Piece::Plain("\n"@), false);
                ps = ps.push(Piece::Plain("\n"@));
                on = on.push(false);
                assert(ps =~= base + sp.take(5) + detail_pieces(lv.take(j + 1)));
            }
        }
        j = j + 1;
    }
    proof {
        assert(lv.take(dl@.len() as int) =~= lv);
        if ok {
            assert(ps =~= base + sp.take((5 + 3 * lv.len()) as int));
        }
    }
    match &st.snapshot {
        Some(snap) => {
            let ghost l3: int = (5 + 3 * lv.len()) as int;
            proof {
                assert(st.snapshot == Some(*snap));
                assert(sp.skip(l3) =~= snapshot_pieces(Some(*snap)));
            }
            text::push_str(&mut tmp, "       ");
            proof {
                if ok {
                    lemma_emit_push(ps, on, Piece::Plain("       "@), false);
                    ps = ps.push(Piece::Plain("       "@));
                    on = on.push(false);
                }
            }
            let arrow = green("→");
            proof {
                if ok {
                    assert(sp[l3 + 1] == Piece::Paint("32"@, "→"@));
                    lemma_paint_ok(base + sp, (base.len() + l3 + 1) as int, "32"@, "→"@);
                    let b = lemma_paint_step(ps, on, tmp@, "32"@, "→"@, arrow@);
                    ps = ps.push(Piece::Paint("32"@, "→"@));
                    on = on.push(b);
                }
            }
            text::push_str(&mut tmp, arrow.as_str());
            text::push_str(&mut tmp, " ");
            proof {
                if ok {
                    lemma_emit_push(ps, on, Piece::Plain(" "@), false);
                    ps = ps.push(Piece::Plain(" "@));
                    on = on.push(false);
                }
            }
            let pretty = truncate(snap.as_str(), 78);
            let yl = yellow(pretty.as_str());
            proof {
                if ok {
                    assert(sp[l3 + 3] == Piece::Paint("33"@, pretty@));
                    lemma_paint_ok(base + sp, (base.len() + l3 + 3) as int, "33"@, pretty@);
                    let b = lemma_paint_step(ps, on, tmp@, "33"@, pretty@, yl@);
                    ps = ps.push(Piece::Paint("33"@, pretty@));
                    on = on.push(b);
                }
            }
            text::push_str(&mut tmp, yl.as_str());
            text::push_str(&mut tmp, "\n");
            proof {
                if ok {
                    lemma_emit_push(ps, on, Piece::Plain("\n"@), false);
                    ps = ps.push(Piece::Plain("\n"@));
                    on = on.push(false);
                    assert(ps =~= base + sp);
                }
            }
        },
        None => {
            proof {
                assert(st.snapshot is None);
                if ok {
                    assert(sp =~= sp.take((5 + 3 * lv.len()) as int));
                    assert(ps =~= base + sp);
                }
            }
        },
    }
    proof {
        if ok {
            assert(tmp@ == emit(sp, on));
        }
    }
    let ghost before = out@;
    text::push_all(out, tmp.as_slice());
    proof {
        assert(out@.skip(before.len() as int) =~= tmp@);
        assert(out@.take(before.len() as int) =~= before);
    }
}

proof fn lemma_paintable_suffix(a: Seq<Piece>, b: Seq<Piece>)
    requires
        paintable(a + b),
    ensures
        paintable(b),
{
    assert forall|k: int| 0 <= k < b.len() implies (#[trigger] b[k] matches Piece::Paint(_, t)
        ==> !has_escape(t)) by {
        assert((a + b)[a.len() + k] == b[k]);
    }
}

proof fn lemma_emit_concat(a: Seq<Piece>, x: Seq<bool>, b: Seq<Piece>, y: Seq<bool>)
    requires
        a.len() == x.len(),
        b.len() == y.len(),
    ensures
        emit(a + b, x + y) == emit(a, x) + emit(b, y),
    decreases b.len(),
{
    if b.len() == 0 {
        assert(a + b =~= a);
        assert(x + y =~= x);
        assert(emit(a, x) + Seq::<char>::empty() =~= emit(a, x));
    } else {
        lemma_emit_concat(a, x, b.drop_last(), y.drop_last());
        assert((a + b).drop_last() =~= a + b.drop_last());
        assert((x + y).drop_last() =~= x + y.drop_last());
        assert((a + b).last() == b.last());
        assert((x + y).last() == y.last());
    }
}

proof fn lemma_paint_ok(ps: Seq<Piece>, k: int, code: Seq<char>, t: Seq<char>)
    requires
        paintable(ps),
        0 <= k < ps.len(),
        ps[k] == Piece::Paint(code, t),
    ensures
        !has_escape(t),
{
    assert(ps[k] matches Piece::Paint(_, tt) ==> !has_escape(tt));
}

proof fn lemma_step_pieces(i: nat, st: TraceStep)
    ensures
        ({
            let sp = step_pieces(i, st);
            let lv = text::lines_of(st.detail@);
            &&& sp.len() >= (5 + 3 * lv.len()) as int
            &&& sp[1] == Piece::Paint("1;36"@, marker_text(i + 1))
            &&& sp[3] == Piece::Paint("1"@, st.label@)
            &&& sp.take((5 + 3 * lv.len()) as int) == sp.take(5) + detail_pieces(lv)
            &&& st.snapshot is None ==> sp.len() == (5 + 3 * lv.len()) as int
            &&& sp.skip((5 + 3 * lv.len()) as int) == snapshot_pieces(st.snapshot)
        }),
{
    let sp = step_pieces(i, st);
    let lv = text::lines_of(st.detail@);
    lemma_detail_pieces_len(lv);
    let head = seq![
        Piece::Plain("\n  "@),
        Piece::Paint("1;36"@, marker_text(i + 1)),
        Piece::Plain(" "@),
        Piece::Paint("1"@, st.label@),
        Piece::Plain("\n"@),
    ];
    assert(sp.take(5) =~= head);
    assert(sp.take((5 + 3 * lv.len()) as int) =~= head + detail_pieces(lv));
    assert(sp.skip((5 + 3 * lv.len()) as int) =~= snapshot_pieces(st.snapshot));
}

proof fn lemma_trace_pieces_prefix(title: Seq<char>, steps: Seq<TraceStep>, i: int)
    requires
        0 <= i <= steps.len(),
    ensures
        i == 0 ==> trace_pieces(title, steps.take(0)) == seq![
            Piece::Plain("\n"@),
            Piece::Paint("1;4"@, title),
            Piece::Plain("\n"@),
        ],
        i > 0 ==> trace_pieces(title, steps.take(i)) == trace_pieces(title, steps.take(i - 1))
            + step_pieces((i - 1) as nat, steps[i - 1]),
        trace_pieces(title, steps.take(i)).len() <= trace_pieces(title, steps).len(),
        forall|k: int|
            0 <= k < trace_pieces(title, steps.take(i)).len() ==> trace_pieces(title, steps.take(i))[k]
                == #[trigger] trace_pieces(title, steps)[k],
    decreases steps.len() - i,
{
    if i < steps.len() {
        lemma_trace_pieces_prefix(title, steps, i + 1);
        assert(steps.take(i + 1).drop_last() =~= steps.take(i));
        assert(steps.take(i + 1).last() == steps[i]);
    } else {
        assert(steps.take(i) =~= steps);
    }
    if i > 0 {
        assert(steps.take(i).drop_last() =~= steps.take(i - 1));
        assert(steps.take(i).last() == steps[i - 1]);
    }
    if i == 0 {
        assert(steps.take(0).len() == 0);
    }
}

proof fn lemma_paintable_sub(all: Seq<Piece>, part: Seq<Piece>)
    requires
        paintable(all),
        part.len() <= all.len(),
        forall|k: int| 0 <= k < part.len() ==> part[k] == #[trigger] all[k],
    ensures
        paintable(part),
{
    assert forall|k: int| 0 <= k < part.len() implies (#[trigger] part[k] matches Piece::Paint(
        _,
        t,
    ) ==> !has_escape(t)) by {
        assert(part[k] == all[k]);
    }
}

proof fn lemma_detail_pieces_len(ls: Seq<Seq<char>>)
    ensures
        detail_pieces(ls).len() == 3 * ls.len(),
    decreases ls.len(),
{
    if ls.len() > 0 {
        lemma_detail_pieces_len(ls.drop_last());
    }
}

proof fn lemma_detail_pieces_index(ls: Seq<Seq<char>>, j: int)
    requires
        0 <= j < ls.len(),
    ensures
        detail_pieces(ls).len() == 3 * ls.len(),
        detail_pieces(ls)[3 * j + 1] == Piece::Paint("2"@, ls[j]),
        detail_pieces(ls.take(j + 1)) == detail_pieces(ls.take(j)) + seq![
            Piece::Plain("       "@),
            Piece::Paint("2"@, ls[j]),
            Piece::Plain("\n"@),
        ],
    decreases ls.len(),
{
    lemma_detail_pieces_len(ls);
    lemma_detail_pieces_len(ls.take(j));
    assert(ls.take(j + 1).drop_last() =~= ls.take(j));
    assert(ls.take(j + 1).last() == ls[j]);
    if j < ls.len() - 1 {
        lemma_detail_pieces_index(ls.drop_last(), j);
        lemma_detail_pieces_len(ls.drop_last());
        assert(ls.drop_last()[j] == ls[j]);
    } else {
        lemma_detail_pieces_len(ls.drop_last());
        assert(ls.drop_last() =~= ls.take(j));
    }
}

} // verus!
