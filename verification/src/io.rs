//! On-disk wire formats for keys and ciphertexts.
//!
//! Keys and ciphertexts are stored as small envelopes that begin with a magic
//! line such as `-----BEGIN HOMO PAILLIER PUBLIC KEY-----`, which makes files
//! self-describing, easy to grep, and safe to carry as text. An envelope
//! holds its payload (the serialised object) base64-encoded, together with
//! the scheme and kind of object and a short fingerprint of the payload.
//!
//! This module frames and checks payload bytes; turning objects into bytes
//! and back is left to the serialisation layer of the caller.

use vstd::prelude::*;
use base64::Engine;
use sha2::Digest;
use crate::schemes::{Scheme, scheme_name};
use crate::text;
use crate::text::is_ws;
use vstd::string::StringSliceAdditionalSpecFns;

verus! {

// ---------------------------------------------------------------------------
// Base64 and SHA-256
// ---------------------------------------------------------------------------

#[verifier::external_type_specification]
#[verifier::external_body]
pub struct ExDecodeError(base64::DecodeError);

/// The character of a 6-bit value in the standard base64 alphabet:
/// `A-Z`, `a-z`, `0-9`, `+`, `/`.
pub open spec fn base64_digit(v: int) -> char {
    if v < 26 {
        (65 + v) as char
    } else if v < 52 {
        (97 + (v - 26)) as char
    } else if v < 62 {
        (48 + (v - 52)) as char
    } else if v == 62 {
        '+'
    } else {
        '/'
    }
}

/// The standard (padded) base64 text of some bytes: each group of three
/// bytes gives four characters of six bits each; a last group of one or
/// two bytes gives two or three characters and is padded with `=`.
pub open spec fn base64_text(b: Seq<u8>) -> Seq<char>
    decreases b.len(),
{
    let x0 = if b.len() > 0 { b[0] as int } else { 0 };
    let x1 = if b.len() > 1 { b[1] as int } else { 0 };
    let x2 = if b.len() > 2 { b[2] as int } else { 0 };
    if b.len() == 0 {
        Seq::empty()
    } else if b.len() == 1 {
        seq![base64_digit(x0 / 4), base64_digit((x0 % 4) * 16), '=', '=']
    } else if b.len() == 2 {
        seq![base64_digit(x0 / 4), base64_digit((x0 % 4) * 16 + x1 / 16), base64_digit((x1 % 16) * 4), '=']
    } else {
        seq![
            base64_digit(x0 / 4),
            base64_digit((x0 % 4) * 16 + x1 / 16),
            base64_digit((x1 % 16) * 4 + x2 / 64),
            base64_digit(x2 % 64),
        ] + base64_text(b.skip(3))
    }
}

/// The bytes that the `base64` crate's standard engine decodes from a text.
/// That engine requires canonical padding and allows no trailing bits, so
/// it accepts exactly the padded base64 texts of byte strings
/// ([`base64_text`]) and gives those bytes back; any other text is an error.
pub open spec fn base64_bytes(s: Seq<char>) -> Option<Seq<u8>> {
    if exists|b: Seq<u8>| #[trigger] base64_text(b) == s {
        Some(choose|b: Seq<u8>| #[trigger] base64_text(b) == s)
    } else {
        None
    }
}

/// The SHA-256 digest of some bytes.
pub uninterp spec fn sha256_digest(b: Seq<u8>) -> Seq<u8>;

/// A character of the standard base64 alphabet, padding included.
pub open spec fn is_base64_char(c: char) -> bool {
    ||| 'A' <= c <= 'Z'
    ||| 'a' <= c <= 'z'
    ||| '0' <= c <= '9'
    ||| c == '+' || c == '/' || c == '='
}

/// `Engine::encode` of the `STANDARD` engine: the padded base64 text of
/// `bytes` ([`base64_text`]). Its characters are drawn from the base64
/// alphabet, and the same engine decodes the text back to `bytes`.
#[verifier::external_body]
fn b64_encode(bytes: &[u8]) -> (r: String)
    ensures
        r@ == base64_text(bytes@),
        forall|k: int| 0 <= k < r@.len() ==> is_base64_char(#[trigger] r@[k]),
        base64_bytes(r@) == Some(bytes@),
{
    base64::engine::general_purpose::STANDARD.encode(bytes)
}

/// `Engine::decode` of the `STANDARD` engine.
#[verifier::external_body]
fn b64_decode(s: &str) -> (r: Result<Vec<u8>, base64::DecodeError>)
    ensures
        r matches Ok(v) ==> base64_bytes(s@) == Some(v@),
        r is Err ==> base64_bytes(s@) is None,
{
    base64::engine::general_purpose::STANDARD.decode(s)
}

/// The `Display` text of a base64 decoding error.
#[verifier::external_body]
fn decode_error_text(e: &base64::DecodeError) -> String {
    e.to_string()
}

/// `Sha256::digest`: the 32-byte SHA-256 digest.
#[verifier::external_body]
fn sha256(bytes: &[u8]) -> (r: Vec<u8>)
    ensures
        r@ == sha256_digest(bytes@),
        r@.len() == 32,
{
    sha2::Sha256::digest(bytes).to_vec()
}

// ---------------------------------------------------------------------------
// Kinds and envelopes
// ---------------------------------------------------------------------------

/// Discriminator for the four kinds of objects put on disk.
#[derive(Debug, Clone, Copy, PartialEq, Eq, Structural)]
pub enum Kind {
    /// A public key.
    PublicKey,
    /// A secret key.
    SecretKey,
    /// A ciphertext.
    Ciphertext,
    /// A circuit description.
    Circuit,
}

/// The label of a kind in the BEGIN/END markers.
pub open spec fn kind_label(k: Kind) -> Seq<char> {
    match k {
        Kind::PublicKey => "PUBLIC KEY"@,
        Kind::SecretKey => "SECRET KEY"@,
        Kind::Ciphertext => "CIPHERTEXT"@,
        Kind::Circuit => "CIRCUIT"@,
    }
}

/// The name of a kind's variant, as `{:?}` prints it.
pub open spec fn kind_name(k: Kind) -> Seq<char> {
    match k {
        Kind::PublicKey => "PublicKey"@,
        Kind::SecretKey => "SecretKey"@,
        Kind::Ciphertext => "Ciphertext"@,
        Kind::Circuit => "Circuit"@,
    }
}

impl Kind {
    fn label(&self) -> (r: &'static str)
        ensures
            r@ == kind_label(*self),
    {
        match self {
            Kind::PublicKey => "PUBLIC KEY",
            Kind::SecretKey => "SECRET KEY",
            Kind::Ciphertext => "CIPHERTEXT",
            Kind::Circuit => "CIRCUIT",
        }
    }

    /// The variant's name.
    pub fn name(&self) -> (r: &'static str)
        ensures
            r@ == kind_name(*self),
    {
        match self {
            Kind::PublicKey => "PublicKey",
            Kind::SecretKey => "SecretKey",
            Kind::Ciphertext => "Ciphertext",
            Kind::Circuit => "Circuit",
        }
    }
}

/// The on-disk envelope. `kind` and `scheme` are written into the BEGIN/END
/// markers; `data` is the base64 text of the payload.
#[derive(Clone, Debug)]
pub struct Envelope {
    /// Format version (currently 1).
    pub version: u32,
    /// Which scheme produced this object.
    pub scheme: Scheme,
    /// What kind of object this is.
    pub kind: Kind,
    /// Base64 text of the payload.
    pub data: String,
    /// First 8 hex chars of SHA-256(payload), for human-friendly identifying.
    pub fingerprint: String,
}

/// A lower-case hexadecimal digit.
pub open spec fn hex_digit(d: int) -> char {
    if d < 10 {
        ((d + 0x30) as u32) as char
    } else {
        ((d - 10 + 0x61) as u32) as char
    }
}

/// Two lower-case hexadecimal digits of a byte.
pub open spec fn hex_byte(b: u8) -> Seq<char> {
    seq![hex_digit(b as int / 16), hex_digit(b as int % 16)]
}

/// The fingerprint of a payload: the hex digits of the first four bytes of
/// its SHA-256 digest.
pub open spec fn fingerprint_text(payload: Seq<u8>) -> Seq<char> {
    let d = sha256_digest(payload);
    hex_byte(d[0]) + hex_byte(d[1]) + hex_byte(d[2]) + hex_byte(d[3])
}

/// `env` holds `payload` as an object of `kind` made by `scheme`.
pub open spec fn packs(env: Envelope, scheme: Scheme, kind: Kind, payload: Seq<u8>) -> bool {
    &&& env.version == 1
    &&& env.scheme == scheme
    &&& env.kind == kind
    &&& env.data@ == base64_text(payload)
    &&& base64_bytes(env.data@) == Some(payload)
    &&& env.fingerprint@ == fingerprint_text(payload)
}

/// What unpacking an envelope as `expected` gives: its payload, or the
/// message that says which kind was found instead.
pub open spec fn unpacks(env: Envelope, expected: Kind, r: Result<Vec<u8>, String>) -> bool {
    if env.kind != expected {
        r is Err && r->Err_0@ == "expected "@ + kind_name(expected)
            + ", got "@ + kind_name(env.kind)
    } else {
        match base64_bytes(env.data@) {
            Some(b) => r is Ok && r->Ok_0@ == b,
            None => r is Err,
        }
    }
}

fn hex_char(d: u8) -> (c: char)
    requires
        d < 16,
    ensures
        c == hex_digit(d as int),
{
    if d < 10 {
        ((d + 0x30) as u8) as char
    } else {
        ((d - 10 + 0x61) as u8) as char
    }
}

fn fingerprint(payload: &[u8]) -> (r: String)
    ensures
        r@ == fingerprint_text(payload@),
{
    let d = sha256(payload);
    let mut out: Vec<char> = Vec::new();
    let mut i: usize = 0;
    while i < 4
        invariant
            i <= 4,
            d@ == sha256_digest(payload@),
            d@.len() == 32,
            out@ == if i == 0 {
                Seq::<char>::empty()
            } else if i == 1 {
                hex_byte(d@[0])
            } else if i == 2 {
                hex_byte(d@[0]) + hex_byte(d@[1])
            } else if i == 3 {
                hex_byte(d@[0]) + hex_byte(d@[1]) + hex_byte(d@[2])
            } else {
                hex_byte(d@[0]) + hex_byte(d@[1]) + hex_byte(d@[2]) + hex_byte(d@[3])
            },
        decreases 4 - i,
    {
        let b = d[i];
        let ghost before = out@;
        out.push(hex_char(b / 16));
        out.push(hex_char(b % 16));
        assert(out@ =~= before + hex_byte(b));
        i = i + 1;
    }
    text::string_of(out.as_slice())
}

fn pack(scheme: Scheme, kind: Kind, payload: &[u8]) -> (env: Envelope)
    ensures
        packs(env, scheme, kind, payload@),
{
    Envelope {
        version: 1,
        scheme,
        kind,
        fingerprint: fingerprint(payload),
        data: b64_encode(payload),
    }
}

fn unpack(env: &Envelope, expected: Kind) -> (r: Result<Vec<u8>, String>)
    ensures
        unpacks(*env, expected, r),
{
    if env.kind != expected {
        let mut msg: Vec<char> = Vec::new();
        text::push_str(&mut msg, "expected ");
        text::push_str(&mut msg, expected.name());
        text::push_str(&mut msg, ", got ");
        text::push_str(&mut msg, env.kind.name());
        return Err(text::string_of(msg.as_slice()));
    }
    match b64_decode(env.data.as_str()) {
        Ok(bytes) => Ok(bytes),
        Err(e) => Err(decode_error_text(&e)),
    }
}

// --- Paillier --------------------------------------------------------------
/// Wrap the serialised bytes of a Paillier public key into an envelope.
pub fn pack_paillier_pk(payload: &[u8]) -> (env: Envelope)
    ensures
        packs(env, Scheme::Paillier, Kind::PublicKey, payload@),
{
    pack(Scheme::Paillier, Kind::PublicKey, payload)
}

/// Unwrap the serialised bytes of a Paillier public key from an envelope.
pub fn unpack_paillier_pk(env: &Envelope) -> (r: Result<Vec<u8>, String>)
    ensures
        unpacks(*env, Kind::PublicKey, r),
{
    unpack(env, Kind::PublicKey)
}

/// Wrap the serialised bytes of a Paillier secret key into an envelope.
pub fn pack_paillier_sk(payload: &[u8]) -> (env: Envelope)
    ensures
        packs(env, Scheme::Paillier, Kind::SecretKey, payload@),
{
    pack(Scheme::Paillier, Kind::SecretKey, payload)
}

/// Unwrap the serialised bytes of a Paillier secret key from an envelope.
pub fn unpack_paillier_sk(env: &Envelope) -> (r: Result<Vec<u8>, String>)
    ensures
        unpacks(*env, Kind::SecretKey, r),
{
    unpack(env, Kind::SecretKey)
}

/// Wrap the serialised bytes of a Paillier ciphertext into an envelope.
pub fn pack_paillier_ct(payload: &[u8]) -> (env: Envelope)
    ensures
        packs(env, Scheme::Paillier, Kind::Ciphertext, payload@),
{
    pack(Scheme::Paillier, Kind::Ciphertext, payload)
}

/// Unwrap the serialised bytes of a Paillier ciphertext from an envelope.
pub fn unpack_paillier_ct(env: &Envelope) -> (r: Result<Vec<u8>, String>)
    ensures
        unpacks(*env, Kind::Ciphertext, r),
{
    unpack(env, Kind::Ciphertext)
}

// --- BFV -------------------------------------------------------------------
/// Wrap the serialised bytes of a BFV public key into an envelope.
pub fn pack_bfv_pk(payload: &[u8]) -> (env: Envelope)
    ensures
        packs(env, Scheme::Bfv, Kind::PublicKey, payload@),
{
    pack(Scheme::Bfv, Kind::PublicKey, payload)
}

/// Unwrap the serialised bytes of a BFV public key from an envelope.
pub fn unpack_bfv_pk(env: &Envelope) -> (r: Result<Vec<u8>, String>)
    ensures
        unpacks(*env, Kind::PublicKey, r),
{
    unpack(env, Kind::PublicKey)
}

/// Wrap the serialised bytes of a BFV secret key into an envelope.
pub fn pack_bfv_sk(payload: &[u8]) -> (env: Envelope)
    ensures
        packs(env, Scheme::Bfv, Kind::SecretKey, payload@),
{
    pack(Scheme::Bfv, Kind::SecretKey, payload)
}

/// Unwrap the serialised bytes of a BFV secret key from an envelope.
pub fn unpack_bfv_sk(env: &Envelope) -> (r: Result<Vec<u8>, String>)
    ensures
        unpacks(*env, Kind::SecretKey, r),
{
    unpack(env, Kind::SecretKey)
}

/// Wrap the serialised bytes of a BFV ciphertext into an envelope.
pub fn pack_bfv_ct(payload: &[u8]) -> (env: Envelope)
    ensures
        packs(env, Scheme::Bfv, Kind::Ciphertext, payload@),
{
    pack(Scheme::Bfv, Kind::Ciphertext, payload)
}

/// Unwrap the serialised bytes of a BFV ciphertext from an envelope.
pub fn unpack_bfv_ct(env: &Envelope) -> (r: Result<Vec<u8>, String>)
    ensures
        unpacks(*env, Kind::Ciphertext, r),
{
    unpack(env, Kind::Ciphertext)
}

// --- BGN -------------------------------------------------------------------
/// Wrap the serialised bytes of a BGN public key into an envelope.
pub fn pack_bgn_pk(payload: &[u8]) -> (env: Envelope)
    ensures
        packs(env, Scheme::Bgn, Kind::PublicKey, payload@),
{
    pack(Scheme::Bgn, Kind::PublicKey, payload)
}

/// Unwrap the serialised bytes of a BGN public key from an envelope.
pub fn unpack_bgn_pk(env: &Envelope) -> (r: Result<Vec<u8>, String>)
    ensures
        unpacks(*env, Kind::PublicKey, r),
{
    unpack(env, Kind::PublicKey)
}

/// Wrap the serialised bytes of a BGN secret key into an envelope.
pub fn pack_bgn_sk(payload: &[u8]) -> (env: Envelope)
    ensures
        packs(env, Scheme::Bgn, Kind::SecretKey, payload@),
{
    pack(Scheme::Bgn, Kind::SecretKey, payload)
}

/// Unwrap the serialised bytes of a BGN secret key from an envelope.
pub fn unpack_bgn_sk(env: &Envelope) -> (r: Result<Vec<u8>, String>)
    ensures
        unpacks(*env, Kind::SecretKey, r),
{
    unpack(env, Kind::SecretKey)
}

/// Wrap the serialised bytes of a BGN level-1 ciphertext into an envelope.
pub fn pack_bgn_ct(payload: &[u8]) -> (env: Envelope)
    ensures
        packs(env, Scheme::Bgn, Kind::Ciphertext, payload@),
{
    pack(Scheme::Bgn, Kind::Ciphertext, payload)
}

/// Unwrap the serialised bytes of a BGN level-1 ciphertext from an envelope.
pub fn unpack_bgn_ct(env: &Envelope) -> (r: Result<Vec<u8>, String>)
    ensures
        unpacks(*env, Kind::Ciphertext, r),
{
    unpack(env, Kind::Ciphertext)
}

// --- CKKS ------------------------------------------------------------------
/// Wrap the serialised bytes of a CKKS public key into an envelope.
pub fn pack_ckks_pk(payload: &[u8]) -> (env: Envelope)
    ensures
        packs(env, Scheme::Ckks, Kind::PublicKey, payload@),
{
    pack(Scheme::Ckks, Kind::PublicKey, payload)
}

/// Unwrap the serialised bytes of a CKKS public key from an envelope.
pub fn unpack_ckks_pk(env: &Envelope) -> (r: Result<Vec<u8>, String>)
    ensures
        unpacks(*env, Kind::PublicKey, r),
{
    unpack(env, Kind::PublicKey)
}

/// Wrap the serialised bytes of a CKKS secret key into an envelope.
pub fn pack_ckks_sk(payload: &[u8]) -> (env: Envelope)
    ensures
        packs(env, Scheme::Ckks, Kind::SecretKey, payload@),
{
    pack(Scheme::Ckks, Kind::SecretKey, payload)
}

/// Unwrap the serialised bytes of a CKKS secret key from an envelope.
pub fn unpack_ckks_sk(env: &Envelope) -> (r: Result<Vec<u8>, String>)
    ensures
        unpacks(*env, Kind::SecretKey, r),
{
    unpack(env, Kind::SecretKey)
}

/// Wrap the serialised bytes of a CKKS ciphertext into an envelope.
pub fn pack_ckks_ct(payload: &[u8]) -> (env: Envelope)
    ensures
        packs(env, Scheme::Ckks, Kind::Ciphertext, payload@),
{
    pack(Scheme::Ckks, Kind::Ciphertext, payload)
}

/// Unwrap the serialised bytes of a CKKS ciphertext from an envelope.
pub fn unpack_ckks_ct(env: &Envelope) -> (r: Result<Vec<u8>, String>)
    ensures
        unpacks(*env, Kind::Ciphertext, r),
{
    unpack(env, Kind::Ciphertext)
}

// ---------------------------------------------------------------------------
// PEM-style text
// ---------------------------------------------------------------------------

/// `s` broken into lines of 64 characters.
pub open spec fn wrap_lines(s: Seq<char>) -> Seq<char>
    decreases s.len(),
{
    if s.len() <= 64 {
        s
    } else {
        s.take(64) + seq!['\n'] + wrap_lines(s.skip(64))
    }
}

spec fn wrap_rest(s: Seq<char>, i: int) -> Seq<char> {
    if i >= s.len() {
        Seq::empty()
    } else if i == 0 {
        wrap_lines(s)
    } else {
        seq!['\n'] + wrap_lines(s.skip(i))
    }
}

fn wrap_64(s: &[char]) -> (r: Vec<char>)
    ensures
        r@ == wrap_lines(s@),
{
    let n = s.len();
    let mut out: Vec<char> = Vec::new();
    let mut i: usize = 0;
    assert(s@.skip(0) =~= s@);
    while i < n
        invariant
            i <= n == s@.len(),
            s@.skip(0) == s@,
            wrap_lines(s@) == out@ + wrap_rest(s@, i as int),
        decreases n - i,
    {
        let end = if n - i <= 64 { n } else { i + 64 };
        let ghost before = out@;
        if i > 0 {
            out.push('\n');
        }
        let chunk = text::slice_of(s, i, end);
        text::push_all(&mut out, chunk.as_slice());
        proof {
            let t = s@.skip(i as int);
            if n - i <= 64 {
                assert(t =~= chunk@);
            } else {
                assert(t.take(64) =~= chunk@);
                assert(t.skip(64) =~= s@.skip(end as int));
            }
            if i > 0 {
                assert(out@ =~= before + seq!['\n'] + chunk@);
            } else {
                assert(out@ =~= before + chunk@);
            }
        }
        i = end;
    }
    if n == 0 {
        assert(out@ =~= wrap_lines(s@));
    }
    assert(out@ + Seq::<char>::empty() =~= out@);
    out
}

/// `str::to_ascii_uppercase` of a character.
pub open spec fn ascii_upper(c: char) -> char {
    if 'a' <= c <= 'z' {
        ((c as u32) - 32) as char
    } else {
        c
    }
}

/// The upper-case name of a scheme, as in the BEGIN/END markers.
pub open spec fn upper_name(s: Scheme) -> Seq<char> {
    scheme_name(s).map_values(|c: char| ascii_upper(c))
}

/// The text between the dashes of a marker: `HOMO <SCHEME> <LABEL>`.
pub open spec fn marker(s: Scheme, k: Kind) -> Seq<char> {
    "HOMO "@ + upper_name(s) + " "@ + kind_label(k)
}

/// The PEM-style framing of the base64 text `b`.
pub open spec fn pem_text(s: Scheme, k: Kind, b: Seq<char>) -> Seq<char> {
    "-----BEGIN "@ + marker(s, k) + "-----\n"@ + wrap_lines(b) + "\n-----END "@ + marker(s, k)
        + "-----\n"@
}

fn upper_char(c: char) -> (r: char)
    ensures
        r == ascii_upper(c),
{
    if 'a' <= c && c <= 'z' {
        let b: u8 = (c as u32 - 32) as u8;
        b as char
    } else {
        c
    }
}

fn marker_text(s: Scheme, k: Kind) -> (r: Vec<char>)
    ensures
        r@ == marker(s, k),
{
    let name = text::chars_of(s.short());
    let mut up: Vec<char> = Vec::new();
    let mut i: usize = 0;
    while i < name.len()
        invariant
            i <= name.len(),
            name@ == scheme_name(s),
            up@ == upper_name(s).take(i as int),
        decreases name.len() - i,
    {
        up.push(upper_char(name[i]));
        assert(upper_name(s).take(i as int).push(ascii_upper(name@[i as int])) =~= upper_name(
            s,
        ).take(i + 1));
        i = i + 1;
    }
    assert(up@ =~= upper_name(s));
    let mut r: Vec<char> = Vec::new();
    text::push_str(&mut r, "HOMO ");
    text::push_all(&mut r, up.as_slice());
    text::push_str(&mut r, " ");
    text::push_str(&mut r, k.label());
    r
}

/// Frame the JSON text of an envelope of `kind` made by `scheme` as a
/// PEM-style block: a BEGIN line, the base64 text of the JSON's UTF-8 bytes
/// in lines of 64 characters, and an END line.
pub fn frame_pem(scheme: Scheme, kind: Kind, json: &str) -> (r: String)
    ensures
        r@ == pem_text(scheme, kind, base64_text(json.spec_bytes())),
        all_base64(base64_text(json.spec_bytes())),
        base64_bytes(base64_text(json.spec_bytes())) == Some(json.spec_bytes()),
{
    let m = marker_text(scheme, kind);
    let body = b64_encode(json.as_bytes());
    let body_chars = text::chars_of(body.as_str());
    let wrapped = wrap_64(body_chars.as_slice());
    let mut out: Vec<char> = Vec::new();
    text::push_str(&mut out, "-----BEGIN ");
    text::push_all(&mut out, m.as_slice());
    text::push_str(&mut out, "-----\n");
    text::push_all(&mut out, wrapped.as_slice());
    text::push_str(&mut out, "\n-----END ");
    text::push_all(&mut out, m.as_slice());
    text::push_str(&mut out, "-----\n");
    text::string_of(out.as_slice())
}

/// The index of the first non-empty line at or after `i`.
pub open spec fn first_nonempty(ls: Seq<Seq<char>>, i: int) -> int
    decreases ls.len() - i,
{
    if 0 <= i < ls.len() && ls[i].len() == 0 {
        first_nonempty(ls, i + 1)
    } else {
        i
    }
}

/// The body of a block: its non-empty lines, joined, up to one that
/// starts with `-----END`.
pub open spec fn body_of(ls: Seq<Seq<char>>) -> Seq<char>
    decreases ls.len(),
{
    if ls.len() == 0 {
        Seq::empty()
    } else if ls[0].len() == 0 {
        body_of(ls.drop_first())
    } else if text::strip_prefix_seq(ls[0], "-----END"@) is Some {
        Seq::empty()
    } else {
        ls[0] + body_of(ls.drop_first())
    }
}

/// The base64 body of a PEM-style block, trimmed, or the message that
/// explains why there is none.
pub open spec fn pem_body(t: Seq<char>) -> Result<Seq<char>, Seq<char>> {
    let ls = text::lines_of(t);
    let h = first_nonempty(ls, 0);
    if h >= ls.len() {
        Err("empty input"@)
    } else if text::strip_prefix_seq(ls[h], "-----BEGIN HOMO "@) is None {
        Err("bad header: "@ + ls[h])
    } else {
        Ok(text::trim_seq(body_of(ls.skip(h + 1))))
    }
}

/// Recover the UTF-8 bytes of an envelope's JSON text from a PEM-style
/// block: the first non-empty line must begin with `-----BEGIN HOMO `, and
/// the non-empty lines after it, up to the END line, hold the base64 text.
pub fn unframe_pem(t: &str) -> (r: Result<Vec<u8>, String>)
    ensures
        match pem_body(t@) {
            Err(m) => r is Err && r->Err_0@ == m,
            Ok(b) => match base64_bytes(b) {
                Some(v) => r is Ok && r->Ok_0@ == v,
                None => r is Err,
            },
        },
{
    let chars = text::chars_of(t);
    let ls = text::lines(chars.as_slice());
    let ghost lv = text::line_views(ls@);
    let mut h: usize = 0;
    while h < ls.len() && ls[h].len() == 0
        invariant
            h <= ls.len(),
            lv == text::line_views(ls@),
            lv.len() == ls.len(),
            first_nonempty(lv, h as int) == first_nonempty(lv, 0),
        decreases ls.len() - h,
    {
        assert(lv[h as int] == ls@[h as int]@);
        h = h + 1;
    }
    assert(lv == text::lines_of(t@));
    if h >= ls.len() {
        assert(first_nonempty(lv, 0) == h);
        let mut m: Vec<char> = Vec::new();
        text::push_str(&mut m, "empty input");
        return Err(text::string_of(m.as_slice()));
    }
    assert(lv[h as int] == ls@[h as int]@);
    let begin = text::chars_of("-----BEGIN HOMO ");
    if !text::starts_with(ls[h].as_slice(), begin.as_slice()) {
        let mut m: Vec<char> = Vec::new();
        text::push_str(&mut m, "bad header: ");
        text::push_all(&mut m, ls[h].as_slice());
        return Err(text::string_of(m.as_slice()));
    }
    let end_marker = text::chars_of("-----END");
    let mut body: Vec<char> = Vec::new();
    let mut i: usize = h + 1;
    let ghost rest = lv.skip(h + 1);
    loop
        invariant
            h + 1 <= i <= ls.len(),
            lv == text::line_views(ls@),
            lv.len() == ls.len(),
            rest == lv.skip(h + 1),
            end_marker@ == "-----END"@,
            body@ + body_of(lv.skip(i as int)) == body_of(rest),
        ensures
            body@ == body_of(rest),
        decreases ls.len() - i,
    {
        if i >= ls.len() {
            assert(lv.skip(i as int) =~= Seq::<Seq<char>>::empty());
            assert(body@ + Seq::<char>::empty() =~= body@);
            break;
        }
        let ghost cur = lv.skip(i as int);
        assert(cur[0] == ls@[i as int]@);
        assert(cur.drop_first() =~= lv.skip(i + 1));
        if ls[i].len() > 0 {
            if text::starts_with(ls[i].as_slice(), end_marker.as_slice()) {
                assert(text::strip_prefix_seq(cur[0], "-----END"@) is Some);
                assert(body_of(cur) == Seq::<char>::empty());
                assert(body@ + Seq::<char>::empty() =~= body@);
                break;
            }
            let ghost b0 = body@;
            text::push_all(&mut body, ls[i].as_slice());
            assert(b0 + ls@[i as int]@ + body_of(lv.skip(i + 1)) =~= b0 + (ls@[i as int]@
                + body_of(lv.skip(i + 1))));
        }
        i = i + 1;
    }
    assert(first_nonempty(lv, 0) == h);
    assert(lv == text::lines_of(t@));
    assert(body@ == body_of(lv.skip(h + 1)));
    let trimmed = text::trim(body.as_slice());
    let trimmed_s = text::string_of(trimmed.as_slice());
    assert(pem_body(t@) == Ok::<Seq<char>, Seq<char>>(trimmed_s@));
    match b64_decode(trimmed_s.as_str()) {
        Ok(bytes) => Ok(bytes),
        Err(e) => Err(decode_error_text(&e)),
    }
}

/// The text of `b` that holds only base64 characters.
pub open spec fn all_base64(b: Seq<char>) -> bool {
    forall|k: int| 0 <= k < b.len() ==> is_base64_char(#[trigger] b[k])
}

/// The lines that [`wrap_lines`] makes of `b`.
pub open spec fn chunk_lines(b: Seq<char>) -> Seq<Seq<char>>
    decreases b.len(),
{
    if b.len() <= 64 {
        seq![b]
    } else {
        seq![b.take(64)] + chunk_lines(b.skip(64))
    }
}

proof fn lemma_find_char_at(s: Seq<char>, c: char, i: int, j: int)
    requires
        0 <= i <= j < s.len(),
        s[j] == c,
        forall|k: int| i <= k < j ==> s[k] != c,
    ensures
        text::find_char(s, c, i) == j,
    decreases j - i,
{
    if i < j {
        lemma_find_char_at(s, c, i + 1, j);
    }
}

proof fn lemma_lines_cons(a: Seq<char>, rest: Seq<char>)
    requires
        forall|k: int| 0 <= k < a.len() ==> a[k] != '\n',
        a.len() == 0 || a.last() != '\r',
    ensures
        text::lines_of(a + seq!['\n'] + rest) == seq![a] + text::lines_of(rest),
{
    let s = a + seq!['\n'] + rest;
    lemma_find_char_at(s, '\n', 0, a.len() as int);
    assert(s.take(a.len() as int) =~= a);
    assert(s.skip(a.len() as int + 1) =~= rest);
}

proof fn lemma_base64_line(b: Seq<char>)
    requires
        all_base64(b),
    ensures
        forall|k: int| 0 <= k < b.len() ==> b[k] != '\n',
        b.len() == 0 || b.last() != '\r',
        b.len() == 0 || !is_ws(b[0]),
        b.len() == 0 || !is_ws(b.last()),
        b.len() == 0 || text::strip_prefix_seq(b, "-----END"@) is None,
{
    assert forall|k: int| 0 <= k < b.len() implies b[k] != '\n' by {
        assert(is_base64_char(b[k]));
    }
    if b.len() > 0 {
        assert(is_base64_char(b[0]));
        assert(is_base64_char(b[b.len() - 1]));
        reveal_strlit("-----END");
        if "-----END"@.len() <= b.len() {
            assert(b.take(8)[0] == b[0]);
        }
    }
}

proof fn lemma_base64_take_skip(b: Seq<char>, n: int)
    requires
        all_base64(b),
        0 <= n <= b.len(),
    ensures
        all_base64(b.take(n)),
        all_base64(b.skip(n)),
{
    assert forall|k: int| 0 <= k < b.take(n).len() implies is_base64_char(#[trigger] b.take(n)[k]) by {
        assert(b.take(n)[k] == b[k]);
    }
    assert forall|k: int| 0 <= k < b.skip(n).len() implies is_base64_char(#[trigger] b.skip(n)[k]) by {
        assert(b.skip(n)[k] == b[k + n]);
    }
}

proof fn lemma_lines_wrap(b: Seq<char>, rest: Seq<char>)
    requires
        all_base64(b),
    ensures
        text::lines_of(wrap_lines(b) + seq!['\n'] + rest) == chunk_lines(b) + text::lines_of(rest),
    decreases b.len(),
{
    lemma_base64_line(b);
    if b.len() <= 64 {
        lemma_lines_cons(b, rest);
    } else {
        let h = b.take(64);
        let t = b.skip(64);
        lemma_base64_take_skip(b, 64);
        lemma_base64_line(h);
        assert(wrap_lines(b) + seq!['\n'] + rest =~= h + seq!['\n'] + (wrap_lines(t) + seq!['\n']
            + rest));
        lemma_lines_cons(h, wrap_lines(t) + seq!['\n'] + rest);
        lemma_lines_wrap(t, rest);
        assert(seq![h] + (chunk_lines(t) + text::lines_of(rest)) =~= chunk_lines(b) + text::lines_of(rest));
    }
}

proof fn lemma_body_chunks(b: Seq<char>, f: Seq<char>)
    requires
        all_base64(b),
        f.len() > 0,
        text::strip_prefix_seq(f, "-----END"@) is Some,
    ensures
        body_of(chunk_lines(b) + seq![f]) == b,
    decreases b.len(),
{
    lemma_base64_line(b);
    let ls = chunk_lines(b) + seq![f];
    if b.len() <= 64 {
        assert(ls[0] == b);
        assert(ls.drop_first() =~= seq![f]);
        assert(body_of(seq![f]) == Seq::<char>::empty());
        if b.len() > 0 {
            assert(b + Seq::<char>::empty() =~= b);
        }
    } else {
        let h = b.take(64);
        let t = b.skip(64);
        lemma_base64_take_skip(b, 64);
        lemma_base64_line(h);
        assert(ls[0] == h);
        assert(ls.drop_first() =~= chunk_lines(t) + seq![f]);
        lemma_body_chunks(t, f);
        assert(h + t =~= b);
    }
}

proof fn lemma_trim_base64(b: Seq<char>)
    requires
        all_base64(b),
    ensures
        text::trim_seq(b) == b,
{
    lemma_base64_line(b);
    assert(b.subrange(0, b.len() as int) =~= b);
}

proof fn lemma_marker_plain(s: Scheme, k: Kind)
    ensures
        forall|i: int| 0 <= i < marker(s, k).len() ==> marker(s, k)[i] != '\n',
{
    reveal_strlit("HOMO ");
    reveal_strlit(" ");
    reveal_strlit("paillier");
    reveal_strlit("bfv");
    reveal_strlit("bgn");
    reveal_strlit("ckks");
    reveal_strlit("PUBLIC KEY");
    reveal_strlit("SECRET KEY");
    reveal_strlit("CIPHERTEXT");
    reveal_strlit("CIRCUIT");
    let m = marker(s, k);
    let u = upper_name(s);
    let l = kind_label(k);
    assert forall|i: int| 0 <= i < m.len() implies m[i] != '\n' by {
        let a = "HOMO "@.len() as int;
        if i < a {
            assert(m[i] == "HOMO "@[i]);
        } else if i < a + u.len() {
            assert(m[i] == u[i - a]);
            assert(u[i - a] == ascii_upper(scheme_name(s)[i - a]));
        } else if i == a + u.len() {
            assert(m[i] == ' ');
        } else {
            assert(m[i] == l[i - a - u.len() - 1]);
        }
    }
}

/// Reading the body back out of a framed block gives the base64 text that
/// was framed, for every scheme and kind.
pub proof fn lemma_frame_unframe(s: Scheme, k: Kind, b: Seq<char>)
    requires
        all_base64(b),
    ensures
        pem_body(pem_text(s, k, b)) == Ok::<Seq<char>, Seq<char>>(b),
{
    reveal_strlit("-----BEGIN ");
    reveal_strlit("-----\n");
    reveal_strlit("\n-----END ");
    reveal_strlit("-----");
    reveal_strlit("-----END ");
    reveal_strlit("-----END");
    reveal_strlit("-----BEGIN HOMO ");
    reveal_strlit("HOMO ");
    let m = marker(s, k);
    let hd = "-----BEGIN "@ + m + "-----"@;
    let ft = "-----END "@ + m + "-----"@;
    lemma_marker_plain(s, k);
    assert(pem_text(s, k, b) =~= hd + seq!['\n'] + (wrap_lines(b) + seq!['\n'] + (ft + seq!['\n']
        + Seq::<char>::empty())));
    assert forall|i: int| 0 <= i < hd.len() implies hd[i] != '\n' by {
        if i < 11 {
            assert(hd[i] == "-----BEGIN "@[i]);
        } else if i < 11 + m.len() {
            assert(hd[i] == m[i - 11]);
        } else {
            assert(hd[i] == '-');
        }
    }
    assert(hd.last() == '-');
    lemma_lines_cons(hd, wrap_lines(b) + seq!['\n'] + (ft + seq!['\n'] + Seq::<char>::empty()));
    lemma_lines_wrap(b, ft + seq!['\n'] + Seq::<char>::empty());
    assert forall|i: int| 0 <= i < ft.len() implies ft[i] != '\n' by {
        if i < 9 {
            assert(ft[i] == "-----END "@[i]);
        } else if i < 9 + m.len() {
            assert(ft[i] == m[i - 9]);
        } else {
            assert(ft[i] == '-');
        }
    }
    assert(ft.last() == '-');
    lemma_lines_cons(ft, Seq::<char>::empty());
    let ls = text::lines_of(pem_text(s, k, b));
    assert(ls =~= seq![hd] + (chunk_lines(b) + seq![ft]));
    assert(ls[0] == hd);
    assert(first_nonempty(ls, 0) == 0);
    assert(hd.take(16) =~= "-----BEGIN HOMO "@);
    assert(ft.take(8) =~= "-----END"@);
    assert(ls.skip(1) =~= chunk_lines(b) + seq![ft]);
    lemma_body_chunks(b, ft);
    lemma_trim_base64(b);
}

/// Unpacking what was packed gives the payload back.
pub proof fn lemma_unpack_pack(
    env: Envelope,
    scheme: Scheme,
    kind: Kind,
    payload: Seq<u8>,
    r: Result<Vec<u8>, String>,
)
    requires
        packs(env, scheme, kind, payload),
        unpacks(env, kind, r),
    ensures
        r is Ok && r->Ok_0@ == payload,
{
}

} // verus!
