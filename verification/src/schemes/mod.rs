//! Homomorphic encryption schemes, and the names the tool knows them by.

pub mod paillier;
pub mod bfv;
pub mod ckks;
pub mod bgn;

use vstd::prelude::*;
use crate::text;

verus! {

/// The set of schemes the CLI knows about.
#[derive(Debug, Clone, Copy, PartialEq, Eq, Structural)]
pub enum Scheme {
    /// Paillier (1999): additively homomorphic over ℤ_n.
    Paillier,
    /// BFV-lite: RLWE-based, supports + and a bounded number of ×.
    Bfv,
    /// Boneh–Goh–Nissim: one × then many +, in a simplified non-pairing form.
    Bgn,
    /// CKKS-lite: approximate arithmetic on real/complex vectors.
    Ckks,
}

/// The short, lower-case name of a scheme.
pub open spec fn scheme_name(s: Scheme) -> Seq<char> {
    match s {
        Scheme::Paillier => "paillier"@,
        Scheme::Bfv => "bfv"@,
        Scheme::Bgn => "bgn"@,
        Scheme::Ckks => "ckks"@,
    }
}

/// The one-line description of a scheme.
pub open spec fn scheme_description(s: Scheme) -> Seq<char> {
    match s {
        Scheme::Paillier => "additively homomorphic; encrypts integers mod n"@,
        Scheme::Bfv => "leveled SHE over polynomial rings; supports + and ×"@,
        Scheme::Bgn => "one multiplication, unlimited additions"@,
        Scheme::Ckks => "approximate arithmetic on real/complex vectors (the ML scheme)"@,
    }
}

/// `char::to_ascii_lowercase`.
pub open spec fn ascii_lower(c: char) -> char {
    if 'A' <= c <= 'Z' {
        ((c as u32) + 32) as char
    } else {
        c
    }
}

/// `str::to_ascii_lowercase`.
pub open spec fn ascii_lower_seq(s: Seq<char>) -> Seq<char> {
    s.map_values(|c: char| ascii_lower(c))
}

/// What parsing a scheme name gives: the scheme whose name is the
/// ASCII-lower-cased text, or the message naming that text.
pub open spec fn parse_scheme(s: Seq<char>) -> Result<Scheme, Seq<char>> {
    let l = ascii_lower_seq(s);
    if l == scheme_name(Scheme::Paillier) {
        Ok(Scheme::Paillier)
    } else if l == scheme_name(Scheme::Bfv) {
        Ok(Scheme::Bfv)
    } else if l == scheme_name(Scheme::Bgn) {
        Ok(Scheme::Bgn)
    } else if l == scheme_name(Scheme::Ckks) {
        Ok(Scheme::Ckks)
    } else {
        Err("unknown scheme: "@ + l)
    }
}

fn lower_char(c: char) -> (r: char)
    ensures
        r == ascii_lower(c),
{
    if 'A' <= c && c <= 'Z' {
        let b: u8 = (c as u32 + 32) as u8;
        b as char
    } else {
        c
    }
}

impl Scheme {
    /// All schemes supported by this build, in a fixed order.
    pub fn all() -> (r: &'static [Scheme])
        ensures
            r@ == seq![Scheme::Paillier, Scheme::Bfv, Scheme::Bgn, Scheme::Ckks],
    {
        let r: &'static [Scheme] = &[Scheme::Paillier, Scheme::Bfv, Scheme::Bgn, Scheme::Ckks];
        assert(r@ =~= seq![Scheme::Paillier, Scheme::Bfv, Scheme::Bgn, Scheme::Ckks]);
        r
    }

    /// Short, lower-case name used in CLI flags and on disk.
    pub fn short(&self) -> (r: &'static str)
        ensures
            r@ == scheme_name(*self),
    {
        match self {
            Scheme::Paillier => "paillier",
            Scheme::Bfv => "bfv",
            Scheme::Bgn => "bgn",
            Scheme::Ckks => "ckks",
        }
    }

    /// Human-readable description for `homo schemes`.
    pub fn describe(&self) -> (r: &'static str)
        ensures
            r@ == scheme_description(*self),
    {
        match self {
            Scheme::Paillier => "additively homomorphic; encrypts integers mod n",
            Scheme::Bfv => "leveled SHE over polynomial rings; supports + and ×",
            Scheme::Bgn => "one multiplication, unlimited additions",
            Scheme::Ckks => "approximate arithmetic on real/complex vectors (the ML scheme)",
        }
    }

    /// Parse a scheme name, ignoring ASCII case.
    pub fn parse(s: &str) -> (r: Result<Scheme, String>)
        ensures
            r matches Ok(x) ==> parse_scheme(s@) == Ok::<Scheme, Seq<char>>(x),
            r matches Err(e) ==> parse_scheme(s@) == Err::<Scheme, Seq<char>>(e@),
    {
        let chars = text::chars_of(s);
        let mut lower: Vec<char> = Vec::new();
        let mut i: usize = 0;
        while i < chars.len()
            invariant
                i <= chars.len(),
                chars@ == s@,
                lower@ == ascii_lower_seq(s@).take(i as int),
            decreases chars.len() - i,
        {
            lower.push(lower_char(chars[i]));
            assert(ascii_lower_seq(s@).take(i as int).push(ascii_lower(chars@[i as int]))
                =~= ascii_lower_seq(s@).take(i + 1));
            i = i + 1;
        }
        assert(lower@ =~= ascii_lower_seq(s@));
        let mut k: usize = 0;
        let all = Scheme::all();
        while k < all.len()
            invariant
                k <= all.len() == 4,
                all@ == seq![Scheme::Paillier, Scheme::Bfv, Scheme::Bgn, Scheme::Ckks],
                lower@ == ascii_lower_seq(s@),
                forall|j: int| 0 <= j < k ==> lower@ != scheme_name(#[trigger] all@[j]),
            decreases all.len() - k,
        {
            let name = text::chars_of(all[k].short());
            if text::seq_eq(lower.as_slice(), name.as_slice()) {
                return Ok(all[k]);
            }
            k = k + 1;
        }
        assert(lower@ != scheme_name(all@[0]));
        assert(lower@ != scheme_name(all@[1]));
        assert(lower@ != scheme_name(all@[2]));
        assert(lower@ != scheme_name(all@[3]));
        let mut msg: Vec<char> = Vec::new();
        text::push_str(&mut msg, "unknown scheme: ");
        text::push_all(&mut msg, lower.as_slice());
        Err(text::string_of(msg.as_slice()))
    }
}

impl core::str::FromStr for Scheme {
    type Err = String;

    fn from_str(s: &str) -> (r: Result<Self, Self::Err>)
        ensures
            r matches Ok(x) ==> parse_scheme(s@) == Ok::<Scheme, Seq<char>>(x),
            r matches Err(e) ==> parse_scheme(s@) == Err::<Scheme, Seq<char>>(e@),
    {
        Scheme::parse(s)
    }
}

/// Parsing a scheme's short name gives the scheme back.
pub proof fn lemma_parse_short(s: Scheme)
    ensures
        parse_scheme(scheme_name(s)) == Ok::<Scheme, Seq<char>>(s),
{
    reveal_strlit("paillier");
    reveal_strlit("bfv");
    reveal_strlit("bgn");
    reveal_strlit("ckks");
    let n = scheme_name(s);
    assert(ascii_lower_seq(n) =~= n);
    assert(scheme_name(Scheme::Paillier).len() == 8);
    assert(scheme_name(Scheme::Bfv).len() == 3);
    assert(scheme_name(Scheme::Bgn).len() == 3);
    assert(scheme_name(Scheme::Ckks).len() == 4);
    assert(scheme_name(Scheme::Bfv)[1] != scheme_name(Scheme::Bgn)[1]);
    assert(scheme_name(Scheme::Bfv)[1] != scheme_name(Scheme::Ckks)[1]);
    assert(scheme_name(Scheme::Bgn) != scheme_name(Scheme::Ckks));
}

} // verus!
