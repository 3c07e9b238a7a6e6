//! Identity types. Entity identity is a ULID (a 128-bit value whose text
//! form is Crockford base-32); content identity is a hash, elsewhere.
use vstd::prelude::*;
use vstd::arithmetic::power2::{lemma2_to64, lemma_pow2_adds, lemma_pow2_pos, lemma_pow2_strictly_increases, pow2};
use vstd::arithmetic::div_mod::{lemma_basic_div, lemma_div_denominator, lemma_fundamental_div_mod, lemma_mod_bound, lemma_small_mod};

verus! {

/// The digit of value `d` (below 32) in Crockford's base 32, as `ulid`
/// writes it: `0`-`9`, then the upper-case letters without I, L, O and U.
pub open spec fn crockford_digit(d: int) -> char {
    if d < 10 {
        (('0' as u32) + d) as char
    } else if d < 18 {
        (('A' as u32) + (d - 10)) as char
    } else if d == 18 {
        'J'
    } else if d == 19 {
        'K'
    } else if d < 22 {
        (('M' as u32) + (d - 20)) as char
    } else if d < 27 {
        (('P' as u32) + (d - 22)) as char
    } else {
        (('V' as u32) + (d - 27)) as char
    }
}

/// A character with an ASCII lower-case letter made upper-case.
pub open spec fn ascii_upper(c: char) -> char {
    if 'a' <= c && c <= 'z' {
        ((c as u32) - 32) as char
    } else {
        c
    }
}

/// The value of a base-32 digit as `ulid` reads it (either case), if it is one.
pub open spec fn crockford_value(c: char) -> Option<int> {
    let u = ascii_upper(c);
    if '0' <= u && u <= '9' {
        Some(u as int - '0' as int)
    } else if 'A' <= u && u <= 'H' {
        Some(u as int - 'A' as int + 10)
    } else if u == 'J' {
        Some(18)
    } else if u == 'K' {
        Some(19)
    } else if u == 'M' || u == 'N' {
        Some(u as int - 'M' as int + 20)
    } else if 'P' <= u && u <= 'T' {
        Some(u as int - 'P' as int + 22)
    } else if 'V' <= u && u <= 'Z' {
        Some(u as int - 'V' as int + 27)
    } else {
        None
    }
}

/// The text that `ulid` gives a 128-bit value: 26 base-32 digits, most
/// significant first.
#[verifier::opaque]
pub open spec fn ulid_text(value: u128) -> Seq<char> {
    Seq::new(26, |i: int| crockford_digit((value as int / pow2((5 * (25 - i)) as nat) as int) % 32))
}

/// The number that a sequence of base-32 digits spells, most significant first.
pub open spec fn base32_value(t: Seq<char>) -> int
    decreases t.len(),
{
    if t.len() == 0 {
        0
    } else {
        base32_value(t.drop_last()) * 32 + match crockford_value(t.last()) {
            Some(d) => d,
            None => 0,
        }
    }
}

/// The value that `ulid` decodes from a text: 26 base-32 digits, read
/// modulo 2^128; none for any other text.
#[verifier::opaque]
pub open spec fn ulid_decode(text: Seq<char>) -> Option<u128> {
    if text.len() == 26 && forall|i: int| 0 <= i < 26 ==> (#[trigger] crockford_value(text[i])) is Some {
        Some((base32_value(text) % (pow2(128) as int)) as u128)
    } else {
        None
    }
}

proof fn lemma_digit_value(d: int)
    requires
        0 <= d < 32,
    ensures
        crockford_value(crockford_digit(d)) == Some(d),
{
}

proof fn lemma_pow2_128()
    ensures
        pow2(128) == 0x1_0000_0000_0000_0000_0000_0000_0000_0000int,
        pow2(130) > pow2(128),
{
    lemma2_to64();
    lemma_pow2_adds(64, 64);
    lemma_pow2_strictly_increases(128, 130);
}

/// The text of a 128-bit value has 26 characters.
pub proof fn lemma_ulid_text_len(value: u128)
    ensures
        ulid_text(value).len() == 26,
{
    reveal(ulid_text);
}

proof fn lemma_prefix_value(value: u128, k: int)
    requires
        0 <= k <= 26,
    ensures
        base32_value(ulid_text(value).take(k)) == value as int / pow2((5 * (26 - k)) as nat) as int,
    decreases k,
{
    reveal(ulid_text);
    let t = ulid_text(value);
    if k == 0 {
        assert(t.take(0) =~= Seq::<char>::empty());
        lemma_pow2_128();
        assert(value as int <= 0xffff_ffff_ffff_ffff_ffff_ffff_ffff_ffff);
        lemma_basic_div(value as int, pow2(130) as int);
    } else {
        lemma_prefix_value(value, k - 1);
        let a = pow2((5 * (26 - k)) as nat) as int;
        assert(t.take(k).drop_last() =~= t.take(k - 1));
        assert(t.take(k).last() == t[k - 1]);
        let q = value as int / a;
        assert(t[k - 1] == crockford_digit((value as int / pow2((5 * (25 - (k - 1))) as nat) as int) % 32));
        assert(t[k - 1] == crockford_digit(q % 32));
        lemma_pow2_pos((5 * (26 - k)) as nat);
        lemma_mod_bound(q, 32);
        lemma_digit_value(q % 32);
        lemma_pow2_adds((5 * (26 - k)) as nat, 5);
        lemma2_to64();
        assert(pow2((5 * (26 - (k - 1))) as nat) == a * 32);
        lemma_div_denominator(value as int, a, 32);
        lemma_fundamental_div_mod(q, 32);
    }
}

/// Reading back the text of a value gives the value.
pub proof fn lemma_ulid_round_trip(value: u128)
    ensures
        ulid_decode(ulid_text(value)) == Some(value),
{
    reveal(ulid_decode);
    let t = ulid_text(value);
    lemma_ulid_text_len(value);
    lemma_prefix_value(value, 26);
    assert(t.take(26) =~= t);
    lemma2_to64();
    assert(pow2(0) == 1);
    assert forall|i: int| 0 <= i < 26 implies (#[trigger] crockford_value(t[i])) is Some by {
        reveal(ulid_text);
        let d = (value as int / pow2((5 * (25 - i)) as nat) as int) % 32;
        lemma_pow2_pos((5 * (25 - i)) as nat);
        lemma_mod_bound(value as int / pow2((5 * (25 - i)) as nat) as int, 32);
        lemma_digit_value(d);
    }
    lemma_pow2_128();
    assert(base32_value(t) == value as int / 1);
    assert(base32_value(t) == value as int);
    lemma_small_mod(value as nat, pow2(128));
    assert(base32_value(t) % (pow2(128) as int) == value as int);
}

/// Calls `ulid::Ulid::new`, which mixes the current time with randomness.
/// Nothing is claimed of the value.
#[verifier::external_body]
fn fresh_ulid() -> u128 {
    ulid::Ulid::new().0
}

/// Calls `ulid::Ulid::to_string`, which writes the 26 base-32 digits of
/// the value.
#[verifier::external_body]
pub(crate) fn ulid_string(value: u128) -> (s: String)
    ensures
        s@ == ulid_text(value),
{
    ulid::Ulid(value).to_string()
}

/// Calls `ulid::Ulid::from_string`, which reads 26 base-32 digits (either
/// case) and refuses any other text.
#[verifier::external_body]
pub(crate) fn ulid_parse(text: &str) -> (r: Option<u128>)
    ensures
        r == ulid_decode(text@),
{
    match ulid::Ulid::from_string(text) {
        Ok(u) => Some(u.0),
        Err(_) => None,
    }
}

/// Reads the system clock: microseconds since the Unix epoch, or zero when
/// the clock is before the epoch. Nothing is claimed of the value.
#[verifier::external_body]
fn clock_micros() -> i64 {
    let dur = std::time::SystemTime::now().duration_since(std::time::UNIX_EPOCH).unwrap_or_default();
    dur.as_micros() as i64
}

/// Stable identifier for entities (nodes, edges, modulations).
#[derive(Debug, Clone, Copy, PartialEq, Eq, Structural, PartialOrd, Ord, Hash)]
pub struct StableId(pub u128);

impl View for StableId {
    type V = u128;

    open spec fn view(&self) -> u128 {
        self.0
    }
}

impl crate::keyed::Model for StableId {
    fn duplicate(&self) -> (r: Self) {
        *self
    }

    fn same(&self, other: &Self) -> (r: bool) {
        self.0 == other.0
    }
}

impl StableId {
    /// A fresh identifier.
    pub fn new() -> (r: Self) {
        StableId(fresh_ulid())
    }

    /// The ULID text of this identifier.
    pub fn to_text(&self) -> (s: String)
        ensures
            s@ == ulid_text(self.0),
            s@.len() == 26,
    {
        proof {
            lemma_ulid_text_len(self.0);
        }
        ulid_string(self.0)
    }

    /// Parses ULID text.
    pub fn parse(text: &str) -> (r: Option<StableId>)
        ensures
            match ulid_decode(text@) {
                Some(v) => r == Some(StableId(v)),
                None => r is None,
            },
    {
        match ulid_parse(text) {
            Some(v) => Some(StableId(v)),
            None => None,
        }
    }
}

/// Patch identifier.
#[derive(Debug, Clone, Copy, PartialEq, Eq, Structural, PartialOrd, Ord, Hash)]
pub struct PatchId(pub u128);

impl PatchId {
    /// A fresh identifier.
    pub fn new() -> (r: Self) {
        PatchId(fresh_ulid())
    }

    /// The ULID text of this identifier.
    pub fn to_text(&self) -> (s: String)
        ensures
            s@ == ulid_text(self.0),
            s@.len() == 26,
    {
        proof {
            lemma_ulid_text_len(self.0);
        }
        ulid_string(self.0)
    }

    /// Parses ULID text.
    pub fn parse(text: &str) -> (r: Option<PatchId>)
        ensures
            match ulid_decode(text@) {
                Some(v) => r == Some(PatchId(v)),
                None => r is None,
            },
    {
        match ulid_parse(text) {
            Some(v) => Some(PatchId(v)),
            None => None,
        }
    }
}

/// Intent identifier.
#[derive(Debug, Clone, Copy, PartialEq, Eq, Structural, PartialOrd, Ord, Hash)]
pub struct IntentId(pub u128);

impl IntentId {
    /// A fresh identifier.
    pub fn new() -> (r: Self) {
        IntentId(fresh_ulid())
    }

    /// The ULID text of this identifier.
    pub fn to_text(&self) -> (s: String)
        ensures
            s@ == ulid_text(self.0),
            s@.len() == 26,
    {
        proof {
            lemma_ulid_text_len(self.0);
        }
        ulid_string(self.0)
    }

    /// Parses ULID text.
    pub fn parse(text: &str) -> (r: Option<IntentId>)
        ensures
            match ulid_decode(text@) {
                Some(v) => r == Some(IntentId(v)),
                None => r is None,
            },
    {
        match ulid_parse(text) {
            Some(v) => Some(IntentId(v)),
            None => None,
        }
    }
}

/// Monotonic revision counter of a graph.
#[derive(Debug, Clone, Copy, PartialEq, Eq, Structural, PartialOrd, Ord, Hash)]
pub struct Revision(pub u64);

impl Revision {
    pub fn zero() -> (r: Self)
        ensures
            r.0 == 0,
    {
        Revision(0)
    }

    pub fn next(&self) -> (r: Self)
        requires
            self.0 < u64::MAX,
        ensures
            r.0 == self.0 + 1,
    {
        Revision(self.0 + 1)
    }
}

/// Timestamp in microseconds since the Unix epoch.
#[derive(Debug, Clone, Copy, PartialEq, Eq, Structural, PartialOrd, Ord, Hash)]
pub struct Timestamp(pub i64);

impl Timestamp {
    /// The current time.
    pub fn now() -> (r: Self) {
        Timestamp(clock_micros())
    }
}

} // verus!
