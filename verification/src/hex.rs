//! Hexadecimal text of digests.
use vstd::prelude::*;
use crate::text::{hex_byte, hex_digit, hex_seq, string_from_chars};

verus! {

/// Lower-case hexadecimal notation of bytes.
pub fn encode(bytes: &[u8]) -> (s: String)
    ensures
        s@ == hex_seq(bytes@),
{
    let mut out: Vec<char> = Vec::new();
    let mut i: usize = 0;
    while i < bytes.len()
        invariant
            i <= bytes@.len(),
            out@ == hex_seq(bytes@.take(i as int)),
        decreases bytes@.len() - i,
    {
        let b = bytes[i];
        out.push(hex_digit(b / 16));
        out.push(hex_digit(b % 16));
        proof {
            assert(bytes@.take(i + 1).drop_last() =~= bytes@.take(i as int));
            assert(out@ =~= hex_seq(bytes@.take(i as int)) + hex_byte(b));
        }
        i += 1;
    }
    assert(bytes@.take(bytes@.len() as int) =~= bytes@);
    string_from_chars(&out)
}

/// Hexadecimal notation of the first eight bytes (a short digest label).
pub fn hex_short(bytes: &[u8]) -> (s: String)
    requires
        bytes@.len() >= 8,
    ensures
        s@ == hex_seq(bytes@.take(8)),
{
    let mut first: Vec<u8> = Vec::new();
    let mut i: usize = 0;
    while i < 8
        invariant
            i <= 8,
            bytes@.len() >= 8,
            first@ =~= bytes@.take(i as int),
        decreases 8 - i,
    {
        first.push(bytes[i]);
        i += 1;
        assert(first@ =~= bytes@.take(i as int));
    }
    encode(first.as_slice())
}

} // verus!
