//! The header: the first `HEADER_SIZE` bytes of the file. Its first eight bytes
//! spell the committed size as a big-endian integer; the rest is reserved.

use vstd::prelude::*;
use crate::codec::{
    be_u64, lemma_u32_round_trip, lemma_u64_round_trip, read_u32_be, splice, u64_be, write_u32_be,
};
use crate::file::{pad_to, resized};
use crate::layout::HEADER_SIZE;

verus! {

/// The committed size that a header spells.
pub open spec fn size_of_header(header: Seq<u8>) -> nat {
    be_u64(header.subrange(0, 8))
}

/// Makes room for the header: a file shorter than the header is filled up
/// with zeros.
pub fn open(file: &mut Vec<u8>)
    ensures
        final(file)@.len() >= HEADER_SIZE,
        final(file)@ == if old(file)@.len() < HEADER_SIZE {
            resized(old(file)@, HEADER_SIZE as nat)
        } else {
            old(file)@
        },
{
    pad_to(file, HEADER_SIZE as usize);
    proof {
        reveal(resized);
    }
}

/// Reads the committed size from the first eight bytes of a header.
pub fn size(header: &[u8]) -> (s: u64)
    requires
        header@.len() >= 8,
    ensures
        s == size_of_header(header@),
{
    proof {
        reveal(be_u64);
    }
    let hi: u32 = read_u32_be(header, 0);
    let lo: u32 = read_u32_be(header, 4);
    assert(header@.subrange(0, 8).subrange(0, 4) =~= header@.subrange(0, 4));
    assert(header@.subrange(0, 8).subrange(4, 8) =~= header@.subrange(4, 8));
    (hi as u64) * 0x1_0000_0000 + (lo as u64)
}

/// Writes the committed size into the first eight bytes of a header.
pub fn set_size(header: &mut [u8], value: u64)
    requires
        old(header)@.len() >= 8,
    ensures
        final(header)@ == splice(old(header)@, 0, u64_be(value)),
        final(header)@.len() == old(header)@.len(),
        size_of_header(final(header)@) == value,
{
    proof {
        reveal(u64_be);
    }
    let hi: u32 = (value / 0x1_0000_0000) as u32;
    let lo: u32 = (value % 0x1_0000_0000) as u32;
    write_u32_be(header, 0, hi);
    write_u32_be(header, 4, lo);
    proof {
        reveal(splice);
        lemma_u32_round_trip(hi);
        lemma_u32_round_trip(lo);
        lemma_u64_round_trip(value);
        assert(header@ =~= splice(old(header)@, 0, u64_be(value)));
        assert(header@.subrange(0, 8) =~= u64_be(value));
    }
}

} // verus!
