//! Big-endian integers and length-prefixed records inside a byte buffer.
//!
//! A record is a four-byte big-endian length followed by that many payload
//! bytes.

use vstd::prelude::*;
use vstd::slice::slice_subrange;

verus! {

/// The number that four bytes spell, most significant byte first.
#[verifier::opaque]
pub open spec fn be_u32(b: Seq<u8>) -> nat
    recommends
        b.len() == 4,
{
    (b[0] as nat) * 0x100_0000 + (b[1] as nat) * 0x1_0000 + (b[2] as nat) * 0x100 + (b[3] as nat)
}

/// The four bytes that spell `v`, most significant byte first.
#[verifier::opaque]
pub open spec fn u32_be(v: u32) -> Seq<u8> {
    seq![
        (v / 0x100_0000) as u8,
        ((v / 0x1_0000) % 0x100) as u8,
        ((v / 0x100) % 0x100) as u8,
        (v % 0x100) as u8,
    ]
}

/// The number that eight bytes spell, most significant byte first.
#[verifier::opaque]
pub open spec fn be_u64(b: Seq<u8>) -> nat
    recommends
        b.len() == 8,
{
    be_u32(b.subrange(0, 4)) * 0x1_0000_0000 + be_u32(b.subrange(4, 8))
}

/// The eight bytes that spell `v`, most significant byte first.
#[verifier::opaque]
pub open spec fn u64_be(v: u64) -> Seq<u8> {
    u32_be((v / 0x1_0000_0000) as u32) + u32_be((v % 0x1_0000_0000) as u32)
}

/// `s` with the bytes from `at` on replaced by `patch`.
#[verifier::opaque]
pub open spec fn splice(s: Seq<u8>, at: int, patch: Seq<u8>) -> Seq<u8> {
    Seq::new(
        s.len(),
        |i: int|
            if at <= i < at + patch.len() {
                patch[i - at]
            } else {
                s[i]
            },
    )
}

/// The bytes of the record that carries `data`.
pub open spec fn record(data: Seq<u8>) -> Seq<u8> {
    u32_be(data.len() as u32) + data
}

/// The length that the prefix at `at` announces.
pub open spec fn length_at(buf: Seq<u8>, at: int) -> nat {
    be_u32(buf.subrange(at, at + 4))
}

/// The payload that follows the prefix at `at`.
pub open spec fn payload_at(buf: Seq<u8>, at: int) -> Seq<u8> {
    buf.subrange(at + 4, at + 4 + length_at(buf, at))
}

/// Whether a whole record, prefix and payload, starts at `at` and ends inside `buf`.
pub open spec fn holds_record(buf: Seq<u8>, at: int) -> bool {
    &&& 0 <= at
    &&& at + 4 <= buf.len()
    &&& at + 4 + length_at(buf, at) <= buf.len()
}

/// Reading back what was spelt gives the number.
pub proof fn lemma_u32_round_trip(v: u32)
    ensures
        u32_be(v).len() == 4,
        be_u32(u32_be(v)) == v,
{
    reveal(be_u32);
    reveal(u32_be);
}

/// Reading back what was spelt gives the number.
pub proof fn lemma_u64_round_trip(v: u64)
    ensures
        u64_be(v).len() == 8,
        be_u64(u64_be(v)) == v,
{
    reveal(be_u64);
    reveal(u64_be);
    let hi = (v / 0x1_0000_0000) as u32;
    let lo = (v % 0x1_0000_0000) as u32;
    lemma_u32_round_trip(hi);
    lemma_u32_round_trip(lo);
    assert(u64_be(v).subrange(0, 4) =~= u32_be(hi));
    assert(u64_be(v).subrange(4, 8) =~= u32_be(lo));
}

/// Reads the big-endian `u32` that starts at `at`.
pub fn read_u32_be(buf: &[u8], at: usize) -> (v: u32)
    requires
        at + 4 <= buf@.len(),
    ensures
        v == length_at(buf@, at as int),
{
    proof {
        reveal(be_u32);
    }
    let b0: u32 = buf[at] as u32;
    let b1: u32 = buf[at + 1] as u32;
    let b2: u32 = buf[at + 2] as u32;
    let b3: u32 = buf[at + 3] as u32;
    b0 * 0x100_0000 + b1 * 0x1_0000 + b2 * 0x100 + b3
}

/// Writes `v` as a big-endian `u32` that starts at `at`.
pub fn write_u32_be(buf: &mut [u8], at: usize, v: u32)
    requires
        at + 4 <= old(buf)@.len(),
    ensures
        final(buf)@ == splice(old(buf)@, at as int, u32_be(v)),
        final(buf)@.len() == old(buf)@.len(),
{
    proof {
        reveal(u32_be);
    }
    buf[at] = (v / 0x100_0000) as u8;
    buf[at + 1] = ((v / 0x1_0000) % 0x100) as u8;
    buf[at + 2] = ((v / 0x100) % 0x100) as u8;
    buf[at + 3] = (v % 0x100) as u8;
    proof {
        reveal(splice);
        assert(buf@ =~= splice(old(buf)@, at as int, u32_be(v)));
    }
}

/// Writes the record that carries `data` so that its prefix starts at `offset`.
pub fn write_length_prefixed(target: &mut [u8], offset: usize, data: &[u8])
    requires
        offset + 4 + data@.len() <= old(target)@.len(),
        data@.len() <= u32::MAX,
    ensures
        final(target)@ == splice(old(target)@, offset as int, record(data@)),
        final(target)@.len() == old(target)@.len(),
{
    let n: usize = data.len();
    let total: usize = target.len();
    write_u32_be(target, offset, n as u32);
    proof {
        reveal(splice);
    }
    let ghost prefixed = target@;
    let mut i: usize = 0;
    while i < n
        invariant
            n == data@.len(),
            i <= n,
            n <= u32::MAX,
            offset + 4 + n <= total,
            target@.len() == total,
            old(target)@.len() == total,
            prefixed == splice(old(target)@, offset as int, u32_be(n as u32)),
            forall|j: int|
                0 <= j < total && !(offset + 4 <= j < offset + 4 + i) ==> target@[j] == prefixed[j],
            forall|j: int|
                offset + 4 <= j < offset + 4 + i ==> target@[j] == data@[j - offset - 4],
        decreases n - i,
    {
        target[offset + 4 + i] = data[i];
        i += 1;
    }
    proof {
        let rec = record(data@);
        let want = splice(old(target)@, offset as int, rec);
        lemma_u32_round_trip(n as u32);
        assert forall|j: int| 0 <= j < total implies target@[j] == want[j] by {
            if offset <= j < offset + 4 {
                assert(prefixed[j] == rec[j - offset]);
            } else if offset + 4 <= j < offset + 4 + n {
                assert(data@[j - offset - 4] == rec[j - offset]);
            } else {
                assert(prefixed[j] == old(target)@[j]);
            }
        }
        assert(target@ =~= want);
    }
}

/// The payload of the record whose prefix starts at `offset`.
pub fn read_length_prefixed(source: &[u8], offset: usize) -> (payload: &[u8])
    requires
        holds_record(source@, offset as int),
    ensures
        payload@ == payload_at(source@, offset as int),
{
    let total: usize = source.len();
    let n: u32 = read_u32_be(source, offset);
    slice_subrange(source, offset + 4, offset + 4 + n as usize)
}

} // verus!
