//! The file as the store sees it: a growable run of bytes.

use vstd::prelude::*;
use crate::plan::pad_chunk;

verus! {

/// `s` cut or filled with zeros to `n` bytes.
#[verifier::opaque]
pub open spec fn resized(s: Seq<u8>, n: nat) -> Seq<u8> {
    Seq::new(
        n,
        |i: int|
            if i < s.len() {
                s[i]
            } else {
                0u8
            },
    )
}

/// Fills the file up with zeros to `len` bytes. A file that is long enough
/// stays as it is.
pub fn pad_to(file: &mut Vec<u8>, len: usize)
    ensures
        final(file)@ == if old(file)@.len() < len {
            resized(old(file)@, len as nat)
        } else {
            old(file)@
        },
        final(file)@.len() == if old(file)@.len() < len {
            len as nat
        } else {
            old(file)@.len()
        },
{
    proof {
        reveal(resized);
    }
    loop
        invariant
            old(file)@.len() <= file@.len(),
            file@.len() <= len || file@ == old(file)@,
            file@ == resized(old(file)@, file@.len()),
        ensures
            file@.len() >= len,
        decreases len - file@.len(),
    {
        let pos: usize = file.len();
        let n: u64 = pad_chunk(pos as u64, len as u64);
        if n == 0 {
            break ;
        }
        let ghost before = file@;
        file.resize(pos + n as usize, 0u8);
        proof {
            reveal(resized);
            let want = resized(old(file)@, file@.len());
            assert forall|i: int| 0 <= i < file@.len() implies file@[i] == want[i] by {
                if i < pos {
                    assert(file@.subrange(0, pos as int)[i] == before[i]);
                } else {
                    assert(cloned::<u8>(0u8, file@[i]));
                }
            }
            assert(file@ =~= want);
        }
    }
    assert(file@ =~= if old(file)@.len() < len {
        resized(old(file)@, len as nat)
    } else {
        old(file)@
    });
}

} // verus!
