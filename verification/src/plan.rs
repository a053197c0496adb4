//! The decisions of the store, as functions of the committed size alone. The
//! one who holds the file carries them out.

use vstd::prelude::*;
use crate::error::StoreError;
use crate::layout::{
    in_page, lemma_offset_split, lemma_page_of_bound, lemma_page_start_step, page_of, page_span,
    valid_page_size, HEADER_SIZE,
};
use crate::model::{append_outcome, crosses, file_end, lemma_crosses, placed_at, reachable};

verus! {

/// Largest number of zero bytes written in one step of padding.
pub const PAD_CHUNK: u64 = 1024;

/// Number of zero bytes to write next when a file of `pos` bytes is padded to
/// `target` bytes: what is missing, but at most `PAD_CHUNK`.
pub fn pad_chunk(pos: u64, target: u64) -> (n: u64)
    ensures
        pos >= target ==> n == 0,
        pos < target ==> n == if target - pos < PAD_CHUNK {
            target - pos
        } else {
            PAD_CHUNK as int
        },
{
    if pos < target {
        let missing: u64 = target - pos;
        if missing < PAD_CHUNK {
            missing
        } else {
            PAD_CHUNK
        }
    } else {
        0
    }
}

/// Length of the file of a store whose committed size is `size`, or `Io` where
/// no `u64` holds it.
pub fn plan_open(size: u64, page_size: usize) -> (r: Result<u64, StoreError>)
    requires
        valid_page_size(page_size as nat),
    ensures
        match r {
            Ok(len) => len == file_end(size as nat, page_size as nat),
            Err(e) => e == StoreError::Io && file_end(size as nat, page_size as nat) > u64::MAX,
        },
{
    proof {
        lemma_page_of_bound(size as nat, page_size as nat);
    }
    let tail: u64 = size / (page_size as u64);
    match page_span(tail, page_size) {
        None => Err(StoreError::Io),
        Some((_, end)) => Ok(end),
    }
}

/// Where an append goes.
pub struct AppendPlan {
    /// Whether the tail page is sealed first.
    pub seal: bool,
    /// Logical offset of the record.
    pub offset: u64,
    /// Position of the record in the page that takes it.
    pub in_page: usize,
    /// Committed size once the record is written.
    pub new_size: u64,
}

/// Decides where a blob of `len` bytes goes in a store whose committed size is
/// `size`.
pub fn plan_append(size: u64, len: usize, page_size: usize) -> (r: Result<AppendPlan, StoreError>)
    requires
        valid_page_size(page_size as nat),
    ensures
        match r {
            Ok(plan) => {
                &&& append_outcome(size as nat, len as nat, page_size as nat, u64::MAX as nat) == Ok::<
                    nat,
                    StoreError,
                >(plan.offset as nat)
                &&& plan.seal == crosses(size as nat, len as nat, page_size as nat)
                &&& plan.in_page == in_page(plan.offset as nat, page_size as nat)
                &&& plan.new_size == plan.offset + len + 4
            },
            Err(e) => append_outcome(size as nat, len as nat, page_size as nat, u64::MAX as nat)
                == Err::<nat, StoreError>(e),
        },
{
    if len >= page_size - 4 {
        return Err(StoreError::BlobTooLarge);
    }
    let p: u64 = page_size as u64;
    let need: u64 = len as u64 + 4;
    let tail: u64 = size / p;
    let rest: u64 = size % p;
    let seal: bool = rest + need >= p;
    proof {
        lemma_crosses(size as nat, len as nat, page_size as nat);
        lemma_page_of_bound(size as nat, page_size as nat);
        lemma_offset_split(size as nat, page_size as nat);
        lemma_offset_split(placed_at(size as nat, len as nat, page_size as nat), page_size as nat);
        lemma_page_start_step(
            page_of(placed_at(size as nat, len as nat, page_size as nat), page_size as nat),
            page_size as nat,
        );
    }
    let page: u64 = if seal {
        tail + 1
    } else {
        tail
    };
    let start: u64 = match page_span(page, page_size) {
        None => {
            return Err(StoreError::Io);
        },
        Some((start, _)) => start - HEADER_SIZE,
    };
    let offset: u64 = if seal {
        start
    } else {
        size
    };
    let at: usize = if seal {
        0
    } else {
        rest as usize
    };
    Ok(AppendPlan { seal, offset, in_page: at, new_size: offset + need })
}

/// Tells whether page `page` is sealed in a store whose committed size is
/// `size`: it lies before the tail page. Only sealed pages enter the table.
pub fn is_sealed(size: u64, page: u64, page_size: usize) -> (sealed: bool)
    requires
        page_size > 0,
    ensures
        sealed == (page < page_of(size as nat, page_size as nat)),
{
    page < size / (page_size as u64)
}

/// Finds the page and the position in it of logical offset `offset`, in a store
/// whose committed size is `size`.
pub fn locate(size: u64, offset: u64, page_size: usize) -> (r: Result<(u64, usize), StoreError>)
    requires
        valid_page_size(page_size as nat),
    ensures
        match r {
            Ok((page, at)) => {
                &&& reachable(size as nat, offset as nat, page_size as nat)
                &&& page == page_of(offset as nat, page_size as nat)
                &&& at == in_page(offset as nat, page_size as nat)
            },
            Err(e) => e == StoreError::PageNotFound && !reachable(
                size as nat,
                offset as nat,
                page_size as nat,
            ),
        },
{
    let p: u64 = page_size as u64;
    let page: u64 = offset / p;
    let at: u64 = offset % p;
    let tail: u64 = size / p;
    let fill: u64 = size % p;
    if page < tail || (page == tail && at + 4 <= fill) {
        Ok((page, at as usize))
    } else {
        Err(StoreError::PageNotFound)
    }
}

} // verus!
