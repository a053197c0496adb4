//! Arithmetic of the file layout: a header of `HEADER_SIZE` bytes, then pages of
//! equal size. Logical offsets count from the start of the first page.

use vstd::prelude::*;
use vstd::arithmetic::div_mod::{lemma_fundamental_div_mod, lemma_fundamental_div_mod_converse};
use vstd::arithmetic::mul::{
    lemma_mul_inequality, lemma_mul_is_commutative, lemma_mul_is_distributive_add,
    lemma_mul_is_distributive_add_other_way,
};

verus! {

/// Number of bytes of the file that precede the first page.
pub const HEADER_SIZE: u64 = 1024;

/// Page sizes are multiples of this.
pub const ALIGN: u64 = 8;

/// A usable page size: positive, a multiple of `ALIGN`, and small enough that
/// the length of every blob that fits a page fits the four-byte prefix.
pub open spec fn valid_page_size(page_size: nat) -> bool {
    &&& page_size > 0
    &&& page_size % (ALIGN as nat) == 0
    &&& page_size <= 0x1_0000_0000
}

/// Tells whether `page_size` is a usable page size.
pub fn is_valid_page_size(page_size: usize) -> (ok: bool)
    ensures
        ok == valid_page_size(page_size as nat),
{
    page_size > 0 && page_size as u64 % ALIGN == 0 && page_size as u64 <= 0x1_0000_0000
}

/// Index of the page that holds logical offset `offset`.
pub open spec fn page_of(offset: nat, page_size: nat) -> nat {
    offset / page_size
}

/// Position of logical offset `offset` within its page.
pub open spec fn in_page(offset: nat, page_size: nat) -> nat {
    offset % page_size
}

/// Logical offset of the first byte of page `page`.
pub open spec fn page_offset(page: nat, page_size: nat) -> nat {
    page * page_size
}

/// Position in the file of the first byte of page `page`.
pub open spec fn page_start(page: nat, page_size: nat) -> nat {
    HEADER_SIZE as nat + page * page_size
}

/// Position in the file of logical offset `offset`.
pub open spec fn file_pos(offset: nat) -> nat {
    HEADER_SIZE as nat + offset
}

/// Least number of pages of `page_size` bytes that cover `size` bytes.
pub open spec fn page_count(size: nat, page_size: nat) -> nat {
    if size % page_size == 0 {
        size / page_size
    } else {
        size / page_size + 1
    }
}

/// Least multiple of `size` that is not below `x`.
pub open spec fn rounded_up(x: nat, size: nat) -> nat {
    if x % size == 0 {
        x
    } else {
        (x / size + 1) * size
    }
}

/// An offset splits into whole pages and a rest below the page size.
pub proof fn lemma_offset_split(offset: nat, page_size: nat)
    requires
        page_size > 0,
    ensures
        offset == page_of(offset, page_size) * page_size + in_page(offset, page_size),
        in_page(offset, page_size) < page_size,
        page_start(page_of(offset, page_size), page_size) + in_page(offset, page_size) == file_pos(
            offset,
        ),
{
    lemma_fundamental_div_mod(offset as int, page_size as int);
    lemma_mul_is_commutative(page_size as int, offset as int / page_size as int);
}

/// Whole pages plus a rest below the page size lie in that page at that rest.
pub proof fn lemma_offset_join(page: nat, rest: nat, page_size: nat)
    requires
        rest < page_size,
    ensures
        page_of(page * page_size + rest, page_size) == page,
        in_page(page * page_size + rest, page_size) == rest,
{
    lemma_fundamental_div_mod_converse(
        (page * page_size + rest) as int,
        page_size as int,
        page as int,
        rest as int,
    );
}

/// Each page starts one page size after the one before it.
pub proof fn lemma_page_start_step(page: nat, page_size: nat)
    ensures
        page_start(page + 1, page_size) == page_start(page, page_size) + page_size,
        page_offset(page + 1, page_size) == page_offset(page, page_size) + page_size,
{
    lemma_mul_is_distributive_add_other_way(page_size as int, page as int, 1);
}

/// Later pages start later.
pub proof fn lemma_page_start_ordered(a: nat, b: nat, page_size: nat)
    requires
        a <= b,
    ensures
        page_start(a, page_size) <= page_start(b, page_size),
        page_offset(a, page_size) <= page_offset(b, page_size),
{
    lemma_mul_inequality(a as int, b as int, page_size as int);
}

/// With pages of at least `ALIGN` bytes, page indices stay far below offsets.
pub proof fn lemma_page_of_bound(offset: nat, page_size: nat)
    requires
        page_size >= ALIGN,
    ensures
        page_of(offset, page_size) * ALIGN <= offset,
{
    lemma_offset_split(offset, page_size);
    assert(page_of(offset, page_size) * 8 <= page_of(offset, page_size) * page_size)
        by (nonlinear_arith)
        requires
            page_size >= 8,
    ;
}

/// `rounded_up` is what its name says: the least multiple not below `x`.
pub proof fn lemma_rounded_up(x: nat, size: nat)
    requires
        size > 0,
    ensures
        rounded_up(x, size) % size == 0,
        x <= rounded_up(x, size) < x + size,
        rounded_up(x, size) == page_count(x, size) * size,
{
    lemma_fundamental_div_mod(x as int, size as int);
    lemma_mul_is_commutative(size as int, x as int / size as int);
    let q = x / size;
    if x % size != 0 {
        lemma_mul_is_distributive_add(size as int, q as int, 1);
        lemma_mul_is_commutative(size as int, (q + 1) as int);
        lemma_mul_is_commutative(size as int, q as int);
        lemma_offset_join(q + 1, 0, size);
    }
}

/// `page_count` pages cover `size` bytes, and one page fewer does not.
pub proof fn lemma_page_count(size: nat, page_size: nat)
    requires
        page_size > 0,
    ensures
        size <= page_count(size, page_size) * page_size < size + page_size,
{
    lemma_rounded_up(size, page_size);
}

/// Positions in the file of the first byte of page `page` and of the first
/// byte behind it, or nothing where no `u64` holds them.
pub fn page_span(page: u64, page_size: usize) -> (span: Option<(u64, u64)>)
    ensures
        match span {
            Some((start, end)) => start == page_start(page as nat, page_size as nat) && end
                == page_start(page as nat + 1, page_size as nat),
            None => page_start(page as nat + 1, page_size as nat) > u64::MAX,
        },
{
    proof {
        lemma_page_start_step(page as nat, page_size as nat);
    }
    let offset: u64 = match page.checked_mul(page_size as u64) {
        None => {
            return None;
        },
        Some(offset) => offset,
    };
    let start: u64 = match offset.checked_add(HEADER_SIZE) {
        None => {
            return None;
        },
        Some(start) => start,
    };
    match start.checked_add(page_size as u64) {
        None => None,
        Some(end) => Some((start, end)),
    }
}

/// Rounds `offset` up to a multiple of `ALIGN`.
pub fn align(offset: u64) -> (res: u64)
    requires
        offset <= u64::MAX - 7,
    ensures
        res % ALIGN == 0,
        offset <= res < offset + ALIGN,
        res == rounded_up(offset as nat, ALIGN as nat),
{
    let mut res: u64 = offset;
    while res % ALIGN != 0
        invariant
            offset <= u64::MAX - 7,
            offset <= res,
            res <= rounded_up(offset as nat, ALIGN as nat),
            rounded_up(offset as nat, ALIGN as nat) % (ALIGN as nat) == 0,
            rounded_up(offset as nat, ALIGN as nat) < offset + ALIGN,
        decreases rounded_up(offset as nat, ALIGN as nat) - res,
    {
        res += 1;
    }
    res
}

/// Rounds `x` up to a multiple of `size`.
pub fn round_up_to(x: u64, size: u64) -> (res: u64)
    requires
        size > 0,
        rounded_up(x as nat, size as nat) <= u64::MAX,
    ensures
        res == rounded_up(x as nat, size as nat),
        res % size == 0,
        x <= res < x + size,
{
    proof {
        lemma_rounded_up(x as nat, size as nat);
    }
    let q: u64 = x / size;
    let r: u64 = x % size;
    if r == 0 {
        x
    } else {
        (q + 1) * size
    }
}

/// Number of pages of `page_size` bytes needed to hold `size` bytes.
pub fn pages(size: u64, page_size: u64) -> (res: u64)
    requires
        page_size > 0,
    ensures
        res == page_count(size as nat, page_size as nat),
        size <= res * page_size < size + page_size,
{
    proof {
        lemma_page_count(size as nat, page_size as nat);
        lemma_fundamental_div_mod(size as int, page_size as int);
    }
    let q: u64 = size / page_size;
    let r: u64 = size % page_size;
    if r == 0 {
        q
    } else {
        assert(q < u64::MAX) by (nonlinear_arith)
            requires
                size == page_size * q + r,
                0 < r < page_size,
                size <= u64::MAX,
        ;
        q + 1
    }
}

} // verus!
