//! What the store is, said over the bytes of its file.
//!
//! The file is a header of `HEADER_SIZE` bytes followed by whole pages. The
//! first eight bytes of the header spell the committed size. The page that
//! holds the committed size is the tail page, and the file ends with it.

use vstd::prelude::*;
use vstd::arithmetic::div_mod::lemma_div_is_ordered;
use crate::codec::{lemma_u32_round_trip, lemma_u64_round_trip, record, splice, u32_be, u64_be};
use crate::error::StoreError;
use crate::file::resized;
use crate::header::size_of_header;
use crate::layout::{
    file_pos, in_page, lemma_offset_join, lemma_offset_split, lemma_page_start_ordered,
    lemma_page_start_step, page_of, page_offset, page_start, valid_page_size, HEADER_SIZE,
};
use crate::page::record_in_page;

verus! {

/// The committed size that the file spells.
pub open spec fn committed(image: Seq<u8>) -> nat {
    size_of_header(image)
}

/// Length of a file whose committed size is `size`: it ends with the tail page.
pub open spec fn file_end(size: nat, page_size: nat) -> nat {
    page_start(page_of(size, page_size) + 1, page_size)
}

/// A file as the store leaves it: it ends exactly with its tail page.
pub open spec fn well_formed(image: Seq<u8>, page_size: nat) -> bool {
    &&& valid_page_size(page_size)
    &&& image.len() == file_end(committed(image), page_size)
}

/// The bytes of page `page`.
pub open spec fn page_window(image: Seq<u8>, page: nat, page_size: nat) -> Seq<u8> {
    image.subrange(page_start(page, page_size) as int, page_start(page + 1, page_size) as int)
}

/// Whether a length prefix at `offset` lies in a sealed page or in the
/// committed part of the tail page.
pub open spec fn reachable(size: nat, offset: nat, page_size: nat) -> bool {
    ||| page_of(offset, page_size) < page_of(size, page_size)
    ||| (page_of(offset, page_size) == page_of(size, page_size) && in_page(offset, page_size) + 4
        <= in_page(size, page_size))
}

/// What reading at `offset` gives.
pub open spec fn read(image: Seq<u8>, page_size: nat, offset: nat) -> Result<Seq<u8>, StoreError> {
    if !reachable(committed(image), offset, page_size) {
        Err(StoreError::PageNotFound)
    } else {
        record_in_page(
            page_window(image, page_of(offset, page_size), page_size),
            in_page(offset, page_size),
        )
    }
}

/// Whether a record of `len` payload bytes written at `size` would end in
/// another page than it starts in.
pub open spec fn crosses(size: nat, len: nat, page_size: nat) -> bool {
    page_of(size + len + 4, page_size) != page_of(size, page_size)
}

/// Where a record of `len` payload bytes goes: at `size`, or at the start of
/// the next page if it would not end in the tail page.
pub open spec fn placed_at(size: nat, len: nat, page_size: nat) -> nat {
    if crosses(size, len, page_size) {
        page_offset(page_of(size, page_size) + 1, page_size)
    } else {
        size
    }
}

/// The offset that an append returns, or why it fails. `limit` is the largest
/// file length that can be addressed.
pub open spec fn append_outcome(size: nat, len: nat, page_size: nat, limit: nat) -> Result<
    nat,
    StoreError,
> {
    if len + 4 >= page_size {
        Err(StoreError::BlobTooLarge)
    } else if file_end(placed_at(size, len, page_size), page_size) > limit {
        Err(StoreError::Io)
    } else {
        Ok(placed_at(size, len, page_size))
    }
}

/// The file after its tail page has been sealed: one page of zeros longer,
/// with the committed size at the start of that page.
pub open spec fn sealed(image: Seq<u8>, page_size: nat) -> Seq<u8> {
    splice(
        resized(image, image.len() + page_size),
        0,
        u64_be(page_offset(page_of(committed(image), page_size) + 1, page_size) as u64),
    )
}

/// The file after the record of `data` has been written at the committed size,
/// and the committed size moved to the end of the record.
pub open spec fn written(image: Seq<u8>, data: Seq<u8>) -> Seq<u8> {
    splice(
        splice(image, file_pos(committed(image)) as int, record(data)),
        0,
        u64_be((committed(image) + data.len() + 4) as u64),
    )
}

/// The file after `data` has been appended: the tail page is sealed if the
/// record would not end in it, then the record is written.
pub open spec fn appended(image: Seq<u8>, page_size: nat, data: Seq<u8>) -> Seq<u8> {
    if crosses(committed(image), data.len(), page_size) {
        written(sealed(image, page_size), data)
    } else {
        written(image, data)
    }
}

/// The file after it has been opened: the header filled up with zeros, then
/// cut or filled up with zeros so that it ends with its tail page.
pub open spec fn opened(image: Seq<u8>, page_size: nat) -> Seq<u8> {
    let headed = if image.len() < HEADER_SIZE {
        resized(image, HEADER_SIZE as nat)
    } else {
        image
    };
    resized(headed, file_end(committed(headed), page_size))
}

/// The file that opening gives, or why it fails. `limit` is the largest file
/// length that can be addressed.
pub open spec fn open_outcome(image: Seq<u8>, page_size: nat, limit: nat) -> Result<
    Seq<u8>,
    StoreError,
> {
    if opened(image, page_size).len() > limit {
        Err(StoreError::Io)
    } else {
        Ok(opened(image, page_size))
    }
}

/// Whether the committed part of the file holds the record of `data` at `offset`.
pub open spec fn stores(image: Seq<u8>, page_size: nat, offset: nat, data: Seq<u8>) -> bool {
    &&& in_page(offset, page_size) + 4 + data.len() < page_size
    &&& offset + 4 + data.len() <= committed(image)
    &&& image.subrange(file_pos(offset) as int, file_pos(offset) + 4 + data.len() as int) == record(data)
}

/// The file of a store reaches past its committed size, and the tail page
/// starts at or before it.
pub proof fn lemma_file_end(size: nat, page_size: nat)
    requires
        page_size > 0,
    ensures
        file_pos(size) < file_end(size, page_size),
        page_start(page_of(size, page_size), page_size) <= file_pos(size),
        file_end(size, page_size) == page_start(page_of(size, page_size), page_size) + page_size,
{
    lemma_offset_split(size, page_size);
    lemma_page_start_step(page_of(size, page_size), page_size);
}

/// A record that fits a page crosses into the next page exactly when the rest
/// of the tail page is too short for it, and then it ends in the next page.
pub proof fn lemma_crosses(size: nat, len: nat, page_size: nat)
    requires
        len + 4 < page_size,
    ensures
        crosses(size, len, page_size) <==> in_page(size, page_size) + len + 4 >= page_size,
        page_of(placed_at(size, len, page_size) + len + 4, page_size) == page_of(
            placed_at(size, len, page_size),
            page_size,
        ),
        in_page(placed_at(size, len, page_size), page_size) + len + 4 < page_size,
        size <= placed_at(size, len, page_size),
        crosses(size, len, page_size) ==> in_page(placed_at(size, len, page_size), page_size) == 0
            && page_of(placed_at(size, len, page_size), page_size) == page_of(size, page_size) + 1,
{
    let t = page_of(size, page_size);
    let r = in_page(size, page_size);
    lemma_offset_split(size, page_size);
    lemma_page_start_step(t, page_size);
    if r + len + 4 < page_size {
        lemma_offset_join(t, r + len + 4, page_size);
    } else {
        lemma_offset_join(t + 1, (r + len + 4 - page_size) as nat, page_size);
        lemma_offset_join(t + 1, 0, page_size);
        lemma_offset_join(t + 1, len + 4, page_size);
    }
}

/// A file that the store left is opened as it is.
pub proof fn lemma_opened_unchanged(image: Seq<u8>, page_size: nat)
    requires
        well_formed(image, page_size),
    ensures
        opened(image, page_size) == image,
{
    reveal(splice);
    reveal(resized);
    lemma_file_end(committed(image), page_size);
    assert(resized(image, image.len()) =~= image);
}

/// Opening gives a file that ends with its tail page.
pub proof fn lemma_opened_well_formed(image: Seq<u8>, page_size: nat)
    requires
        valid_page_size(page_size),
    ensures
        well_formed(opened(image, page_size), page_size),
{
    reveal(splice);
    reveal(resized);
    let headed = if image.len() < HEADER_SIZE {
        resized(image, HEADER_SIZE as nat)
    } else {
        image
    };
    let size = committed(headed);
    lemma_file_end(size, page_size);
    let out = resized(headed, file_end(size, page_size));
    assert(out.subrange(0, 8) =~= headed.subrange(0, 8));
}

/// What sealing does: the file ends with its new, empty tail page, and every
/// record stays where it was.
pub proof fn lemma_sealed(image: Seq<u8>, page_size: nat)
    requires
        well_formed(image, page_size),
        image.len() + page_size <= u64::MAX,
    ensures
        well_formed(sealed(image, page_size), page_size),
        committed(sealed(image, page_size)) == page_offset(
            page_of(committed(image), page_size) + 1,
            page_size,
        ),
        in_page(committed(sealed(image, page_size)), page_size) == 0,
        committed(image) < committed(sealed(image, page_size)),
        sealed(image, page_size).len() == image.len() + page_size,
        forall|i: int| 8 <= i < image.len() ==> sealed(image, page_size)[i] == image[i],
{
    reveal(splice);
    reveal(resized);
    let size = committed(image);
    let tail = page_of(size, page_size);
    let next = page_offset(tail + 1, page_size);
    let out = sealed(image, page_size);
    lemma_file_end(size, page_size);
    lemma_offset_split(size, page_size);
    lemma_page_start_step(tail, page_size);
    lemma_page_start_step(tail + 1, page_size);
    lemma_offset_join(tail + 1, 0, page_size);
    lemma_u64_round_trip(next as u64);
    assert(out.subrange(0, 8) =~= u64_be(next as u64));
}

/// What writing a record into the tail page does: the committed size is the
/// end of the record, the record is stored where the committed size was, and
/// nothing below it changes but the committed size.
pub proof fn lemma_written(image: Seq<u8>, page_size: nat, data: Seq<u8>)
    requires
        well_formed(image, page_size),
        image.len() <= u64::MAX,
        in_page(committed(image), page_size) + data.len() + 4 < page_size,
    ensures
        well_formed(written(image, data), page_size),
        committed(written(image, data)) == committed(image) + 4 + data.len(),
        page_of(committed(written(image, data)), page_size) == page_of(committed(image), page_size),
        stores(written(image, data), page_size, committed(image), data),
        written(image, data).len() == image.len(),
        forall|i: int|
            8 <= i < file_pos(committed(image)) ==> written(image, data)[i] == image[i],
{
    reveal(splice);
    reveal(resized);
    let size = committed(image);
    let len = data.len();
    let end = (size + len + 4) as nat;
    let out = written(image, data);
    lemma_file_end(size, page_size);
    lemma_offset_split(size, page_size);
    lemma_offset_join(page_of(size, page_size), in_page(size, page_size) + len + 4, page_size);
    lemma_u32_round_trip(len as u32);
    lemma_u64_round_trip(end as u64);
    assert(out.subrange(0, 8) =~= u64_be(end as u64));
    assert(out.subrange(file_pos(size) as int, file_pos(size) + 4 + len as int) =~= record(data));
}

/// What a successful append does: the file ends with its new tail page, the
/// committed size is the end of the new record, and the record is stored at
/// the offset returned.
pub proof fn lemma_appended(image: Seq<u8>, page_size: nat, data: Seq<u8>, limit: nat)
    requires
        well_formed(image, page_size),
        limit <= u64::MAX,
        append_outcome(committed(image), data.len(), page_size, limit).is_ok(),
    ensures
        well_formed(appended(image, page_size, data), page_size),
        committed(appended(image, page_size, data)) == placed_at(
            committed(image),
            data.len(),
            page_size,
        ) + 4 + data.len(),
        stores(
            appended(image, page_size, data),
            page_size,
            placed_at(committed(image), data.len(), page_size),
            data,
        ),
        appended(image, page_size, data).len() == file_end(
            placed_at(committed(image), data.len(), page_size),
            page_size,
        ),
{
    let size = committed(image);
    let at = placed_at(size, data.len(), page_size);
    lemma_crosses(size, data.len(), page_size);
    lemma_file_end(size, page_size);
    lemma_file_end(at, page_size);
    lemma_page_start_step(page_of(size, page_size) + 1, page_size);
    if crosses(size, data.len(), page_size) {
        lemma_sealed(image, page_size);
        lemma_written(sealed(image, page_size), page_size, data);
    } else {
        lemma_written(image, page_size, data);
    }
}

/// An append leaves every record where it was.
pub proof fn lemma_appended_keeps(
    image: Seq<u8>,
    page_size: nat,
    data: Seq<u8>,
    limit: nat,
    offset: nat,
    earlier: Seq<u8>,
)
    requires
        well_formed(image, page_size),
        limit <= u64::MAX,
        append_outcome(committed(image), data.len(), page_size, limit).is_ok(),
        stores(image, page_size, offset, earlier),
    ensures
        stores(appended(image, page_size, data), page_size, offset, earlier),
        offset + 4 + earlier.len() <= placed_at(committed(image), data.len(), page_size),
{
    let size = committed(image);
    let at = placed_at(size, data.len(), page_size);
    let out = appended(image, page_size, data);
    lemma_crosses(size, data.len(), page_size);
    lemma_file_end(size, page_size);
    lemma_file_end(at, page_size);
    lemma_page_start_step(page_of(size, page_size) + 1, page_size);
    if crosses(size, data.len(), page_size) {
        lemma_sealed(image, page_size);
        lemma_written(sealed(image, page_size), page_size, data);
    } else {
        lemma_written(image, page_size, data);
    }
    assert(out.subrange(file_pos(offset) as int, file_pos(offset) + 4 + earlier.len() as int)
        =~= image.subrange(file_pos(offset) as int, file_pos(offset) + 4 + earlier.len() as int));
}

/// What a read gives lies in one page, and a read fails only in the three
/// ways that a reader can cause.
pub proof fn lemma_read_fits(image: Seq<u8>, page_size: nat, offset: nat)
    requires
        well_formed(image, page_size),
    ensures
        match read(image, page_size, offset) {
            Ok(data) => in_page(offset, page_size) + 4 + data.len() <= page_size,
            Err(e) => e == StoreError::PageNotFound || e == StoreError::BadOffset || e
                == StoreError::Truncated,
        },
{
    let size = committed(image);
    let page = page_of(offset, page_size);
    if reachable(size, offset, page_size) {
        lemma_file_end(size, page_size);
        lemma_page_start_ordered(page + 1, page_of(size, page_size) + 1, page_size);
        lemma_page_start_step(page, page_size);
        lemma_offset_split(offset, page_size);
    }
}

/// A record that the file stores is what reading at its offset gives.
pub proof fn lemma_read_stored(image: Seq<u8>, page_size: nat, offset: nat, data: Seq<u8>)
    requires
        well_formed(image, page_size),
        stores(image, page_size, offset, data),
    ensures
        read(image, page_size, offset) == Ok::<Seq<u8>, StoreError>(data),
{
    let size = committed(image);
    let page = page_of(offset, page_size);
    let at = in_page(offset, page_size) as int;
    let tail = page_of(size, page_size);
    lemma_offset_split(offset, page_size);
    lemma_offset_split(size, page_size);
    lemma_div_is_ordered(offset as int, size as int, page_size as int);
    lemma_page_start_ordered(page + 1, tail + 1, page_size);
    lemma_page_start_step(page, page_size);
    lemma_u32_round_trip(data.len() as u32);
    let window = page_window(image, page, page_size);
    let stored = image.subrange(file_pos(offset) as int, file_pos(offset) + 4 + data.len() as int);
    assert(window.subrange(at, at + 4) =~= stored.subrange(0, 4));
    assert(record(data).subrange(0, 4) =~= u32_be(data.len() as u32));
    assert(window.subrange(at + 4, at + 4 + data.len() as int) =~= stored.subrange(
        4,
        4 + data.len() as int,
    ));
    assert(record(data).subrange(4, 4 + data.len() as int) =~= data);
}

} // verus!
