//! What holds of every run of the store, proved over the bytes of its file.

use vstd::prelude::*;
use crate::error::StoreError;
use crate::layout::{in_page, valid_page_size};
use crate::model::{
    append_outcome, appended, committed, lemma_appended, lemma_appended_keeps, lemma_crosses,
    lemma_opened_unchanged, lemma_read_stored, open_outcome, placed_at, read, stores, well_formed,
};

verus! {

/// The file after the first `k` of `blobs` have been appended, one after the
/// other.
pub open spec fn state_after(image: Seq<u8>, page_size: nat, blobs: Seq<Seq<u8>>, k: nat) -> Seq<u8>
    decreases k,
{
    if k == 0 {
        image
    } else {
        appended(state_after(image, page_size, blobs, (k - 1) as nat), page_size, blobs[k - 1])
    }
}

/// The offset that the append of `blobs[i]` returns.
pub open spec fn offset_of(image: Seq<u8>, page_size: nat, blobs: Seq<Seq<u8>>, i: nat) -> nat {
    placed_at(committed(state_after(image, page_size, blobs, i)), blobs[i as int].len(), page_size)
}

/// Whether the append of `blobs[i]` succeeds.
pub open spec fn accepted(
    image: Seq<u8>,
    page_size: nat,
    blobs: Seq<Seq<u8>>,
    limit: nat,
    i: nat,
) -> bool {
    append_outcome(
        committed(state_after(image, page_size, blobs, i)),
        blobs[i as int].len(),
        page_size,
        limit,
    ).is_ok()
}

/// Whether every append of `blobs` succeeds.
pub open spec fn all_accepted(image: Seq<u8>, page_size: nat, blobs: Seq<Seq<u8>>, limit: nat) -> bool {
    forall|i: nat| i < blobs.len() ==> #[trigger] accepted(image, page_size, blobs, limit, i)
}

/// After `k` appends the file is still one that the store left, and it stores
/// each of the `k` blobs at the offset that its append returned, below the
/// committed size.
pub proof fn lemma_appends_stored(
    image: Seq<u8>,
    page_size: nat,
    blobs: Seq<Seq<u8>>,
    limit: nat,
    k: nat,
)
    requires
        well_formed(image, page_size),
        limit <= u64::MAX,
        all_accepted(image, page_size, blobs, limit),
        k <= blobs.len(),
    ensures
        well_formed(state_after(image, page_size, blobs, k), page_size),
        forall|i: nat|
            i < k ==> #[trigger] stores(
                state_after(image, page_size, blobs, k),
                page_size,
                offset_of(image, page_size, blobs, i),
                blobs[i as int],
            ),
    decreases k,
{
    if k > 0 {
        let j = (k - 1) as nat;
        let before = state_after(image, page_size, blobs, j);
        let after = state_after(image, page_size, blobs, k);
        lemma_appends_stored(image, page_size, blobs, limit, j);
        assert(accepted(image, page_size, blobs, limit, j));
        lemma_appended(before, page_size, blobs[j as int], limit);
        assert forall|i: nat| i < k implies #[trigger] stores(
            after,
            page_size,
            offset_of(image, page_size, blobs, i),
            blobs[i as int],
        ) by {
            if i < j {
                lemma_appended_keeps(
                    before,
                    page_size,
                    blobs[j as int],
                    limit,
                    offset_of(image, page_size, blobs, i),
                    blobs[i as int],
                );
            }
        }
    }
}

/// Every blob appended is read back: after any run of successful appends,
/// reading at the offset that an append returned gives the blob appended.
pub proof fn lemma_round_trip(
    image: Seq<u8>,
    page_size: nat,
    blobs: Seq<Seq<u8>>,
    limit: nat,
    i: nat,
)
    requires
        well_formed(image, page_size),
        limit <= u64::MAX,
        all_accepted(image, page_size, blobs, limit),
        i < blobs.len(),
    ensures
        read(
            state_after(image, page_size, blobs, blobs.len()),
            page_size,
            offset_of(image, page_size, blobs, i),
        ) == Ok::<Seq<u8>, StoreError>(blobs[i as int]),
{
    let last = state_after(image, page_size, blobs, blobs.len());
    lemma_appends_stored(image, page_size, blobs, limit, blobs.len());
    assert(stores(last, page_size, offset_of(image, page_size, blobs, i), blobs[i as int]));
    lemma_read_stored(last, page_size, offset_of(image, page_size, blobs, i), blobs[i as int]);
}

/// No record spans two pages: each one ends in the page it starts in.
pub proof fn lemma_record_in_one_page(
    image: Seq<u8>,
    page_size: nat,
    blobs: Seq<Seq<u8>>,
    limit: nat,
    i: nat,
)
    requires
        well_formed(image, page_size),
        all_accepted(image, page_size, blobs, limit),
        i < blobs.len(),
    ensures
        in_page(offset_of(image, page_size, blobs, i), page_size) + 4 + blobs[i as int].len()
            <= page_size,
{
    assert(accepted(image, page_size, blobs, limit, i));
    lemma_crosses(
        committed(state_after(image, page_size, blobs, i)),
        blobs[i as int].len(),
        page_size,
    );
}

/// Each append moves the committed size to the end of its record, which is
/// where the next record can go.
pub proof fn lemma_size_follows(
    image: Seq<u8>,
    page_size: nat,
    blobs: Seq<Seq<u8>>,
    limit: nat,
    i: nat,
)
    requires
        well_formed(image, page_size),
        limit <= u64::MAX,
        all_accepted(image, page_size, blobs, limit),
        i < blobs.len(),
    ensures
        committed(state_after(image, page_size, blobs, i + 1)) == offset_of(
            image,
            page_size,
            blobs,
            i,
        ) + 4 + blobs[i as int].len(),
        committed(state_after(image, page_size, blobs, i)) <= offset_of(
            image,
            page_size,
            blobs,
            i,
        ),
{
    lemma_appends_stored(image, page_size, blobs, limit, i);
    assert(accepted(image, page_size, blobs, limit, i));
    lemma_appended(state_after(image, page_size, blobs, i), page_size, blobs[i as int], limit);
    lemma_crosses(
        committed(state_after(image, page_size, blobs, i)),
        blobs[i as int].len(),
        page_size,
    );
}

/// The committed size never goes back.
pub proof fn lemma_size_grows(
    image: Seq<u8>,
    page_size: nat,
    blobs: Seq<Seq<u8>>,
    limit: nat,
    i: nat,
    j: nat,
)
    requires
        well_formed(image, page_size),
        limit <= u64::MAX,
        all_accepted(image, page_size, blobs, limit),
        i <= j <= blobs.len(),
    ensures
        committed(state_after(image, page_size, blobs, i)) <= committed(
            state_after(image, page_size, blobs, j),
        ),
    decreases j - i,
{
    if i < j {
        let k = (j - 1) as nat;
        lemma_size_grows(image, page_size, blobs, limit, i, k);
        lemma_size_follows(image, page_size, blobs, limit, k);
    }
}

/// Offsets go up strictly: a later append returns a larger offset.
pub proof fn lemma_offsets_increase(
    image: Seq<u8>,
    page_size: nat,
    blobs: Seq<Seq<u8>>,
    limit: nat,
    i: nat,
    j: nat,
)
    requires
        well_formed(image, page_size),
        limit <= u64::MAX,
        all_accepted(image, page_size, blobs, limit),
        i < j < blobs.len(),
    ensures
        offset_of(image, page_size, blobs, i) < offset_of(image, page_size, blobs, j),
{
    lemma_size_follows(image, page_size, blobs, limit, i);
    lemma_size_grows(image, page_size, blobs, limit, i + 1, j);
    lemma_size_follows(image, page_size, blobs, limit, j);
}

/// Opening a file that the store left changes nothing, so every offset reads
/// as it did before.
pub proof fn lemma_reopen(image: Seq<u8>, page_size: nat, limit: nat, offset: nat)
    requires
        well_formed(image, page_size),
        image.len() <= limit,
    ensures
        open_outcome(image, page_size, limit) == Ok::<Seq<u8>, StoreError>(image),
        open_outcome(image, page_size, limit) matches Ok(reopened) && read(
            reopened,
            page_size,
            offset,
        ) == read(image, page_size, offset),
{
    lemma_opened_unchanged(image, page_size);
}

/// What was read once is read again after any number of further appends:
/// sealing a page moves no record.
pub proof fn lemma_reads_last(
    image: Seq<u8>,
    page_size: nat,
    blobs: Seq<Seq<u8>>,
    limit: nat,
    offset: nat,
    data: Seq<u8>,
    k: nat,
)
    requires
        well_formed(image, page_size),
        limit <= u64::MAX,
        all_accepted(image, page_size, blobs, limit),
        stores(image, page_size, offset, data),
        k <= blobs.len(),
    ensures
        well_formed(state_after(image, page_size, blobs, k), page_size),
        stores(state_after(image, page_size, blobs, k), page_size, offset, data),
        read(state_after(image, page_size, blobs, k), page_size, offset) == Ok::<
            Seq<u8>,
            StoreError,
        >(data),
    decreases k,
{
    if k > 0 {
        let j = (k - 1) as nat;
        lemma_reads_last(image, page_size, blobs, limit, offset, data, j);
        assert(accepted(image, page_size, blobs, limit, j));
        lemma_appended(state_after(image, page_size, blobs, j), page_size, blobs[j as int], limit);
        lemma_appended_keeps(
            state_after(image, page_size, blobs, j),
            page_size,
            blobs[j as int],
            limit,
            offset,
            data,
        );
    }
    lemma_read_stored(state_after(image, page_size, blobs, k), page_size, offset, data);
}

/// The largest blob that a page takes is five bytes shorter than the page:
/// one byte more, and the append is refused, whatever the store holds.
pub proof fn lemma_blob_too_large(size: nat, len: nat, page_size: nat, limit: nat)
    requires
        valid_page_size(page_size),
    ensures
        len + 4 >= page_size <==> append_outcome(size, len, page_size, limit) == Err::<
            nat,
            StoreError,
        >(StoreError::BlobTooLarge),
{
}

/// After an append the committed size does not rest on a page boundary: a
/// record that would end exactly there goes to the next page instead.
pub proof fn lemma_size_off_boundary(image: Seq<u8>, page_size: nat, data: Seq<u8>, limit: nat)
    requires
        well_formed(image, page_size),
        limit <= u64::MAX,
        append_outcome(committed(image), data.len(), page_size, limit).is_ok(),
    ensures
        4 <= in_page(committed(appended(image, page_size, data)), page_size),
        in_page(committed(image), page_size) + data.len() + 4 == page_size ==> in_page(
            placed_at(committed(image), data.len(), page_size),
            page_size,
        ) == 0 && placed_at(committed(image), data.len(), page_size) == committed(image)
            + data.len() + 4,
{
    let size = committed(image);
    let at = placed_at(size, data.len(), page_size);
    lemma_appended(image, page_size, data, limit);
    lemma_crosses(size, data.len(), page_size);
    crate::layout::lemma_offset_split(at, page_size);
    crate::layout::lemma_offset_split(size, page_size);
    crate::layout::lemma_page_start_step(crate::layout::page_of(size, page_size), page_size);
    crate::layout::lemma_offset_join(
        crate::layout::page_of(at, page_size),
        in_page(at, page_size) + data.len() + 4,
        page_size,
    );
}

} // verus!
