//! The store as shared by many threads: one lock around it, taken for the
//! length of each call.
//!
//! The lock is `vstd`'s, which holds the store to a predicate each time it is
//! given back. So what the predicate says is known of the store whichever
//! thread had it last: it is well formed, and it still stores all that it
//! stored when it was opened.

use vstd::prelude::*;
use vstd::rwlock::{RwLock, RwLockPredicate};
use std::sync::Arc;
use crate::blob::Blob;
use crate::error::StoreError;
use crate::layout::{in_page, valid_page_size};
use crate::model::{
    append_outcome, committed, lemma_appended_keeps, lemma_read_fits, lemma_read_stored,
    open_outcome, opened, read, stores, well_formed,
};
use crate::page::PageInner;
use crate::store::Inner;

verus! {

/// What the lock keeps true of the store inside it, whichever thread had it
/// last: the store is well formed, and it has only grown since it was opened.
pub struct Kept<const SIZE: usize> {
    /// The file as it was when the store was opened.
    pub start: Seq<u8>,
}

impl<const SIZE: usize> RwLockPredicate<Inner<SIZE>> for Kept<SIZE> {
    open spec fn inv(self, store: Inner<SIZE>) -> bool {
        &&& store.wf()
        &&& committed(self.start) <= committed(store@)
        &&& forall|offset: nat, data: Seq<u8>| #[trigger]
            stores(self.start, SIZE as nat, offset, data) ==> stores(
                store@,
                SIZE as nat,
                offset,
                data,
            )
    }
}

/// A store that any number of threads can hold and use. Calls are taken one
/// at a time, in some order; a blob that was handed out needs no lock.
pub struct PagedFileStore<const SIZE: usize>(Arc<RwLock<Inner<SIZE>, Kept<SIZE>>>);

impl<const SIZE: usize> PagedFileStore<SIZE> {
    /// The lock, and with it the store, that this handle leads to. Two
    /// handles with the same lock take turns on one store.
    pub closed spec fn lock(&self) -> RwLock<Inner<SIZE>, Kept<SIZE>> {
        *self.0
    }

    /// The file as it was when the store was opened. Whatever it stored then
    /// is read through every handle, whatever has been appended since.
    pub open spec fn start(&self) -> Seq<u8> {
        self.lock().pred().start
    }

    /// Opens the store over a file.
    pub fn new(file: Vec<u8>) -> (r: Result<Self, StoreError>)
        requires
            valid_page_size(SIZE as nat),
        ensures
            match r {
                Ok(store) => {
                    &&& open_outcome(file@, SIZE as nat, usize::MAX as nat) == Ok::<
                        Seq<u8>,
                        StoreError,
                    >(store.start())
                    &&& store.start() == opened(file@, SIZE as nat)
                    &&& well_formed(store.start(), SIZE as nat)
                },
                Err(e) => open_outcome(file@, SIZE as nat, usize::MAX as nat) == Err::<
                    Seq<u8>,
                    StoreError,
                >(e),
            },
    {
        match Inner::<SIZE>::new(file) {
            Ok(inner) => {
                let ghost kept = Kept::<SIZE> { start: inner@ };
                Ok(PagedFileStore(Arc::new(RwLock::new(inner, Ghost(kept)))))
            },
            Err(e) => Err(e),
        }
    }

    /// Another handle to the same store: it leads to the same lock, so what
    /// is appended through one handle is read through the other.
    pub fn share(&self) -> (other: Self)
        ensures
            other.lock() == self.lock(),
            other == *self,
    {
        PagedFileStore(self.0.clone())
    }

    /// Appends `data` as a new record and gives its logical offset. Other
    /// threads may append before and after, so the result is that of an append
    /// to some file that the store left, which the caller does not see; but
    /// the record goes behind all that the store held when it was opened.
    pub fn append(&self, data: &[u8]) -> (r: Result<u64, StoreError>)
        ensures
            r == Err::<u64, StoreError>(StoreError::BlobTooLarge) <==> data@.len() + 4 >= SIZE,
            r matches Ok(offset) ==> in_page(offset as nat, SIZE as nat) + 4 + data@.len() < SIZE,
            r matches Ok(offset) ==> committed(self.start()) <= offset,
            exists|image: Seq<u8>| #[trigger]
                well_formed(image, SIZE as nat) && match r {
                    Ok(offset) => append_outcome(
                        committed(image),
                        data@.len(),
                        SIZE as nat,
                        usize::MAX as nat,
                    ) == Ok::<nat, StoreError>(offset as nat),
                    Err(e) => append_outcome(
                        committed(image),
                        data@.len(),
                        SIZE as nat,
                        usize::MAX as nat,
                    ) == Err::<nat, StoreError>(e),
                },
    {
        let (mut inner, handle) = self.0.acquire_write();
        let ghost image = inner@;
        assert(committed(self.start()) <= committed(image));
        let r = inner.append(data);
        proof {
            assert(well_formed(image, SIZE as nat));
            if r.is_ok() {
                assert forall|offset: nat, earlier: Seq<u8>| #[trigger]
                    stores(self.start(), SIZE as nat, offset, earlier) implies stores(
                    inner@,
                    SIZE as nat,
                    offset,
                    earlier,
                ) by {
                    lemma_appended_keeps(
                        image,
                        SIZE as nat,
                        data@,
                        usize::MAX as nat,
                        offset,
                        earlier,
                    );
                }
            }
        }
        handle.release_write(inner);
        r
    }

    /// The blob of the record that starts at `id`, as the store holds it at
    /// the time of the call. A record that the store held when it was opened
    /// is always read.
    pub fn bytes(&self, id: u64) -> (r: Result<Blob<PageInner<SIZE>>, StoreError>)
        ensures
            forall|data: Seq<u8>| #[trigger]
                stores(self.start(), SIZE as nat, id as nat, data) ==> (r matches Ok(blob)
                    && blob@ == data),
            r matches Ok(blob) ==> in_page(id as nat, SIZE as nat) + 4 + blob@.len() <= SIZE,
            r matches Err(e) ==> e == StoreError::PageNotFound || e == StoreError::BadOffset || e
                == StoreError::Truncated,
            exists|image: Seq<u8>| #[trigger]
                well_formed(image, SIZE as nat) && match r {
                    Ok(blob) => read(image, SIZE as nat, id as nat) == Ok::<Seq<u8>, StoreError>(
                        blob@,
                    ),
                    Err(e) => read(image, SIZE as nat, id as nat) == Err::<Seq<u8>, StoreError>(e),
                },
    {
        let (mut inner, handle) = self.0.acquire_write();
        let ghost image = inner@;
        let r = inner.bytes(id);
        proof {
            lemma_read_fits(image, SIZE as nat, id as nat);
            assert(well_formed(image, SIZE as nat));
            assert forall|data: Seq<u8>| #[trigger]
                stores(self.start(), SIZE as nat, id as nat, data) implies (r matches Ok(blob)
                && blob@ == data) by {
                lemma_read_stored(image, SIZE as nat, id as nat, data);
            }
        }
        handle.release_write(inner);
        r
    }

    /// Nothing is buffered, so there is nothing to do.
    pub fn flush(&self) -> (r: Result<(), StoreError>)
        ensures
            r.is_ok(),
    {
        Ok(())
    }
}

} // verus!
