//! Sealed pages: immutable, shared, and read by in-page offset.

use vstd::prelude::*;
use std::sync::Arc;
use crate::blob::{Blob, BlobOwner};
use crate::codec::{holds_record, length_at, payload_at, read_length_prefixed, read_u32_be};
use crate::error::StoreError;

verus! {

/// What reading the record at `offset` of a page gives.
pub open spec fn record_in_page(page: Seq<u8>, offset: nat) -> Result<Seq<u8>, StoreError> {
    if !(offset + 4 < page.len()) {
        Err(StoreError::BadOffset)
    } else if offset + 4 + length_at(page, offset as int) > page.len() {
        Err(StoreError::Truncated)
    } else {
        Ok(payload_at(page, offset as int))
    }
}

/// Decides whether a record can be read at `offset` of `page`.
pub fn check_record(page: &[u8], offset: usize) -> (r: Result<(), StoreError>)
    ensures
        match r {
            Ok(_) => record_in_page(page@, offset as nat).is_ok() && holds_record(
                page@,
                offset as int,
            ),
            Err(e) => record_in_page(page@, offset as nat) == Err::<Seq<u8>, StoreError>(e),
        },
{
    let total: usize = page.len();
    if total < 5 || offset >= total - 4 {
        return Err(StoreError::BadOffset);
    }
    let n: u32 = read_u32_be(page, offset);
    if n as usize > total - 4 - offset {
        return Err(StoreError::Truncated);
    }
    Ok(())
}

/// The bytes of one page of `SIZE` bytes.
pub struct PageInner<const SIZE: usize> {
    data: Vec<u8>,
}

impl<const SIZE: usize> PageInner<SIZE> {
    #[verifier::type_invariant]
    spec fn inv(self) -> bool {
        self.data@.len() == SIZE
    }

    /// The bytes of the page.
    pub closed spec fn view(&self) -> Seq<u8> {
        self.data@
    }

    /// Takes ownership of the bytes of a page.
    pub fn new(data: Vec<u8>) -> (page: Self)
        requires
            data@.len() == SIZE,
        ensures
            page@ == data@,
    {
        PageInner { data }
    }

    /// The bytes of the page as a slice.
    pub fn as_slice(&self) -> (bytes: &[u8])
        ensures
            bytes@ == self@,
            bytes@.len() == SIZE,
    {
        proof {
            use_type_invariant(self);
        }
        self.data.as_slice()
    }
}

impl<const SIZE: usize> BlobOwner for PageInner<SIZE> {
    open spec fn bytes(&self) -> Seq<u8> {
        self@
    }

    fn get_slice(&self, offset: usize) -> (payload: &[u8]) {
        read_length_prefixed(self.as_slice(), offset)
    }
}

/// A shared handle to one sealed page.
pub struct Page<const SIZE: usize>(Arc<PageInner<SIZE>>);

impl<const SIZE: usize> Page<SIZE> {
    /// The bytes of the page.
    pub closed spec fn view(&self) -> Seq<u8> {
        self.0@
    }

    /// Seals `data` as a page.
    pub fn new(data: Vec<u8>) -> (page: Self)
        requires
            data@.len() == SIZE,
        ensures
            page@ == data@,
    {
        Page(Arc::new(PageInner::new(data)))
    }

    /// Another handle to the same page.
    pub fn share(&self) -> (page: Self)
        ensures
            page@ == self@,
    {
        Page(self.0.clone())
    }

    /// The blob of the record that starts at `offset`.
    pub fn bytes(&self, offset: usize) -> (r: Result<Blob<PageInner<SIZE>>, StoreError>)
        ensures
            self@.len() == SIZE,
            match r {
                Ok(blob) => record_in_page(self@, offset as nat) == Ok::<Seq<u8>, StoreError>(blob@),
                Err(e) => record_in_page(self@, offset as nat) == Err::<Seq<u8>, StoreError>(e),
            },
    {
        match check_record(self.0.as_slice(), offset) {
            Ok(_) => Ok(Blob::custom(self.0.clone(), offset)),
            Err(e) => Err(e),
        }
    }
}

} // verus!
