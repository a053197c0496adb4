//! Handles to the payload of one record, kept alive by shared ownership of the
//! bytes that hold it.

use vstd::prelude::*;
use std::sync::Arc;
use crate::codec::{holds_record, payload_at};

verus! {

/// Something that owns bytes in which records lie.
pub trait BlobOwner {
    /// The bytes owned.
    spec fn bytes(&self) -> Seq<u8>;

    /// The payload of the record whose prefix starts at `offset`.
    fn get_slice(&self, offset: usize) -> (payload: &[u8])
        requires
            holds_record(self.bytes(), offset as int),
        ensures
            payload@ == payload_at(self.bytes(), offset as int),
    ;
}

/// A read-only view of one record's payload. The blob shares ownership of the
/// bytes behind it, so it stays valid for as long as it is held.
pub struct Blob<O: BlobOwner> {
    owner: Arc<O>,
    offset: usize,
}

impl<O: BlobOwner> Blob<O> {
    #[verifier::type_invariant]
    spec fn inv(self) -> bool {
        holds_record(self.owner.bytes(), self.offset as int)
    }

    /// The payload.
    pub closed spec fn view(&self) -> Seq<u8> {
        payload_at(self.owner.bytes(), self.offset as int)
    }

    /// A blob for the record that starts at `offset` in the bytes of `owner`.
    pub fn custom(owner: Arc<O>, offset: usize) -> (blob: Self)
        requires
            holds_record(owner.bytes(), offset as int),
        ensures
            blob@ == payload_at(owner.bytes(), offset as int),
    {
        Blob { owner, offset }
    }

    /// The payload as a slice borrowed from the owner.
    pub fn as_slice(&self) -> (payload: &[u8])
        ensures
            payload@ == self@,
    {
        proof {
            use_type_invariant(self);
        }
        self.owner.get_slice(self.offset)
    }

    /// Number of payload bytes.
    pub fn len(&self) -> (n: usize)
        ensures
            n == self@.len(),
    {
        self.as_slice().len()
    }

    /// A copy of the payload.
    pub fn to_vec(&self) -> (payload: Vec<u8>)
        ensures
            payload@ == self@,
    {
        vstd::slice::slice_to_vec(self.as_slice())
    }

    /// Another handle to the same payload.
    pub fn share(&self) -> (blob: Self)
        ensures
            blob@ == self@,
    {
        proof {
            use_type_invariant(self);
        }
        Blob { owner: self.owner.clone(), offset: self.offset }
    }
}

} // verus!
