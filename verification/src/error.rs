use vstd::prelude::*;

verus! {

/// What can go wrong when talking to a store.
#[derive(Clone, Copy, Debug, PartialEq, Eq, Structural)]
pub enum StoreError {
    /// The file cannot be grown or addressed any further.
    Io,
    /// The blob, together with its length prefix, does not fit into one page.
    BlobTooLarge,
    /// The offset lies beyond what has been committed.
    PageNotFound,
    /// The offset leaves no room for a length prefix before the end of the page.
    BadOffset,
    /// The length prefix announces more bytes than the page holds.
    Truncated,
}

impl StoreError {
    /// The words of `message`.
    pub open spec fn text(self) -> Seq<char> {
        match self {
            StoreError::Io => "file cannot be extended"@,
            StoreError::BlobTooLarge => "block too large for this store"@,
            StoreError::PageNotFound => "page not found"@,
            StoreError::BadOffset => "offset too close to the end of the page"@,
            StoreError::Truncated => "record runs past the end of the page"@,
        }
    }

    /// A short description for humans.
    pub fn message(&self) -> (s: &'static str)
        ensures
            s@ == self.text(),
    {
        match self {
            StoreError::Io => "file cannot be extended",
            StoreError::BlobTooLarge => "block too large for this store",
            StoreError::PageNotFound => "page not found",
            StoreError::BadOffset => "offset too close to the end of the page",
            StoreError::Truncated => "record runs past the end of the page",
        }
    }
}

} // verus!
