//! An append-only store of length-prefixed blobs, laid out in fixed-size pages
//! behind a small header. The store is a pure function of the bytes of its file,
//! and every operation is specified over that byte image.

pub mod blob;
pub mod codec;
pub mod error;
pub mod facade;
pub mod file;
pub mod header;
pub mod laws;
pub mod layout;
pub mod model;
pub mod page;
pub mod plan;
pub mod store;
