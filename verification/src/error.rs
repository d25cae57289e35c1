//! The value-level error and the storage-level error that wraps it.

use vstd::prelude::*;

verus! {

/// A page's address in the database file: a plain page number, not an in-memory pointer.
pub type PageId = u64;

/// A failure at the value level: the wrong type was asked for, the key was
/// missing, or a codec could not turn bytes back into a value.
#[derive(Debug, PartialEq, Eq)]
#[non_exhaustive]
pub enum ValueError {
    /// The stored value exists but is not the variant the caller asked for.
    TypeMismatch,
    /// No entry exists for the requested key.
    NotFound,
    /// A codec could not turn its stored bytes back into a value.
    Decode {
        /// The name of the codec that failed to decode.
        codec: &'static str,
        /// A human-readable description of what went wrong.
        message: String,
    },
}

impl ValueError {
    /// Builds a [`ValueError::Decode`] from a codec's name and a description.
    pub fn decode(codec: &'static str, message: String) -> (r: ValueError)
        ensures
            r == (ValueError::Decode { codec, message }),
    {
        ValueError::Decode { codec, message }
    }
}

/// The storage-level error: everything that can go wrong reading or writing a page.
#[derive(Debug)]
#[non_exhaustive]
pub enum DbError {
    /// The database file could not be read where a page should be.
    Io {
        /// A description of the failed read or write.
        message: String,
    },
    /// A value-level failure: `NotFound`, `TypeMismatch`, or a codec's decode error.
    Value(ValueError),
    /// A page's length prefix claims more bytes than a page can hold.
    CorruptPage {
        /// The page that failed to read.
        page: PageId,
        /// The claimed payload length.
        len: usize,
        /// The maximum payload a page can hold.
        capacity: usize,
    },
    /// A key could not be encoded while writing a page.
    KeyEncode {
        /// A description of the encoding failure.
        message: String,
    },
    /// An encoded node does not fit in one fixed-size page.
    PageOverflow {
        /// The encoded size that did not fit.
        len: usize,
        /// The name of the codec that produced the oversized encoding.
        codec: &'static str,
        /// The maximum payload a page can hold.
        capacity: usize,
    },
    /// A page's contents contradict the tree's shape: a child, sibling or
    /// separator that cannot be where it is. This happens only when an
    /// earlier failed write left a multi-page change half done.
    Inconsistent {
        /// The page whose contents did not fit the tree.
        page: PageId,
    },
}

impl DbError {
    /// Is this specifically a missing-key error?
    pub fn is_not_found(&self) -> (r: bool)
        ensures
            r == (*self == DbError::Value(ValueError::NotFound)),
    {
        match self {
            DbError::Value(ValueError::NotFound) => true,
            _ => false,
        }
    }
}

} // verus!
