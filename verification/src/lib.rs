//! A disk-backed, embedded key-value store: a B+tree over fixed-size pages,
//! with typed values, a typestate-checked API and a pluggable wire format.
//!
//! [`KvDb`] is the handle a caller uses; [`Value`], [`ValueError`],
//! [`DbError`], [`Codec`] and [`ScanIter`] are what its methods take or
//! return.

pub mod error;
pub mod value;
pub mod key;
pub mod node;
pub mod page;
pub mod codec;
pub mod pager;
pub mod tree;
pub mod seg;
pub mod reshape;
pub mod entries;
pub mod regroup;
pub mod chain;
pub mod occupancy;
pub mod scan;
pub mod laws;
pub mod btree;
pub mod kvdb;
pub mod kvdb_call;
pub mod json;
pub mod memtree;

pub use codec::Codec;
pub use error::{DbError, PageId, ValueError};
pub use json::Json;
pub use kvdb::KvDb;
pub use scan::ScanIter;
pub use value::{TryFromValue, Value, ValueModel};
