//! The synchronous entry point: a typestate-checked handle over one tree.

use vstd::prelude::*;

use crate::btree::{path_has_spare, write_failure, BTree, Initialized, Locked, PagerState, Uninitialized, Unlocked};
use crate::pager::{CAPACITY, PAGE_SIZE};
use crate::codec::Codec;
use crate::error::{DbError, PageId};
use crate::key::Key;
use crate::scan::ScanIter;
use crate::tree::{ordered, seq_get, seq_put, seq_remove, seq_set, Entry};
use crate::value::{TryFromValue, Value};

verus! {

/// A handle over a disk-backed B+tree of keys `K`.
///
/// `LockState` (`Unlocked` by default) says whether the mutating methods
/// exist on this handle; see [`KvDb::lock`] and [`KvDb::unlock`].
pub struct KvDb<K, LockState = Unlocked> {
    inner: BTree<K, Initialized, LockState>,
}

impl<K: Key, LockState> View for KvDb<K, LockState> {
    type V = Seq<Entry<K>>;

    /// Every entry of the database, in key order.
    closed spec fn view(&self) -> Seq<Entry<K>> {
        self.inner@
    }
}

impl<K: Key, LockState> KvDb<K, LockState> {
    /// The pages form a well-formed tree.
    pub closed spec fn wf(&self) -> bool {
        self.inner.wf()
    }

    /// Looks up `key` and converts its value to `R`: `NotFound` if the key is
    /// absent, `TypeMismatch` if the stored value is not exactly an `R`.
    pub fn get<R: TryFromValue>(&self, key: &K) -> (r: Result<R, DbError>)
        ensures
            self.wf() ==> match seq_get(self@, key.rank()) {
                None => r == Err::<R, DbError>(DbError::Value(crate::error::ValueError::NotFound)),
                Some(m) => if R::accepts(m) {
                    r is Ok && r->Ok_0.represents(m)
                } else {
                    r == Err::<R, DbError>(DbError::Value(crate::error::ValueError::TypeMismatch))
                },
            },
    {
        self.inner.get(key)
    }

    /// Every entry, sorted by key, copied into a fresh `Vec`.
    pub fn range(&self) -> (r: Result<Vec<(K, Value)>, DbError>)
        ensures
            self.wf() ==> (r matches Ok(v) && crate::btree::pairs_view(v@) == self@),
    {
        self.inner.range()
    }

    /// The number of entries. Walks every leaf.
    pub fn len(&self) -> (r: Result<usize, DbError>)
        ensures
            self.wf() ==> match r {
                Ok(n) => n == self@.len(),
                Err(e) => e is Io && self@.len() > usize::MAX,
            },
    {
        self.inner.len()
    }

    /// Whether the database holds no entries. Walks every leaf.
    pub fn is_empty(&self) -> (r: Result<bool, DbError>)
        ensures
            self.wf() ==> match r {
                Ok(b) => b == (self@.len() == 0),
                Err(e) => e is Io && self@.len() > usize::MAX,
            },
    {
        self.inner.is_empty()
    }

    /// An in-order cursor over every entry; see [`ScanIter`].
    pub fn scan(&self) -> (r: ScanIter<K>)
        ensures
            r.seen() == Seq::<Entry<K>>::empty(),
            self.wf() ==> r.valid_for(&self.state()),
            self.wf() ==> self@ == self.state().contents::<K>(),
    {
        proof {
            self.inner.lemma_state();
        }
        self.inner.scan()
    }

    /// The pages, root and height underneath this handle.
    pub closed spec fn state(&self) -> PagerState {
        self.inner.state()
    }

    /// A well-formed database is a well-formed tree of pages whose entries,
    /// in strictly increasing key order, are the database's.
    pub proof fn lemma_state(&self)
        requires
            self.wf(),
        ensures
            ordered(self@),
            self.state().tree_wf::<K>(),
            self@ == self.state().contents::<K>(),
    {
        self.inner.lemma_state();
        self.inner.lemma_sorted();
    }

    /// A scan of this database run to its end has yielded exactly what
    /// [`KvDb::range`] returns: every entry, in key order.
    pub proof fn lemma_scan_covers_range(&self, it: &ScanIter<K>)
        requires
            self.wf(),
            it.valid_for(&self.state()),
            it.position() is None,
        ensures
            it.seen() == self@,
            ordered(it.seen()),
    {
        self.lemma_state();
        it.lemma_finished(&self.state());
    }

    /// The pages, root and height underneath this handle, for whoever owns
    /// the file to read from.
    pub fn pager_state(&self) -> (r: &PagerState)
        ensures
            *r == self.state(),
    {
        self.inner.pager_state()
    }

    /// Hands over the ids of the pages written since the last call, oldest
    /// first, for whoever owns the file to write back.
    pub fn take_dirty(&mut self) -> (r: Vec<PageId>)
        ensures
            final(self)@ == old(self)@,
            final(self).wf() == old(self).wf(),
            r@ == old(self).state().pager.dirty(),
            final(self).state().pager.dirty() == Seq::<PageId>::empty(),
            final(self).state().pager.image() == old(self).state().pager.image(),
            final(self).state().root_id == old(self).state().root_id,
            final(self).state().height == old(self).state().height,
    {
        self.inner.take_dirty()
    }
}

impl<K: Key> KvDb<K, Unlocked> {
    /// Opens a database over `image`, the file's current contents, with the
    /// given codec, and returns an `Unlocked` handle. Like the tree it wraps,
    /// it starts empty: the root is not persisted.
    pub fn open_with_codec(image: Vec<u8>, codec: Box<dyn Codec>) -> (r: Result<Self, DbError>)
        ensures
            r matches Ok(db) ==> db.wf() && db@ == Seq::<Entry<K>>::empty(),
            image@.len() / (PAGE_SIZE as nat) >= usize::MAX / PAGE_SIZE ==> r is Err,
            r matches Err(e) ==> (e is Io && image@.len() / (PAGE_SIZE as nat) >= usize::MAX / PAGE_SIZE) || (
            e matches DbError::PageOverflow { len, capacity, .. } && len > CAPACITY && capacity == CAPACITY),
    {
        let tree = BTree::<K, Uninitialized, Locked>::new_with_codec(image, codec)?;
        Ok(KvDb { inner: tree.unlock() })
    }

    /// Inserts `value` under `key`, accumulating into the value already there.
    pub fn put(&mut self, key: K, value: Value) -> (r: Result<(), DbError>)
        ensures
            old(self).wf() ==> match r {
                Ok(_) => final(self).wf() && final(self)@ == seq_put(old(self)@, key, value@),
                Err(e) => write_failure::<K>(e, final(self).state().pager),
            },
            final(self).state().pager.codec_name() == old(self).state().pager.codec_name(),
    {
        self.inner.put(key, value)
    }

    /// Replaces the value at `key` if it exists, otherwise inserts it.
    pub fn update(&mut self, key: K, value: Value) -> (r: Result<(), DbError>)
        ensures
            old(self).wf() ==> match r {
                Ok(_) => final(self).wf() && final(self)@ == seq_set(old(self)@, key, value@),
                Err(e) => write_failure::<K>(e, final(self).state().pager),
            },
            old(self).wf() && seq_get(old(self)@, key.rank()) is Some && r is Err ==> final(self).state() == old(
                self,
            ).state() && final(self)@ == old(self)@,
            final(self).state().pager.codec_name() == old(self).state().pager.codec_name(),
    {
        self.inner.update(key, value)
    }

    /// Removes `key` if present, returning `(true, Some(previous_value))`, or
    /// `(false, None)` if it was absent.
    pub fn delete(&mut self, key: K) -> (r: Result<(bool, Option<Value>), DbError>)
        ensures
            old(self).wf() ==> match r {
                Ok((found, v)) => {
                    &&& final(self).wf()
                    &&& final(self)@ == seq_remove(old(self)@, key.rank())
                    &&& found == (seq_get(old(self)@, key.rank()) is Some)
                    &&& match v {
                        Some(x) => seq_get(old(self)@, key.rank()) == Some(x@),
                        None => seq_get(old(self)@, key.rank()) is None,
                    }
                },
                Err(e) => write_failure::<K>(e, final(self).state().pager),
            },
            old(self).wf() && seq_get(old(self)@, key.rank()) is None && path_has_spare(
                old(self).state().nodes::<K>(),
                old(self).state().root_id,
                old(self).state().height as int,
                key.rank(),
            ) ==> r == Ok::<(bool, Option<Value>), DbError>((false, None)) && final(self).state() == old(
                self,
            ).state() && final(self)@ == old(self)@,
            old(self).wf() && path_has_spare(
                old(self).state().nodes::<K>(),
                old(self).state().root_id,
                old(self).state().height as int,
                key.rank(),
            ) && r is Err ==> final(self).state() == old(self).state() && final(self)@ == old(self)@,
            final(self).state().pager.codec_name() == old(self).state().pager.codec_name(),
    {
        self.inner.delete(key)
    }

    /// Consumes an `Unlocked` handle and returns a `Locked` one; no I/O.
    pub fn lock(self) -> (r: KvDb<K, Locked>)
        ensures
            r@ == self@,
            r.wf() == self.wf(),
    {
        KvDb { inner: self.inner.lock() }
    }
}

impl<K: Key> KvDb<K, Locked> {
    /// Consumes a `Locked` handle and returns an `Unlocked` one; no I/O.
    pub fn unlock(self) -> (r: KvDb<K, Unlocked>)
        ensures
            r@ == self@,
            r.wf() == self.wf(),
    {
        KvDb { inner: self.inner.unlock() }
    }
}

impl<LockState> KvDb<i32, LockState> {
    /// A well-formed database holds its keys in increasing numeric order,
    /// so [`KvDb::range`] and a scan return them smallest first.
    pub proof fn lemma_keys_increase(&self)
        requires
            self.wf(),
        ensures
            forall|i: int, j: int| 0 <= i < j < self@.len() ==> #[trigger] self@[i].0 < #[trigger] self@[j].0,
    {
        self.lemma_state();
        crate::key::lemma_integer_key_order();
        assert forall|i: int, j: int| 0 <= i < j < self@.len() implies #[trigger] self@[i].0 < #[trigger] self@[j].0 by {
            assert(self@[i].0.rank() < self@[j].0.rank());
        }
    }
}

impl<LockState> KvDb<i64, LockState> {
    /// A well-formed database holds its keys in increasing numeric order,
    /// so [`KvDb::range`] and a scan return them smallest first.
    pub proof fn lemma_keys_increase(&self)
        requires
            self.wf(),
        ensures
            forall|i: int, j: int| 0 <= i < j < self@.len() ==> #[trigger] self@[i].0 < #[trigger] self@[j].0,
    {
        self.lemma_state();
        crate::key::lemma_integer_key_order();
        assert forall|i: int, j: int| 0 <= i < j < self@.len() implies #[trigger] self@[i].0 < #[trigger] self@[j].0 by {
            assert(self@[i].0.rank() < self@[j].0.rank());
        }
    }
}

impl<LockState> KvDb<u32, LockState> {
    /// A well-formed database holds its keys in increasing numeric order,
    /// so [`KvDb::range`] and a scan return them smallest first.
    pub proof fn lemma_keys_increase(&self)
        requires
            self.wf(),
        ensures
            forall|i: int, j: int| 0 <= i < j < self@.len() ==> #[trigger] self@[i].0 < #[trigger] self@[j].0,
    {
        self.lemma_state();
        crate::key::lemma_integer_key_order();
        assert forall|i: int, j: int| 0 <= i < j < self@.len() implies #[trigger] self@[i].0 < #[trigger] self@[j].0 by {
            assert(self@[i].0.rank() < self@[j].0.rank());
        }
    }
}

impl<LockState> KvDb<u64, LockState> {
    /// A well-formed database holds its keys in increasing numeric order,
    /// so [`KvDb::range`] and a scan return them smallest first.
    pub proof fn lemma_keys_increase(&self)
        requires
            self.wf(),
        ensures
            forall|i: int, j: int| 0 <= i < j < self@.len() ==> #[trigger] self@[i].0 < #[trigger] self@[j].0,
    {
        self.lemma_state();
        crate::key::lemma_integer_key_order();
        assert forall|i: int, j: int| 0 <= i < j < self@.len() implies #[trigger] self@[i].0 < #[trigger] self@[j].0 by {
            assert(self@[i].0.rank() < self@[j].0.rank());
        }
    }
}

} // verus!
