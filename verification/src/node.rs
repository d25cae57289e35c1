//! One page's worth of the tree, and its model.

use vstd::prelude::*;

use crate::error::PageId;
use crate::key::Key;
use crate::value::{views, Value, ValueModel};

verus! {

/// The minimum degree of the tree.
pub const MIN_DEGREE: usize = 5;

/// The most keys a node holds; a node with this many is full.
pub const MAX_KEYS: usize = 9;

/// A node with no more keys than this needs refilling before a delete descends into it.
pub const MIN_KEYS: usize = 4;

/// One page's worth of the tree: either a leaf holding real entries, or an
/// internal node holding only routing keys and child pointers.
#[derive(Debug)]
pub struct Node<K> {
    /// This node's keys, kept sorted. In a leaf `keys[i]` pairs with
    /// `values[i]`; in an internal node `keys[i]` separates `children[i]`
    /// from `children[i + 1]`.
    pub keys: Vec<K>,
    /// The values stored at each key. Empty for an internal node.
    pub values: Vec<Value>,
    /// Child page ids. Empty for a leaf; `keys.len() + 1` entries for an internal node.
    pub children: Vec<PageId>,
    /// The next leaf to the right in key order, or `None` for the rightmost
    /// leaf. Always `None` on an internal node.
    pub next: Option<PageId>,
    /// Whether this node is a leaf.
    pub is_leaf: bool,
}

/// The model of a [`Node`].
pub struct NodeModel<K> {
    pub keys: Seq<K>,
    pub values: Seq<ValueModel>,
    pub children: Seq<PageId>,
    pub next: Option<PageId>,
    pub is_leaf: bool,
}

impl<K> View for Node<K> {
    type V = NodeModel<K>;

    open spec fn view(&self) -> NodeModel<K> {
        NodeModel {
            keys: self.keys@,
            values: views(self.values@),
            children: self.children@,
            next: self.next,
            is_leaf: self.is_leaf,
        }
    }
}

/// The number of keys in `keys` whose rank is at most `r`, counted from the
/// front while they stay at most `r`: the child a key of rank `r` descends to.
pub open spec fn child_index_of<K: Key>(keys: Seq<K>, r: int) -> nat
    decreases keys.len(),
{
    if keys.len() == 0 {
        0
    } else if r >= keys[0].rank() {
        1 + child_index_of(keys.drop_first(), r)
    } else {
        0
    }
}

/// The position of the key of rank `r` in `keys`, if it is there.
pub open spec fn slot_of<K: Key>(keys: Seq<K>, r: int) -> Option<nat>
    decreases keys.len(),
{
    if keys.len() == 0 {
        None
    } else if keys[0].rank() == r {
        Some(0)
    } else {
        match slot_of(keys.drop_first(), r) {
            Some(i) => Some(i + 1),
            None => None,
        }
    }
}

pub proof fn lemma_child_index_bound<K: Key>(keys: Seq<K>, r: int)
    ensures
        child_index_of(keys, r) <= keys.len(),
        forall|j: int| 0 <= j < child_index_of(keys, r) ==> r >= #[trigger] keys[j].rank(),
        child_index_of(keys, r) < keys.len() ==> r < keys[child_index_of(keys, r) as int].rank(),
    decreases keys.len(),
{
    if keys.len() > 0 && r >= keys[0].rank() {
        lemma_child_index_bound(keys.drop_first(), r);
        assert forall|j: int| 0 <= j < child_index_of(keys, r) implies r >= #[trigger] keys[j].rank() by {
            if j > 0 {
                assert(keys[j] == keys.drop_first()[j - 1]);
            }
        }
    }
}

pub proof fn lemma_slot<K: Key>(keys: Seq<K>, r: int)
    ensures
        slot_of(keys, r) matches Some(i) ==> i < keys.len() && keys[i as int].rank() == r && forall|
            j: int,
        | 0 <= j < i ==> #[trigger] keys[j].rank() != r,
        slot_of(keys, r) is None ==> forall|j: int| 0 <= j < keys.len() ==> #[trigger] keys[j].rank() != r,
    decreases keys.len(),
{
    if keys.len() > 0 {
        lemma_slot(keys.drop_first(), r);
        assert forall|j: int| 0 < j < keys.len() implies #[trigger] keys[j] == keys.drop_first()[j - 1] by {}
    }
}

impl<K: Key> Node<K> {
    /// A leaf node.
    pub fn leaf(keys: Vec<K>, values: Vec<Value>, next: Option<PageId>) -> (r: Self)
        ensures
            r.keys == keys,
            r.values == values,
            r.children@ == Seq::<PageId>::empty(),
            r.next == next,
            r.is_leaf,
    {
        Node { keys, values, children: Vec::new(), next, is_leaf: true }
    }

    /// An internal node.
    pub fn internal(keys: Vec<K>, children: Vec<PageId>) -> (r: Self)
        ensures
            r.keys == keys,
            r.values@ == Seq::<Value>::empty(),
            r.children == children,
            r.next is None,
            !r.is_leaf,
    {
        Node { keys, values: Vec::new(), children, next: None, is_leaf: false }
    }

    /// Does this node hold the most keys a node may hold?
    pub fn is_full(&self) -> (r: bool)
        ensures
            r == (self.keys@.len() == MAX_KEYS),
    {
        self.keys.len() == MAX_KEYS
    }

    /// The index of the child that `key` descends to: past every key at most `key`.
    pub fn child_index(&self, key: &K) -> (r: usize)
        ensures
            r == child_index_of(self.keys@, key.rank()),
    {
        let mut i: usize = 0;
        proof {
            assert(self.keys@.subrange(0, self.keys@.len() as int) =~= self.keys@);
        }
        while i < self.keys.len() && !key.less_than(&self.keys[i])
            invariant
                i <= self.keys@.len(),
                child_index_of(self.keys@, key.rank()) == i + child_index_of(
                    self.keys@.subrange(i as int, self.keys@.len() as int),
                    key.rank(),
                ),
            decreases self.keys@.len() - i,
        {
            proof {
                let rest = self.keys@.subrange(i as int, self.keys@.len() as int);
                assert(rest.drop_first() =~= self.keys@.subrange(i + 1, self.keys@.len() as int));
            }
            i += 1;
        }
        proof {
            assert(self.keys@.subrange(0, self.keys@.len() as int) =~= self.keys@);
        }
        i
    }

    /// The position of `key` among this node's keys, if it is there.
    pub fn slot(&self, key: &K) -> (r: Option<usize>)
        ensures
            r matches Some(i) ==> slot_of(self.keys@, key.rank()) == Some(i as nat),
            r is None ==> slot_of(self.keys@, key.rank()) is None,
    {
        let mut i: usize = 0;
        proof {
            assert(self.keys@.subrange(0, self.keys@.len() as int) =~= self.keys@);
        }
        while i < self.keys.len()
            invariant
                i <= self.keys@.len(),
                slot_of(self.keys@, key.rank()) == match slot_of(
                    self.keys@.subrange(i as int, self.keys@.len() as int),
                    key.rank(),
                ) {
                    Some(j) => Some((j + i) as nat),
                    None => None,
                },
            decreases self.keys@.len() - i,
        {
            proof {
                let rest = self.keys@.subrange(i as int, self.keys@.len() as int);
                assert(rest.drop_first() =~= self.keys@.subrange(i + 1, self.keys@.len() as int));
            }
            if key.same_as(&self.keys[i]) {
                return Some(i);
            }
            i += 1;
        }
        None
    }
}

} // verus!
