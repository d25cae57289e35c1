//! An in-order cursor over a tree's entries: descend once to the leftmost
//! leaf, yield its entries, then follow each leaf's `next` to the one after.
//!
//! The cursor holds no reference to the tree: each call to
//! [`ScanIter::next`] is handed the pages, so whoever guards them can lock
//! for one step at a time. A scan is not a snapshot; the law it keeps is for
//! a tree that does not change between steps.

use vstd::prelude::*;

use crate::btree::{nodes_of, read_node, BTree, Initialized, PagerState};
use crate::chain::{chain_entries, chained, lemma_chain_at, lemma_chain_entries_step};
use crate::error::{DbError, PageId};
use crate::key::Key;
use crate::node::Node;
use crate::seg::lemma_wf_seg;
use crate::tree::{child_after, child_hi, child_lo, first_leaf, leaf_entries, leaves, wf, wf_child, Entry};
use crate::value::{lemma_views, Value};

verus! {

/// A scan's position: the page being read and the index within it;
/// `None` once the scan is exhausted or has failed.
pub type Cursor = Option<(PageId, usize)>;

/// What [`step`] found at a cursor position.
#[derive(Debug, PartialEq, Eq, Structural)]
pub enum Step {
    /// Yield the entry at this index of the current leaf.
    Yield(usize),
    /// Move the cursor to this page and continue.
    Goto(PageId),
    /// The walk is over: no more pages to visit.
    Stop,
}

/// One step of the leaf-chain walk: at an internal node, go to its first
/// child; in a leaf, yield the entry at `idx` if there is one, and
/// otherwise go to the next leaf, or stop after the last.
pub fn step<K>(node: &Node<K>, idx: usize) -> (r: Step)
    ensures
        !node.is_leaf ==> r == (if node.children@.len() > 0 {
            Step::Goto(node.children@[0])
        } else {
            Step::Stop
        }),
        node.is_leaf ==> r == (if idx < node.keys@.len() {
            Step::Yield(idx)
        } else {
            match node.next {
                Some(sibling) => Step::Goto(sibling),
                None => Step::Stop,
            }
        }),
{
    if !node.is_leaf {
        return if node.children.len() > 0 {
            Step::Goto(node.children[0])
        } else {
            Step::Stop
        };
    }
    if idx < node.keys.len() {
        Step::Yield(idx)
    } else {
        match node.next {
            Some(sibling) => Step::Goto(sibling),
            None => Step::Stop,
        }
    }
}

/// An in-order cursor over a tree's entries, driven one entry at a time by
/// [`ScanIter::next`].
pub struct ScanIter<K> {
    cursor: Cursor,
    level: u64,
    hi: Ghost<Option<int>>,
    after: Ghost<Option<PageId>>,
    leaf: Ghost<int>,
    seen: Ghost<Seq<Entry<K>>>,
}

impl<K: Key> ScanIter<K> {
    /// The entries yielded so far, in order.
    pub closed spec fn seen(&self) -> Seq<Entry<K>> {
        self.seen@
    }

    /// The cursor's position.
    pub closed spec fn position(&self) -> Cursor {
        self.cursor
    }

    /// The cursor is where a walk of the tree in `st` that has yielded
    /// `seen()` would be.
    pub closed spec fn valid_for(&self, st: &PagerState) -> bool {
        let m = st.nodes::<K>();
        let h = st.height as int;
        let ls = leaves(m, st.root_id, h);
        match self.cursor {
            None => self.seen@ == st.contents::<K>(),
            Some((p, i)) => if self.level > 0 {
                &&& wf(m, p, self.level as int, None, self.hi@, self.after@)
                &&& first_leaf(m, p, self.level as int) == ls[0]
                &&& self.seen@ == Seq::<Entry<K>>::empty()
            } else {
                &&& 0 <= self.leaf@ < ls.len()
                &&& p == ls[self.leaf@]
                &&& i <= m[p].keys.len()
                &&& self.seen@ == chain_entries(m, ls.take(self.leaf@)) + leaf_entries(m[p]).take(i as int)
            },
        }
    }

    /// A scan that has run to its end has yielded every entry of the tree,
    /// in order.
    pub proof fn lemma_finished(&self, st: &PagerState)
        requires
            self.valid_for(st),
            self.position() is None,
        ensures
            self.seen() == st.contents::<K>(),
    {
    }

    /// Starts a scan at the root of the tree in `st`.
    pub fn new(st: &PagerState) -> (r: Self)
        ensures
            r.seen() == Seq::<Entry<K>>::empty(),
            r.position() == Some((st.root_id, 0usize)),
            st.tree_wf::<K>() ==> r.valid_for(st),
    {
        let r = ScanIter {
            cursor: Some((st.root_id, 0)),
            level: st.height,
            hi: Ghost(None),
            after: Ghost(None),
            leaf: Ghost(0),
            seen: Ghost(Seq::empty()),
        };
        proof {
            if st.tree_wf::<K>() {
                let m = st.nodes::<K>();
                let h = st.height as int;
                crate::chain::lemma_chain_wf(m, st.root_id, h, None, None, None);
                if h == 0 {
                    assert(leaves(m, st.root_id, h) =~= seq![st.root_id]);
                    assert(chain_entries(m, leaves(m, st.root_id, h).take(0)) =~= Seq::<Entry<K>>::empty());
                    assert(leaf_entries(m[st.root_id]).take(0) =~= Seq::<Entry<K>>::empty());
                }
            }
        }
        r
    }

    /// Advances the scan, reading pages from `st`: the next entry, `None`
    /// when the scan is over, or the error that ended it. After an error the
    /// cursor is cleared, so the next call returns `None` instead of
    /// retrying the page that failed.
    pub fn next(&mut self, st: &PagerState) -> (r: Option<Result<(K, Value), DbError>>)
        ensures
            st.tree_wf::<K>() && old(self).valid_for(st) ==> {
                &&& final(self).valid_for(st)
                &&& match r {
                    None => final(self).seen() == st.contents::<K>() && old(self).seen() == st.contents::<K>(),
                    Some(Ok((k, v))) => final(self).seen() == old(self).seen().push((k, v@)),
                    Some(Err(_)) => false,
                }
            },
            r matches Some(Err(_)) ==> final(self).position() is None,
            old(self).position() is None ==> r is None && final(self).position() is None,
            r is None ==> final(self).position() is None,
    {
        let ghost good = st.tree_wf::<K>() && self.valid_for(st);
        let ghost m = st.nodes::<K>();
        let ghost h = st.height as int;
        let ghost ls = leaves(m, st.root_id, h);
        proof {
            if good {
                crate::btree::lemma_walk_start::<K>(&st.pager, st.root_id, st.height);
            }
        }
        let limit = st.pager.next_page_id();
        let mut moves: u64 = 0;
        loop
            invariant
                good == (st.tree_wf::<K>() && old(self).valid_for(st)),
                m == st.nodes::<K>(),
                m == nodes_of::<K>(&st.pager),
                h == st.height as int,
                ls == leaves(m, st.root_id, h),
                limit == st.pager.next_id(),
                good ==> self.valid_for(st),
                good ==> self.seen@ == old(self).seen@,
                good ==> chained(m, ls, None) && ls.len() <= limit && ls.len() > 0,
                good ==> st.contents::<K>() == chain_entries(m, ls),
                good ==> st.pager.inv(),
                good && self.cursor is Some && self.level == 0 ==> moves <= self.leaf@,
                good && self.cursor is Some && self.level > 0 ==> moves == 0,
                moves <= limit,
                old(self).cursor is None ==> self.cursor is None,
            decreases self.level + (limit - moves),
        {
            let (page_id, idx) = match self.cursor {
                Some(c) => c,
                None => return None,
            };
            proof {
                if good && self.level == 0 {
                    lemma_chain_at(m, ls, None, self.leaf@);
                }
                if good && self.level > 0 {
                    crate::btree::lemma_root_present(m, page_id, self.level as int, None, self.hi@, self.after@);
                    lemma_wf_seg(m, page_id, self.level as int, None, self.hi@, self.after@);
                }
            }
            let node: Node<K> = match read_node(&st.pager, page_id) {
                Ok(n) => n,
                Err(e) => {
                    self.cursor = None;
                    return Some(Err(e));
                },
            };
            proof {
                lemma_views(node.values@);
            }
            match step(&node, idx) {
                Step::Yield(i) => {
                    if i >= node.values.len() || self.level != 0 {
                        self.cursor = None;
                        return Some(Err(DbError::Inconsistent { page: page_id }));
                    }
                    self.cursor = Some((page_id, idx + 1));
                    let item = (node.keys[i].duplicate(), node.values[i].clone());
                    proof {
                        if good {
                            let es = leaf_entries(m[page_id]);
                            assert(es.take(i + 1) =~= es.take(i as int).push(es[i as int]));
                        }
                        self.seen@ = self.seen@.push((item.0, item.1@));
                    }
                    return Some(Ok(item));
                },
                Step::Goto(target) => {
                    if node.is_leaf {
                        if moves >= limit {
                            self.cursor = None;
                            return Some(Err(DbError::Inconsistent { page: page_id }));
                        }
                        moves = moves + 1;
                        proof {
                            if good {
                                let k = self.leaf@;
                                lemma_chain_entries_step(m, ls, k);
                                assert(leaf_entries(m[page_id]).take(idx as int) =~= leaf_entries(m[page_id]));
                                lemma_chain_at(m, ls, None, k + 1);
                                assert(chain_entries(m, ls.take(k + 1)) + leaf_entries(m[target]).take(0)
                                    =~= chain_entries(m, ls.take(k + 1)));
                                self.leaf@ = k + 1;
                            }
                        }
                        self.cursor = Some((target, 0));
                        proof {
                            if good {
                                assert(self.valid_for(st));
                            }
                        }
                    } else {
                        if self.level == 0 {
                            self.cursor = None;
                            return Some(Err(DbError::Inconsistent { page: page_id }));
                        }
                        proof {
                            if good {
                                let lv = self.level as int;
                                crate::tree::lemma_wf_unfold(m, page_id, lv, None, self.hi@, self.after@);
                                assert(wf_child(m, page_id, 0, lv, None, self.hi@, self.after@));
                                let n = m[page_id];
                                assert(target == n.children[0]);
                                self.hi@ = child_hi(self.hi@, n.keys, 0);
                                self.after@ = child_after(m, n, self.after@, 0, lv - 1);
                                if lv - 1 == 0 {
                                    self.leaf@ = 0;
                                    assert(first_leaf(m, target, 0) == target);
                                    crate::btree::lemma_root_present(m, target, 0, None, self.hi@, self.after@);
                                    assert(chain_entries(m, ls.take(0)) =~= Seq::<Entry<K>>::empty());
                                    assert(leaf_entries(m[target]).take(0) =~= Seq::<Entry<K>>::empty());
                                }
                            }
                        }
                        self.level = self.level - 1;
                        self.cursor = Some((target, 0));
                        proof {
                            if good {
                                assert(self.valid_for(st));
                            }
                        }
                    }
                },
                Step::Stop => {
                    self.cursor = None;
                    proof {
                        if good {
                            let k = self.leaf@;
                            lemma_chain_entries_step(m, ls, k);
                            assert(leaf_entries(m[page_id]).take(idx as int) =~= leaf_entries(m[page_id]));
                            assert(ls.take(k + 1) =~= ls);
                        }
                    }
                    return None;
                },
            }
        }
    }
}

impl<K: Key, LockState> BTree<K, Initialized, LockState> {
    /// Starts an in-order cursor over every entry. See [`ScanIter`].
    pub fn scan(&self) -> (r: ScanIter<K>)
        ensures
            r.seen() == Seq::<Entry<K>>::empty(),
            self.wf() ==> r.valid_for(&self.state()),
    {
        let st = self.pager_state();
        proof {
            self.lemma_state();
        }
        ScanIter::new(st)
    }
}

} // verus!
