//! The B+tree over pages: lookups, ordered walks, inserts with splitting,
//! replacing updates, and deletes with borrowing and merging.
//!
//! Values live only in leaves; internal nodes hold routing keys and child
//! page ids; leaves are chained left to right. A tree is typestate-checked:
//! it has no data methods until it is `Initialized`, and no mutating
//! methods while it is `Locked`.

use std::marker::PhantomData;

use vstd::prelude::*;

use crate::codec::Codec;
use crate::error::{DbError, PageId, ValueError};
use crate::key::Key;
use crate::node::{lemma_slot, slot_of, Node, NodeModel, MAX_KEYS, MIN_DEGREE, MIN_KEYS};
use crate::page::{layout_node, lemma_layout_round_trip};
use crate::pager::{encodes_a_node, lemma_written_readable, Pager, CAPACITY, PAGE_SIZE};
use crate::occupancy::{
    lemma_occ_borrow_next, lemma_occ_borrow_prev, lemma_occ_merge, lemma_occ_replace_child, lemma_occ_split,
    lemma_occ_unfold, occupied, root_min,
};
use crate::entries::{lemma_put_at, lemma_put_concat, lemma_put_new};
use crate::reshape::{
    below_fresh, changed_only_under, lemma_changed_trans, lemma_child_entries_bounds,
    lemma_get_in_child, lemma_new_root, lemma_replace_child, lemma_root_shrink, lemma_split,
    lemma_under_self, split_left, split_parent, split_right,
};
use crate::regroup::{
    lemma_borrow_next, lemma_borrow_prev, lemma_merge, lemma_window_start, merged, next_child,
    next_right, next_sep, prev_child, prev_left, with_key, without_child,
};
use crate::seg::{lemma_wf_seg, seg_after, seg_child};
use crate::tree::{
    above, at_most, below, child_after, child_hi, child_lo, entries, entries_list, first_leaf, leaf_entries, leaf_ok,
    lemma_get_step, lemma_seq_get_leaf, lemma_wf_dom, ordered, seq_get, seq_put, seq_remove, seq_set, sorted_strict, wf,
    wf_child, Entry, internal_ok, under,
};
use crate::value::{
    lemma_views, lemma_views_insert, lemma_views_remove, lemma_views_subrange, lemma_views_update, views, TryFromValue,
    Value,
};

verus! {

/// Typestate marker: no root page exists yet; the data methods are not defined.
pub struct Uninitialized;

/// Typestate marker: a root page exists; the data methods are available.
pub struct Initialized;

/// Typestate marker: the mutating methods do not exist on this handle.
pub struct Locked;

/// Typestate marker: the mutating methods are available on this handle.
pub struct Unlocked;

/// The pager and where the tree starts: the root page and the tree's height.
pub struct PagerState {
    /// The pager backing this tree's storage.
    pub pager: Pager,
    /// The page id of the current root node. Changes when the root splits or shrinks.
    pub root_id: PageId,
    /// The number of levels below the root: 0 while the root is a leaf.
    pub height: u64,
}

/// The nodes a pager's written pages hold, read with keys of type `K`.
pub open spec fn nodes_of<K: Key>(p: &Pager) -> Map<PageId, NodeModel<K>> {
    Map::new(
        |id: PageId| p.written().contains_key(id) && layout_node::<K>(p.written()[id]) is Some,
        |id: PageId| layout_node::<K>(p.written()[id])->Some_0,
    )
}

impl PagerState {
    /// The nodes of the tree, by page.
    pub open spec fn nodes<K: Key>(&self) -> Map<PageId, NodeModel<K>> {
        nodes_of::<K>(&self.pager)
    }

    /// The pages form a well-formed B+tree from the root down, every page
    /// holding at most `MAX_KEYS` keys, every page but the root at least
    /// `MIN_KEYS`, and an internal root at least one.
    pub open spec fn tree_wf<K: Key>(&self) -> bool {
        &&& self.pager.inv()
        &&& wf(self.nodes::<K>(), self.root_id, self.height as int, None, None, None)
        &&& occupied(self.nodes::<K>(), self.root_id, self.height as int, root_min(self.height as int))
    }

    /// Every entry of the tree, in key order.
    pub open spec fn contents<K: Key>(&self) -> Seq<Entry<K>> {
        entries(self.nodes::<K>(), self.root_id, self.height as int)
    }
}

/// A disk-backed B+tree, generic over its key type and two compile-time states.
///
/// `State` (`Uninitialized`/`Initialized`) and `LockState` (`Locked`/`Unlocked`)
/// are phantom typestate parameters: a method that makes no sense in a state
/// does not exist in it.
pub struct BTree<K, State = Uninitialized, LockState = Locked> {
    pager_state: PagerState,
    state: PhantomData<State>,
    lock_state: PhantomData<LockState>,
    _marker: PhantomData<K>,
}

impl<K: Key, State, LockState> View for BTree<K, State, LockState> {
    type V = Seq<Entry<K>>;

    /// Every entry of the tree, in key order.
    closed spec fn view(&self) -> Seq<Entry<K>> {
        self.pager_state.contents::<K>()
    }
}

/// Reads a node; a page the tree wrote reads back as what it wrote.
pub(crate) fn read_node<K: Key>(pager: &Pager, id: PageId) -> (r: Result<Node<K>, DbError>)
    ensures
        pager.inv() && nodes_of::<K>(pager).contains_key(id) ==> (r matches Ok(n) && n@ == nodes_of::<
            K,
        >(pager)[id]),
{
    proof {
        if pager.inv() && nodes_of::<K>(pager).contains_key(id) {
            lemma_written_readable(pager, id);
        }
    }
    pager.read_page::<K>(id)
}

/// Writes a node; on success the page holds it, and on failure nothing changed.
fn write_node<K: Key>(pager: &mut Pager, id: PageId, node: &Node<K>) -> (r: Result<(), DbError>)
    ensures
        old(pager).inv() && id < old(pager).next_id() ==> final(pager).inv(),
        final(pager).next_id() == old(pager).next_id(),
        final(pager).codec_name() == old(pager).codec_name(),
        r is Ok ==> nodes_of::<K>(final(pager)) == nodes_of::<K>(old(pager)).insert(id, node@),
        r is Err ==> *final(pager) == *old(pager),
        id >= usize::MAX / PAGE_SIZE ==> r is Err,
        r matches Err(e) ==> (e is Io && id >= usize::MAX / PAGE_SIZE) || (
        e matches DbError::PageOverflow { len, codec, capacity } && len > CAPACITY && capacity == CAPACITY
            && codec == old(pager).codec_name()),
        id < old(pager).next_id() ==> (r matches Err(e) ==> write_failure::<K>(e, *final(pager))),
{
    let ghost before = nodes_of::<K>(pager);
    let r = pager.write_page(id, node);
    proof {
        if r is Ok {
            lemma_layout_round_trip(node@);
            assert(nodes_of::<K>(pager) =~= before.insert(id, node@));
        }
    }
    r
}

impl<K: Key, State, LockState> BTree<K, State, LockState> {
    /// The pages form a well-formed B+tree.
    pub closed spec fn wf(&self) -> bool {
        self.pager_state.tree_wf::<K>()
    }

    /// The pager, root and height underneath this tree.
    pub closed spec fn state(&self) -> PagerState {
        self.pager_state
    }

    /// A tree is well formed when its pages are, and its entries are theirs.
    pub proof fn lemma_state(&self)
        ensures
            self.wf() == self.state().tree_wf::<K>(),
            self@ == self.state().contents::<K>(),
    {
    }

    /// The shared state underlying this tree: its pager, root and height.
    pub fn pager_state(&self) -> (r: &PagerState)
        ensures
            *r == self.state(),
    {
        &self.pager_state
    }

    /// Hands over the ids of the pages written since the last call, oldest
    /// first, for whoever owns the file to write back.
    pub fn take_dirty(&mut self) -> (r: Vec<PageId>)
        ensures
            final(self)@ == old(self)@,
            final(self).wf() == old(self).wf(),
            r@ == old(self).state().pager.dirty(),
            final(self).state().pager.dirty() == Seq::<PageId>::empty(),
            final(self).state().pager.image() == old(self).state().pager.image(),
            final(self).state().root_id == old(self).state().root_id,
            final(self).state().height == old(self).state().height,
    {
        let r = self.pager_state.pager.take_dirty();
        proof {
            assert(nodes_of::<K>(&self.pager_state.pager) =~= nodes_of::<K>(&old(self).pager_state.pager));
        }
        r
    }
}

impl<K: Key> BTree<K, Uninitialized, Locked> {
    /// Opens a tree over `image`, the database file's contents, with the given codec.
    ///
    /// Always allocates a fresh root leaf after the pages already in the
    /// file: the root page id is not persisted, so a reopened file starts a
    /// new, empty tree.
    pub fn new_with_codec(image: Vec<u8>, codec: Box<dyn Codec>) -> (r: Result<
        BTree<K, Initialized, Locked>,
        DbError,
    >)
        ensures
            r matches Ok(t) ==> t.wf() && t@ == Seq::<Entry<K>>::empty(),
            image@.len() / (PAGE_SIZE as nat) >= usize::MAX / PAGE_SIZE ==> r is Err,
            r matches Err(e) ==> (e is Io && image@.len() / (PAGE_SIZE as nat) >= usize::MAX / PAGE_SIZE) || (
            e matches DbError::PageOverflow { len, capacity, .. } && len > CAPACITY && capacity == CAPACITY),
    {
        let mut pager = Pager::open_with(image, codec);
        if pager.next_page_id() == u64::MAX {
            return Err(DbError::Io { message: "page ids exhausted".to_string() });
        }
        let root_id = pager.allocate_page();
        let node: Node<K> = Node::leaf(Vec::new(), Vec::new(), None);
        write_node(&mut pager, root_id, &node)?;
        let state = PagerState { pager, root_id, height: 0 };
        proof {
            let m = state.nodes::<K>();
            assert(m.contains_key(root_id));
            assert(m[root_id] == node@);
            lemma_views(node.values@);
            assert(wf(m, root_id, 0, None, None, None));
            assert(entries(m, root_id, 0) =~= Seq::<Entry<K>>::empty());
        }
        Ok(BTree { pager_state: state, state: PhantomData, lock_state: PhantomData, _marker: PhantomData })
    }
}

impl<K: Key> BTree<K, Initialized, Locked> {
    /// Consumes a `Locked` tree and returns an `Unlocked` one; no I/O.
    pub fn unlock(self) -> (r: BTree<K, Initialized, Unlocked>)
        ensures
            r@ == self@,
            r.wf() == self.wf(),
    {
        BTree {
            pager_state: self.pager_state,
            state: PhantomData,
            lock_state: PhantomData,
            _marker: PhantomData,
        }
    }
}

/// Descends from `root` to the leaf that `key` routes to.
fn descend_to_leaf<K: Key>(pager: &Pager, root: PageId, height: u64, key: &K) -> (r: Result<
    Node<K>,
    DbError,
>)
    ensures
        pager.inv() && wf(nodes_of::<K>(pager), root, height as int, None, None, None) ==> (r matches Ok(
            leaf,
        ) && leaf@.is_leaf && leaf@.values.len() == leaf@.keys.len() && crate::tree::sorted_strict(
            leaf@.keys,
        ) && seq_get(entries(nodes_of::<K>(pager), root, height as int), key.rank()) == seq_get(
            leaf_entries(leaf@),
            key.rank(),
        )),
{
    let ghost m = nodes_of::<K>(pager);
    let ghost good = pager.inv() && wf(m, root, height as int, None, None, None);
    let ghost kr = key.rank();
    let ghost mut lo: Option<int> = None;
    let ghost mut hi: Option<int> = None;
    let ghost mut after: Option<PageId> = None;
    let mut id = root;
    let mut level = height;
    loop
        invariant
            m == nodes_of::<K>(pager),
            kr == key.rank(),
            good == (pager.inv() && wf(m, root, height as int, None, None, None)),
            good ==> pager.inv(),
            good ==> wf(m, id, level as int, lo, hi, after),
            good ==> above(lo, kr) && below(hi, kr),
            good ==> seq_get(entries(m, root, height as int), kr) == seq_get(entries(m, id, level as int), kr),
        decreases level,
    {
        proof {
            if good {
                if level == 0 {
                    assert(crate::tree::leaf_ok(m, id, lo, hi, after));
                    assert(entries(m, id, 0) == leaf_entries(m[id]));
                } else {
                    assert(crate::tree::internal_ok(m, id, level as int, lo, hi));
                    crate::node::lemma_child_index_bound(m[id].keys, kr);
                }
            }
        }
        let node = read_node::<K>(pager, id)?;
        if level == 0 {
            if !node.is_leaf {
                return Err(DbError::Inconsistent { page: id });
            }
            proof {
                if good {
                    assert(node@ == m[id]);
                    assert(seq_get(entries(m, id, level as int), kr) == seq_get(leaf_entries(node@), kr));
                    assert(seq_get(entries(m, root, height as int), kr) == seq_get(leaf_entries(node@), kr));
                }
            }
            return Ok(node);
        }
        if node.is_leaf {
            return Err(DbError::Inconsistent { page: id });
        }
        let i = node.child_index(key);
        if i >= node.children.len() {
            return Err(DbError::Inconsistent { page: id });
        }
        proof {
            if good {
                lemma_get_step(m, id, level as int, lo, hi, after, kr);
                let n = m[id];
                lo = child_lo(lo, n.keys, i as int);
                hi = child_hi(hi, n.keys, i as int);
                after = child_after(m, n, after, i as int, level - 1);
            }
        }
        id = node.children[i];
        level = level - 1;
    }
}

impl<K: Key, LockState> BTree<K, Initialized, LockState> {
    /// Looks up `key` and converts its value to `R`.
    ///
    /// `NotFound` if the key is absent, `TypeMismatch` if the stored value is
    /// not exactly an `R`.
    pub fn get<R: TryFromValue>(&self, key: &K) -> (r: Result<R, DbError>)
        ensures
            self.wf() ==> match seq_get(self@, key.rank()) {
                None => r == Err::<R, DbError>(DbError::Value(ValueError::NotFound)),
                Some(m) => if R::accepts(m) {
                    r is Ok && r->Ok_0.represents(m)
                } else {
                    r == Err::<R, DbError>(DbError::Value(ValueError::TypeMismatch))
                },
            },
    {
        let leaf = descend_to_leaf(
            &self.pager_state.pager,
            self.pager_state.root_id,
            self.pager_state.height,
            key,
        )?;
        proof {
            if self.wf() {
                lemma_seq_get_leaf(leaf@, key.rank());
                lemma_slot(leaf@.keys, key.rank());
                lemma_views(leaf.values@);
            }
        }
        match leaf.slot(key) {
            Some(i) => {
                if i >= leaf.values.len() {
                    return Err(DbError::Inconsistent { page: self.pager_state.root_id });
                }
                let value = leaf.values[i].clone();
                match R::try_from_value(value) {
                    Ok(x) => Ok(x),
                    Err(e) => Err(DbError::Value(e)),
                }
            },
            None => Err(DbError::Value(ValueError::NotFound)),
        }
    }
}

/// Every page the tree holds has an id below the next one to be allocated.
/// A well-formed tree of height `h` has a root-to-leaf path of `h + 1`
/// distinct pages, so its height is below any bound on its page ids.
proof fn lemma_height_below<K: Key>(
    m: Map<PageId, NodeModel<K>>,
    id: PageId,
    h: int,
    lo: Option<int>,
    hi: Option<int>,
    after: Option<PageId>,
    fresh: PageId,
)
    requires
        wf(m, id, h, lo, hi, after),
        below_fresh(m, fresh),
    ensures
        h < fresh,
{
    let path = lemma_root_path(m, id, h, lo, hi, after);
    lemma_wf_dom(m, id, h, lo, hi, after);
    assert forall|k: int| 0 <= k < path.len() implies #[trigger] path[k] < fresh by {
        assert(under(m, id, h, path[k]));
    }
    crate::chain::lemma_distinct_bound(path, fresh);
}

/// The pages from `id` down its first children to a leaf: `h + 1` distinct
/// pages, each under `id`.
proof fn lemma_root_path<K: Key>(
    m: Map<PageId, NodeModel<K>>,
    id: PageId,
    h: int,
    lo: Option<int>,
    hi: Option<int>,
    after: Option<PageId>,
) -> (path: Seq<PageId>)
    requires
        wf(m, id, h, lo, hi, after),
    ensures
        path.len() == h + 1,
        path.no_duplicates(),
        forall|k: int| 0 <= k < path.len() ==> #[trigger] under(m, id, h, path[k]),
    decreases h,
{
    crate::reshape::lemma_under_self(m, id, h);
    if h <= 0 {
        seq![id]
    } else {
        crate::tree::lemma_wf_unfold(m, id, h, lo, hi, after);
        let c = m[id].children[0];
        assert(wf_child(m, id, 0, h, lo, hi, after));
        let rest = lemma_root_path(
            m,
            c,
            h - 1,
            child_lo(lo, m[id].keys, 0),
            child_hi(hi, m[id].keys, 0),
            child_after(m, m[id], after, 0, h - 1),
        );
        let path = seq![id] + rest;
        assert forall|k: int| 0 <= k < path.len() implies #[trigger] under(m, id, h, path[k]) by {
            if k > 0 {
                assert(path[k] == rest[k - 1]);
                crate::tree::lemma_under_child(m, id, h, 0, rest[k - 1]);
            }
        }
        assert forall|a: int, b: int| 0 <= a < path.len() && 0 <= b < path.len() && a != b implies path[a]
            != path[b] by {
            if a == 0 {
                assert(path[b] == rest[b - 1]);
                assert(under(m, c, h - 1, rest[b - 1]));
            } else if b == 0 {
                assert(path[a] == rest[a - 1]);
                assert(under(m, c, h - 1, rest[a - 1]));
            } else {
                assert(path[a] == rest[a - 1] && path[b] == rest[b - 1]);
            }
        }
        path
    }
}

proof fn lemma_nodes_below<K: Key>(pager: &Pager)
    requires
        pager.inv(),
    ensures
        below_fresh(nodes_of::<K>(pager), pager.next_id()),
{
    assert forall|p: PageId| #[trigger] nodes_of::<K>(pager).contains_key(p) implies p < pager.next_id() by {
        lemma_written_readable(pager, p);
    }
}

/// A well-formed tree's root page is one the map holds.
pub(crate) proof fn lemma_root_present<K: Key>(
    m: Map<PageId, NodeModel<K>>,
    id: PageId,
    h: int,
    lo: Option<int>,
    hi: Option<int>,
    after: Option<PageId>,
)
    requires
        wf(m, id, h, lo, hi, after),
    ensures
        m.contains_key(id),
        m[id].is_leaf == (h == 0),
{
    lemma_wf_dom(m, id, h, lo, hi, after);
    lemma_under_self(m, id, h);
}

/// Splits the full child `i` of `parent_id` around its middle key into
/// itself and a newly allocated right sibling, and records the separator
/// and the sibling in the parent.
///
/// The left half keeps the first `MIN_DEGREE - 1` keys. A leaf's right half
/// holds the rest, the separator being a copy of its first key, and the left
/// leaf now links to it; an internal child's middle key moves up into the
/// parent and is in neither half.
pub fn split_child<K: Key>(
    pager: &mut Pager,
    parent_id: PageId,
    i: usize,
    Ghost(h): Ghost<int>,
    Ghost(lo): Ghost<Option<int>>,
    Ghost(hi): Ghost<Option<int>>,
    Ghost(after): Ghost<Option<PageId>>,
) -> (r: Result<(), DbError>)
    ensures
        final(pager).next_id() >= old(pager).next_id(),
        final(pager).codec_name() == old(pager).codec_name(),
        ({
            let m1 = nodes_of::<K>(old(pager));
            let m2 = nodes_of::<K>(final(pager));
            (old(pager).inv() && h > 0 && wf(m1, parent_id, h, lo, hi, after) && i < m1[parent_id].children.len()
                && m1[m1[parent_id].children[i as int]].keys.len() == MAX_KEYS) ==> {
                &&& final(pager).inv()
                &&& r is Ok ==> {
                    &&& wf(m2, parent_id, h, lo, hi, after)
                    &&& entries(m2, parent_id, h) == entries(m1, parent_id, h)
                    &&& first_leaf(m2, parent_id, h) == first_leaf(m1, parent_id, h)
                    &&& changed_only_under(m1, m2, parent_id, h, old(pager).next_id())
                    &&& m2[parent_id] == split_parent(
                        m1[parent_id],
                        i as int,
                        m1[m1[parent_id].children[i as int]].keys[MIN_DEGREE - 1],
                        old(pager).next_id(),
                    )
                    &&& m2[m1[parent_id].children[i as int]] == split_left(
                        m1[m1[parent_id].children[i as int]],
                        old(pager).next_id(),
                    )
                    &&& m2[old(pager).next_id()] == split_right(m1[m1[parent_id].children[i as int]])
                    &&& m2[m1[parent_id].children[i as int]].keys.len() < MAX_KEYS
                    &&& m2[old(pager).next_id()].keys.len() < MAX_KEYS
                    &&& occupied(m1, parent_id, h, 0) && m1[parent_id].keys.len() < MAX_KEYS ==> occupied(
                        m2,
                        parent_id,
                        h,
                        m1[parent_id].keys.len() + 1 as int,
                    )
                }
                &&& r matches Err(e) ==> write_failure::<K>(e, *final(pager))
            }
        }),
{
    let ghost m1 = nodes_of::<K>(pager);
    let ghost fresh = pager.next_id();
    let ghost good = pager.inv() && h > 0 && wf(m1, parent_id, h, lo, hi, after) && i < m1[parent_id].children.len()
        && m1[m1[parent_id].children[i as int]].keys.len() == MAX_KEYS;
    let ghost cs = m1[parent_id].children;
    let ghost ks = m1[parent_id].keys;
    let ghost lo_c = child_lo(lo, ks, i as int);
    let ghost hi_c = child_hi(hi, ks, i as int);
    let ghost after_c = seg_after(m1, cs, after, i as int, h - 1);
    proof {
        if good {
            lemma_nodes_below::<K>(pager);
            lemma_root_present(m1, parent_id, h, lo, hi, after);
            lemma_wf_seg(m1, parent_id, h, lo, hi, after);
            assert(seg_child(m1, cs, ks, h - 1, lo, hi, after, i as int));
            lemma_root_present(m1, cs[i as int], h - 1, lo_c, hi_c, after_c);
        }
    }
    let mut parent: Node<K> = read_node(pager, parent_id)?;
    if i >= parent.children.len() || parent.children.len() - 1 != parent.keys.len() {
        return Err(DbError::Inconsistent { page: parent_id });
    }
    let child_id = parent.children[i];
    proof {
        if good {
            assert(child_id == m1[parent_id].children[i as int]);
        }
    }
    let mut child: Node<K> = read_node(pager, child_id)?;
    proof {
        if good {
            assert(child@ == m1[child_id]);
        }
    }
    if child.keys.len() != MAX_KEYS {
        return Err(DbError::Inconsistent { page: child_id });
    }
    if pager.next_page_id() == u64::MAX {
        return Err(DbError::Io { message: "page ids exhausted".to_string() });
    }
    let ghost cn = child@;
    let right_id = pager.allocate_page();
    let separator = if child.is_leaf {
        proof {
            if good {
                assert(h - 1 == 0);
                assert(leaf_ok(m1, child_id, lo_c, hi_c, after_c));
            }
            lemma_views(child.values@);
        }
        if child.values.len() != child.keys.len() {
            return Err(DbError::Inconsistent { page: child_id });
        }
        let ghost vals = child.values@;
        let right_keys = child.keys.split_off(MIN_DEGREE - 1);
        let right_values = child.values.split_off(MIN_DEGREE - 1);
        let separator = right_keys[0].duplicate();
        assert(separator == cn.keys[4]);
        let right = Node::leaf(right_keys, right_values, child.next);
        child.next = Some(right_id);
        proof {
            lemma_views(vals);
            lemma_views_subrange(vals, 0, 4);
            lemma_views_subrange(vals, 4, 9);
            assert(right.keys@ =~= cn.keys.skip(4));
            assert(views(right.values@) =~= cn.values.skip(4));
            assert(child.keys@ =~= cn.keys.take(4));
            assert(views(child.values@) =~= cn.values.take(4));
            assert(right@ == split_right(cn));
            assert(child@ == split_left(cn, right_id));
        }
        write_node(pager, right_id, &right)?;
        separator
    } else {
        if child.children.len() == 0 || child.children.len() - 1 != child.keys.len() {
            return Err(DbError::Inconsistent { page: child_id });
        }
        let right_keys = child.keys.split_off(MIN_DEGREE);
        let separator = child.keys.pop().unwrap();
        assert(separator == cn.keys[4]);
        let right_children = child.children.split_off(MIN_DEGREE);
        let right = Node::internal(right_keys, right_children);
        proof {
            assert(right@ == split_right(cn));
            assert(child.keys@ =~= cn.keys.take(4));
            assert(child@ == split_left(cn, right_id));
        }
        write_node(pager, right_id, &right)?;
        separator
    };
    assert(separator == cn.keys[4]);
    write_node(pager, child_id, &child)?;
    let ghost pn = parent@;
    parent.keys.insert(i, separator);
    parent.children.insert(i + 1, right_id);
    assert(parent@ == split_parent(pn, i as int, cn.keys[4], right_id));
    write_node(pager, parent_id, &parent)?;
    proof {
        if good {
            lemma_split(m1, nodes_of::<K>(pager), parent_id, h, lo, hi, after, i as int, child_id, right_id, fresh);
            crate::occupancy::lemma_child_excludes(m1, parent_id, h, lo, hi, after, i as int);
            crate::reshape::lemma_under_self(m1, child_id, h - 1);
            assert(child_id != parent_id);
            if occupied(m1, parent_id, h, 0) && m1[parent_id].keys.len() < MAX_KEYS {
                lemma_occ_split(m1, nodes_of::<K>(pager), parent_id, h, lo, hi, after, i as int, child_id, right_id, fresh);
            }
        }
    }
    Ok(())
}

/// Puts `key` and `value` into the leaf `node`, read from page `id`: a new
/// key goes in key order, and a key already present accumulates the value.
fn insert_into_leaf<K: Key>(
    pager: &mut Pager,
    id: PageId,
    mut node: Node<K>,
    key: K,
    value: Value,
    Ghost(lo): Ghost<Option<int>>,
    Ghost(hi): Ghost<Option<int>>,
    Ghost(after): Ghost<Option<PageId>>,
) -> (r: Result<(), DbError>)
    requires
        node.values@.len() == node.keys@.len(),
    ensures
        final(pager).next_id() == old(pager).next_id(),
        final(pager).codec_name() == old(pager).codec_name(),
        ({
            let m1 = nodes_of::<K>(old(pager));
            let m2 = nodes_of::<K>(final(pager));
            (old(pager).inv() && wf(m1, id, 0, lo, hi, after) && above(lo, key.rank()) && below(hi, key.rank())
                && node@ == m1[id]) ==> {
                &&& final(pager).inv()
                &&& r is Ok ==> {
                    &&& wf(m2, id, 0, lo, hi, after)
                    &&& entries(m2, id, 0) == seq_put(entries(m1, id, 0), key, value@)
                    &&& first_leaf(m2, id, 0) == first_leaf(m1, id, 0)
                    &&& changed_only_under(m1, m2, id, 0, old(pager).next_id())
                    &&& m1[id].keys.len() < MAX_KEYS ==> occupied(m2, id, 0, m1[id].keys.len() as int)
                }
                &&& r matches Err(e) ==> write_failure::<K>(e, *final(pager))
            }
        }),
{
    let ghost m1 = nodes_of::<K>(pager);
    let ghost kr = key.rank();
    let ghost good = pager.inv() && wf(m1, id, 0, lo, hi, after) && above(lo, kr) && below(hi, kr) && node@ == m1[id];
    proof {
        if good {
            lemma_root_present(m1, id, 0, lo, hi, after);
            lemma_nodes_below::<K>(pager);
        }
    }
    let ghost n0 = node@;
    let ghost es = leaf_entries(n0);
    proof {
        if good {
            assert(leaf_ok(m1, id, lo, hi, after));
            assert forall|a: int, b: int| 0 <= a < b < es.len() implies #[trigger] es[a].0.rank() < #[trigger] es[b].0.rank() by {
                assert(n0.keys[a].rank() < n0.keys[b].rank());
            }
        }
        lemma_views(node.values@);
    }
    match node.slot(&key) {
        Some(i) => {
            proof {
                crate::node::lemma_slot(node.keys@, kr);
            }
            let ghost vals = node.values@;
            let mut v = node.values.remove(i);
            v.accumulate(value);
            node.values.insert(i, v);
            proof {
                lemma_views_remove(vals, i as int);
                lemma_views_insert(vals.remove(i as int), i as int, v);
                assert(views(node.values@) =~= views(vals).update(i as int, v@));
                assert(leaf_entries(node@) =~= es.update(i as int, (es[i as int].0, v@)));
                if good {
                    lemma_put_at(es, key, value@, i as int);
                }
            }
        },
        None => {
            proof {
                crate::node::lemma_slot(node.keys@, kr);
            }
            let mut i = node.keys.len();
            while i > 0 && key.less_than(&node.keys[i - 1])
                invariant
                    i <= node.keys@.len(),
                    node@ == n0,
                    kr == key.rank(),
                    forall|j: int| i <= j < node.keys@.len() ==> kr < #[trigger] node.keys@[j].rank(),
                decreases i,
            {
                i -= 1;
            }
            let ghost vals = node.values@;
            proof {
                if good {
                    assert forall|j: int| 0 <= j < i implies #[trigger] es[j].0.rank() < kr by {
                        assert(n0.keys[j].rank() <= n0.keys[i - 1].rank());
                        assert(n0.keys[i - 1].rank() <= kr);
                        assert(n0.keys[j].rank() != kr);
                    }
                    assert forall|j: int| i <= j < es.len() implies #[trigger] es[j].0.rank() > kr by {}
                    lemma_put_new(es, key, value@, i as int);
                }
            }
            node.keys.insert(i, key);
            node.values.insert(i, value);
            proof {
                lemma_views_insert(vals, i as int, value);
                assert(leaf_entries(node@) =~= es.insert(i as int, (key, value@)));
                if good {
                    let nk = node.keys@;
                    assert forall|a: int, b: int| 0 <= a < b < nk.len() implies #[trigger] nk[a].rank() < #[trigger] nk[b].rank() by {
                        if b < i {
                            assert(nk[a] == n0.keys[a] && nk[b] == n0.keys[b]);
                        } else if a > i {
                            assert(nk[a] == n0.keys[a - 1] && nk[b] == n0.keys[b - 1]);
                        } else if a == i {
                            assert(nk[b] == n0.keys[b - 1]);
                        } else {
                            assert(nk[a] == n0.keys[a]);
                            if b > i {
                                assert(nk[b] == n0.keys[b - 1]);
                            }
                        }
                    }
                    assert forall|a: int| 0 <= a < nk.len() implies above(lo, #[trigger] nk[a].rank()) && below(hi, nk[a].rank()) by {
                        if a < i {
                            assert(nk[a] == n0.keys[a]);
                        } else if a > i {
                            assert(nk[a] == n0.keys[a - 1]);
                        }
                    }
                }
            }
        },
    }
    let res = write_node(pager, id, &node);
    proof {
        if good && res is Ok {
            let m2 = nodes_of::<K>(pager);
            assert(m2 == m1.insert(id, node@));
            assert(node@.keys.len() == n0.keys.len() || node@.keys.len() == n0.keys.len() + 1);
            assert(leaf_ok(m2, id, lo, hi, after));
            assert(entries(m2, id, 0) == leaf_entries(node@));
            assert forall|p: PageId| #[trigger] m1.contains_key(p) && !crate::tree::under(m1, id, 0, p)
                implies m2.contains_key(p) && m2[p] == m1[p] by {}
        }
    }
    res
}

/// Inserts into the subtree at `id`, which is not full, splitting any full
/// child before descending into it.
fn insert_non_full<K: Key>(
    pager: &mut Pager,
    id: PageId,
    height: u64,
    key: K,
    value: Value,
    Ghost(lo): Ghost<Option<int>>,
    Ghost(hi): Ghost<Option<int>>,
    Ghost(after): Ghost<Option<PageId>>,
) -> (r: Result<(), DbError>)
    ensures
        final(pager).next_id() >= old(pager).next_id(),
        final(pager).codec_name() == old(pager).codec_name(),
        ({
            let m1 = nodes_of::<K>(old(pager));
            let m2 = nodes_of::<K>(final(pager));
            (old(pager).inv() && wf(m1, id, height as int, lo, hi, after) && above(lo, key.rank()) && below(
                hi,
                key.rank(),
            )) ==> {
                &&& final(pager).inv()
                &&& r is Ok ==> {
                    &&& wf(m2, id, height as int, lo, hi, after)
                    &&& entries(m2, id, height as int) == seq_put(entries(m1, id, height as int), key, value@)
                    &&& first_leaf(m2, id, height as int) == first_leaf(m1, id, height as int)
                    &&& changed_only_under(m1, m2, id, height as int, old(pager).next_id())
                    &&& occupied(m1, id, height as int, 0) && m1[id].keys.len() < MAX_KEYS ==> occupied(
                        m2,
                        id,
                        height as int,
                        m1[id].keys.len() as int,
                    )
                }
                &&& r matches Err(e) ==> write_failure::<K>(e, *final(pager))
            }
        }),
    decreases height,
{
    let ghost m1 = nodes_of::<K>(pager);
    let ghost fresh = pager.next_id();
    let ghost kr = key.rank();
    let ghost good = pager.inv() && wf(m1, id, height as int, lo, hi, after) && above(lo, kr) && below(hi, kr);
    proof {
        if good {
            lemma_nodes_below::<K>(pager);
            lemma_root_present(m1, id, height as int, lo, hi, after);
        }
    }
    let mut node: Node<K> = read_node(pager, id)?;
    proof {
        lemma_views(node.values@);
        if good && height == 0 {
            assert(leaf_ok(m1, id, lo, hi, after));
        }
    }
    if node.is_leaf {
        if height != 0 || node.values.len() != node.keys.len() {
            return Err(DbError::Inconsistent { page: id });
        }
        return insert_into_leaf(pager, id, node, key, value, Ghost(lo), Ghost(hi), Ghost(after));
    }
    proof {
        if good {
            assert(height > 0);
            lemma_wf_seg(m1, id, height as int, lo, hi, after);
        }
    }
    if height == 0 || node.children.len() == 0 || node.children.len() - 1 != node.keys.len() {
        return Err(DbError::Inconsistent { page: id });
    }
    let mut i = node.child_index(&key);
    proof {
        crate::node::lemma_child_index_bound(node.keys@, kr);
        if good {
            lemma_get_step(m1, id, height as int, lo, hi, after, kr);
        }
    }
    let ghost i0 = i;
    let child_id = node.children[i];
    let child: Node<K> = read_node(pager, child_id)?;
    if child.is_full() {
        proof {
            if good {
                let cs = m1[id].children;
                let ks = m1[id].keys;
                assert(wf_child(m1, id, i as int, height as int, lo, hi, after));
                lemma_root_present(
                    m1,
                    cs[i as int],
                    height - 1,
                    child_lo(lo, ks, i as int),
                    child_hi(hi, ks, i as int),
                    child_after(m1, m1[id], after, i as int, height - 1),
                );
            }
        }
        split_child::<K>(pager, id, i, Ghost(height as int), Ghost(lo), Ghost(hi), Ghost(after))?;
        proof {
            if good {
                lemma_root_present(nodes_of::<K>(pager), id, height as int, lo, hi, after);
            }
        }
        node = read_node(pager, id)?;
        if i >= node.keys.len() || node.children.len() == 0 || node.children.len() - 1 != node.keys.len() {
            return Err(DbError::Inconsistent { page: id });
        }
        if !key.less_than(&node.keys[i]) {
            i += 1;
        }
        proof {
            if good {
                let ks = m1[id].keys;
                let ks2 = node.keys@;
                assert(ks2 == ks.insert(i0 as int, ks2[i0 as int]));
                if i0 > 0 {
                    assert(ks2[i0 - 1] == ks[i0 - 1]);
                }
                if i0 < ks.len() {
                    assert(ks2[i0 + 1] == ks[i0 as int]);
                }
                assert(above(child_lo(lo, ks2, i as int), kr));
                assert(below(child_hi(hi, ks2, i as int), kr));
                if occupied(m1, id, height as int, 0) && m1[id].keys.len() < MAX_KEYS {
                    let m2x = nodes_of::<K>(pager);
                    assert(node.children@ == m1[id].children.insert(i0 as int + 1, fresh));
                    assert(node.children@[i as int] == m1[id].children[i0 as int] || node.children@[i as int]
                        == fresh);
                    assert(m2x[node.children@[i as int]].keys.len() < MAX_KEYS);
                }
            }
        }
    } else {
        proof {
            if good && occupied(m1, id, height as int, 0) && m1[id].keys.len() < MAX_KEYS {
                let cs = m1[id].children;
                let ks = m1[id].keys;
                crate::tree::lemma_wf_unfold(m1, id, height as int, lo, hi, after);
                assert(wf_child(m1, id, i as int, height as int, lo, hi, after));
                lemma_root_present(
                    m1,
                    cs[i as int],
                    height - 1,
                    child_lo(lo, ks, i as int),
                    child_hi(hi, ks, i as int),
                    child_after(m1, m1[id], after, i as int, height - 1),
                );
                lemma_occ_unfold(m1, id, height as int, 0);
                assert(occupied(m1, cs[i as int], height - 1, MIN_KEYS as int));
                assert(child@ == m1[cs[i as int]]);
            }
        }
    }
    let ghost m2 = nodes_of::<K>(pager);
    let ghost fresh2 = pager.next_id();
    let ghost roomy = occupied(m1, id, height as int, 0) && m1[id].keys.len() < MAX_KEYS;
    proof {
        if good && roomy {
            crate::tree::lemma_wf_unfold(m1, id, height as int, lo, hi, after);
            lemma_occ_unfold(m1, id, height as int, 0);
            assert(occupied(m2, id, height as int, m2[id].keys.len() as int));
            assert(m2[node.children@[i as int]].keys.len() < MAX_KEYS);
        }
    }
    let ghost lo_i = child_lo(lo, node.keys@, i as int);
    let ghost hi_i = child_hi(hi, node.keys@, i as int);
    let ghost after_i = child_after(m2, node@, after, i as int, height - 1);
    let ghost gkey = key;
    let ghost gval = value@;
    proof {
        if good {
            assert(node@ == m2[id]);
            assert(wf(m2, id, height as int, lo, hi, after));
            assert(above(lo_i, kr) && below(hi_i, kr));
            crate::tree::lemma_wf_unfold(m2, id, height as int, lo, hi, after);
            assert(wf_child(m2, id, i as int, height as int, lo, hi, after));
            lemma_nodes_below::<K>(pager);
        }
    }
    let next_id = node.children[i];
    let res = insert_non_full(pager, next_id, height - 1, key, value, Ghost(lo_i), Ghost(hi_i), Ghost(after_i));
    proof {
        if good && res is Ok {
            let m3 = nodes_of::<K>(pager);
            let h = height as int;
            lemma_replace_child(m2, m3, id, h, lo, hi, after, i as int, fresh2);
            lemma_child_entries_bounds(m2, id, h, lo, hi, after, i as int, kr);
            let cs2 = m2[id].children;
            lemma_put_concat(
                entries_list(m2, cs2.take(i as int), h - 1),
                entries(m2, cs2[i as int], h - 1),
                entries_list(m2, cs2.skip(i as int + 1), h - 1),
                gkey,
                gval,
            );
            lemma_changed_trans(m1, m2, m3, id, h, fresh, fresh2);
            if roomy {
                let c = m2[id].children[i as int];
                lemma_occ_unfold(m2, id, h, m2[id].keys.len() as int);
                assert(occupied(m2, c, h - 1, MIN_KEYS as int));
                assert(occupied(m3, c, h - 1, MIN_KEYS as int));
                lemma_occ_replace_child(m2, m3, id, h, lo, hi, after, i as int, fresh2, m2[id].keys.len() as int);
            }
        }
    }
    res
}

/// Inserts under the lock: grows the tree by a level first if the root is
/// full, then inserts from the root down.
fn insert_locked<K: Key>(state: &mut PagerState, key: K, value: Value) -> (r: Result<(), DbError>)
    ensures
        old(state).tree_wf::<K>() ==> match r {
            Ok(_) => final(state).tree_wf::<K>() && final(state).contents::<K>() == seq_put(
                old(state).contents::<K>(),
                key,
                value@,
            ),
            Err(e) => write_failure::<K>(e, final(state).pager),
        },
        final(state).pager.codec_name() == old(state).pager.codec_name(),
{
    let ghost m1 = state.nodes::<K>();
    let ghost good = state.tree_wf::<K>();
    let ghost h0 = state.height as int;
    let ghost root0 = state.root_id;
    proof {
        if good {
            lemma_root_present(m1, root0, h0, None, None, None);
            lemma_nodes_below::<K>(&state.pager);
        }
    }
    let root_id = state.root_id;
    let root_is_full: bool = {
        let node: Node<K> = read_node(&state.pager, root_id)?;
        proof {
            if good {
                assert(node@ == m1[root_id]);
            }
        }
        node.is_full()
    };
    if root_is_full {
        proof {
            if good {
                lemma_height_below(m1, root0, h0, None, None, None, state.pager.next_id());
            }
        }
        if state.height == u64::MAX {
            return Err(DbError::Io { message: "tree height exhausted".to_string() });
        }
        if state.pager.next_page_id() == u64::MAX {
            return Err(DbError::Io { message: "page ids exhausted".to_string() });
        }
        let new_root_node: Node<K> = Node::internal(Vec::new(), vec![root_id]);
        let new_root_id = state.pager.allocate_page();
        write_node(&mut state.pager, new_root_id, &new_root_node)?;
        proof {
            if good {
                let m2 = nodes_of::<K>(&state.pager);
                assert(new_root_node@.keys =~= Seq::<K>::empty());
                assert(new_root_node@.values =~= Seq::<crate::value::ValueModel>::empty()) by {
                    lemma_views(new_root_node.values@);
                }
                assert(new_root_node@.children =~= seq![root_id]);
                assert(new_root_node@ == NodeModel::<K> {
                    keys: Seq::empty(),
                    values: Seq::empty(),
                    children: seq![root_id],
                    next: None,
                    is_leaf: false,
                });
                assert(m2 == m1.insert(new_root_id, new_root_node@));
                lemma_new_root(m1, m2, root_id, h0, new_root_id);
                assert(m2[new_root_id].children[0] == root_id);
                assert(m2[root_id] == m1[root_id]);
                crate::occupancy::lemma_fresh_excluded(m1, root_id, h0, None, None, None, new_root_id);
                lemma_wf_dom(m1, root_id, h0, None, None, None);
                crate::occupancy::lemma_occ_untouched(m1, m2, root_id, h0, None, None, None, MIN_KEYS as int);
                assert(occupied(m2, root_id, h0, MIN_KEYS as int));
                crate::tree::lemma_wf_unfold(m2, new_root_id, h0 + 1, None, None, None);
                lemma_occ_unfold(m2, new_root_id, h0 + 1, 0);
                assert(occupied(m2, new_root_id, h0 + 1, 0));
            }
        }
        split_child::<K>(&mut state.pager, new_root_id, 0, Ghost(h0 + 1), Ghost(None), Ghost(None), Ghost(None))?;
        state.root_id = new_root_id;
        state.height = state.height + 1;
    }
    let root_id = state.root_id;
    let height = state.height;
    proof {
        if good {
            let m = state.nodes::<K>();
            assert(occupied(m, root_id, height as int, root_min(height as int)));
            assert(m[root_id].keys.len() < MAX_KEYS);
        }
    }
    insert_non_full(&mut state.pager, root_id, height, key, value, Ghost(None), Ghost(None), Ghost(None))
}

/// Replaces the value of `key` under `id` if the key is there; says whether it was.
fn update_node<K: Key>(
    pager: &mut Pager,
    id: PageId,
    height: u64,
    key: &K,
    value: &Value,
    Ghost(lo): Ghost<Option<int>>,
    Ghost(hi): Ghost<Option<int>>,
    Ghost(after): Ghost<Option<PageId>>,
) -> (r: Result<bool, DbError>)
    ensures
        final(pager).next_id() == old(pager).next_id(),
        final(pager).codec_name() == old(pager).codec_name(),
        ({
            let m1 = nodes_of::<K>(old(pager));
            let m2 = nodes_of::<K>(final(pager));
            (old(pager).inv() && wf(m1, id, height as int, lo, hi, after) && above(lo, key.rank()) && below(
                hi,
                key.rank(),
            )) ==> {
                &&& final(pager).inv()
                &&& seq_get(entries(m1, id, height as int), key.rank()) is None ==> r == Ok::<bool, DbError>(false)
                &&& r is Err ==> *final(pager) == *old(pager)
                &&& match r {
                    Ok(true) => {
                        &&& wf(m2, id, height as int, lo, hi, after)
                        &&& entries(m2, id, height as int) == seq_set(entries(m1, id, height as int), *key, value@)
                        &&& first_leaf(m2, id, height as int) == first_leaf(m1, id, height as int)
                        &&& changed_only_under(m1, m2, id, height as int, old(pager).next_id())
                        &&& occupied(m1, id, height as int, 0) ==> occupied(
                            m2,
                            id,
                            height as int,
                            m1[id].keys.len() as int,
                        )
                    },
                    Ok(false) => {
                        &&& *final(pager) == *old(pager)
                        &&& seq_get(entries(m1, id, height as int), key.rank()) is None
                    },
                    Err(e) => write_failure::<K>(e, *final(pager)),
                }
            }
        }),
    decreases height,
{
    let ghost m1 = nodes_of::<K>(pager);
    let ghost fresh = pager.next_id();
    let ghost kr = key.rank();
    let ghost good = pager.inv() && wf(m1, id, height as int, lo, hi, after) && above(lo, kr) && below(hi, kr);
    proof {
        if good {
            lemma_nodes_below::<K>(pager);
            lemma_root_present(m1, id, height as int, lo, hi, after);
        }
    }
    let mut node: Node<K> = read_node(pager, id)?;
    proof {
        lemma_views(node.values@);
        if good && height == 0 {
            assert(leaf_ok(m1, id, lo, hi, after));
        }
    }
    if node.is_leaf {
        if height != 0 || node.values.len() != node.keys.len() {
            return Err(DbError::Inconsistent { page: id });
        }
        proof {
            if good {
                lemma_seq_get_leaf(node@, kr);
            }
            crate::node::lemma_slot(node.keys@, kr);
        }
        return match node.slot(key) {
            Some(i) => {
                let ghost n0 = node@;
                let ghost es = leaf_entries(n0);
                let ghost vals = node.values@;
                node.values.set(i, value.clone());
                proof {
                    lemma_views_update(vals, i as int, node.values@[i as int]);
                    assert(node.values@ =~= vals.update(i as int, node.values@[i as int]));
                    assert(leaf_entries(node@) =~= es.update(i as int, (es[i as int].0, value@)));
                    if good {
                        assert forall|a: int, b: int| 0 <= a < b < es.len() implies #[trigger] es[a].0.rank()
                            < #[trigger] es[b].0.rank() by {
                            assert(n0.keys[a].rank() < n0.keys[b].rank());
                        }
                        crate::entries::lemma_put_at(es, *key, value@, i as int);
                    }
                }
                let res = write_node(pager, id, &node);
                proof {
                    if good && res is Ok {
                        let m2 = nodes_of::<K>(pager);
                        assert(node@.keys == n0.keys);
                        assert(leaf_ok(m2, id, lo, hi, after));
                        assert(entries(m2, id, 0) == leaf_entries(node@));
                        assert forall|p: PageId| #[trigger] m1.contains_key(p) && !crate::tree::under(m1, id, 0, p)
                            implies m2.contains_key(p) && m2[p] == m1[p] by {}
                    }
                }
                match res {
                    Ok(()) => Ok(true),
                    Err(e) => Err(e),
                }
            },
            None => Ok(false),
        };
    }
    proof {
        if good {
            assert(height > 0);
            lemma_wf_seg(m1, id, height as int, lo, hi, after);
        }
    }
    if height == 0 || node.children.len() == 0 || node.children.len() - 1 != node.keys.len() {
        return Err(DbError::Inconsistent { page: id });
    }
    let i = node.child_index(key);
    proof {
        crate::node::lemma_child_index_bound(node.keys@, kr);
        if good {
            lemma_get_step(m1, id, height as int, lo, hi, after, kr);
        }
    }
    let ghost lo_i = child_lo(lo, node.keys@, i as int);
    let ghost hi_i = child_hi(hi, node.keys@, i as int);
    let ghost after_i = child_after(m1, node@, after, i as int, height - 1);
    let child_id = node.children[i];
    let res = update_node(pager, child_id, height - 1, key, value, Ghost(lo_i), Ghost(hi_i), Ghost(after_i));
    proof {
        if good && res matches Ok(true) {
            let m2 = nodes_of::<K>(pager);
            let h = height as int;
            lemma_replace_child(m1, m2, id, h, lo, hi, after, i as int, fresh);
            lemma_child_entries_bounds(m1, id, h, lo, hi, after, i as int, kr);
            let cs = m1[id].children;
            lemma_put_concat(
                entries_list(m1, cs.take(i as int), h - 1),
                entries(m1, cs[i as int], h - 1),
                entries_list(m1, cs.skip(i as int + 1), h - 1),
                *key,
                value@,
            );
            if occupied(m1, id, h, 0) {
                crate::tree::lemma_wf_unfold(m1, id, h, lo, hi, after);
                lemma_occ_unfold(m1, id, h, m1[id].keys.len() as int);
                assert(occupied(m1, cs[i as int], h - 1, MIN_KEYS as int));
                assert(occupied(m2, cs[i as int], h - 1, MIN_KEYS as int));
                lemma_occ_replace_child(m1, m2, id, h, lo, hi, after, i as int, fresh, m1[id].keys.len() as int);
            }
        }
    }
    res
}

impl<K: Key> BTree<K, Initialized, Unlocked> {
    /// Consumes an `Unlocked` tree and returns a `Locked` one; no I/O.
    pub fn lock(self) -> (r: BTree<K, Initialized, Locked>)
        ensures
            r@ == self@,
            r.wf() == self.wf(),
    {
        BTree {
            pager_state: self.pager_state,
            state: PhantomData,
            lock_state: PhantomData,
            _marker: PhantomData,
        }
    }

    /// Inserts `value` under `key`.
    ///
    /// If `key` already holds a value, the new value is accumulated rather
    /// than overwriting it: repeated `put`s of one key fold every value into
    /// one [`Value::Multi`], readable back as `Vec<Value>`. Use
    /// [`BTree::update`] to replace instead.
    pub fn put(&mut self, key: K, value: Value) -> (r: Result<(), DbError>)
        ensures
            old(self).wf() ==> match r {
                Ok(_) => final(self).wf() && final(self)@ == seq_put(old(self)@, key, value@),
                Err(e) => write_failure::<K>(e, final(self).state().pager),
            },
            final(self).state().pager.codec_name() == old(self).state().pager.codec_name(),
    {
        insert_locked(&mut self.pager_state, key, value)
    }

    /// Removes `key` if present, returning `(true, Some(previous_value))`, or
    /// `(false, None)` if it was absent.
    ///
    /// Every child the delete descends into is refilled first, so a delete
    /// can shrink the tree: a root left with no separator hands the tree to
    /// its one child.
    pub fn delete(&mut self, key: K) -> (r: Result<(bool, Option<Value>), DbError>)
        ensures
            old(self).wf() ==> match r {
                Ok((found, v)) => {
                    &&& final(self).wf()
                    &&& final(self)@ == seq_remove(old(self)@, key.rank())
                    &&& found == (seq_get(old(self)@, key.rank()) is Some)
                    &&& match v {
                        Some(x) => seq_get(old(self)@, key.rank()) == Some(x@),
                        None => seq_get(old(self)@, key.rank()) is None,
                    }
                },
                Err(e) => write_failure::<K>(e, final(self).state().pager),
            },
            old(self).wf() && seq_get(old(self)@, key.rank()) is None && path_has_spare(
                old(self).state().nodes::<K>(),
                old(self).state().root_id,
                old(self).state().height as int,
                key.rank(),
            ) ==> r == Ok::<(bool, Option<Value>), DbError>((false, None)) && final(self).state() == old(
                self,
            ).state() && final(self)@ == old(self)@,
            old(self).wf() && path_has_spare(
                old(self).state().nodes::<K>(),
                old(self).state().root_id,
                old(self).state().height as int,
                key.rank(),
            ) && r is Err ==> final(self).state() == old(self).state() && final(self)@ == old(self)@,
            final(self).state().pager.codec_name() == old(self).state().pager.codec_name(),
    {
        let ghost good = self.wf();
        let root_id = self.pager_state.root_id;
        let height = self.pager_state.height;
        let result = delete_node(&mut self.pager_state.pager, root_id, height, key, Ghost(None), Ghost(None), Ghost(None))?;
        proof {
            if good {
                lemma_root_present(self.pager_state.nodes::<K>(), root_id, height as int, None, None, None);
            }
        }
        let root: Node<K> = read_node(&self.pager_state.pager, root_id)?;
        proof {
            if good {
                let m2 = self.pager_state.nodes::<K>();
                assert(root@ == m2[root_id]);
                if height == 0 {
                    assert(occupied(m2, root_id, 0, 0));
                }
            }
        }
        if !root.is_leaf && root.keys.len() == 0 {
            if root.children.len() == 0 || height == 0 {
                return Err(DbError::Inconsistent { page: root_id });
            }
            proof {
                if good {
                    let m2 = self.pager_state.nodes::<K>();
                    lemma_root_shrink(m2, root_id, height as int);
                    crate::tree::lemma_wf_unfold(m2, root_id, height as int, None, None, None);
                    lemma_occ_unfold(m2, root_id, height as int, root.keys@.len() - 1);
                    assert(occupied(m2, m2[root_id].children[0], height - 1, MIN_KEYS as int));
                }
            }
            self.pager_state.root_id = root.children[0];
            self.pager_state.height = height - 1;
        }
        Ok(result)
    }

    /// Replaces the value at `key` if it exists, otherwise inserts it.
    ///
    /// Unlike [`BTree::put`], an `update` of a key already present discards
    /// whatever was there, an accumulator built by `put` included.
    pub fn update(&mut self, key: K, value: Value) -> (r: Result<(), DbError>)
        ensures
            old(self).wf() ==> match r {
                Ok(_) => final(self).wf() && final(self)@ == seq_set(old(self)@, key, value@),
                Err(e) => write_failure::<K>(e, final(self).state().pager),
            },
            old(self).wf() && seq_get(old(self)@, key.rank()) is Some && r is Err ==> final(self).state() == old(
                self,
            ).state() && final(self)@ == old(self)@,
            final(self).state().pager.codec_name() == old(self).state().pager.codec_name(),
    {
        let ghost good = self.wf();
        let ghost before = self@;
        let root_id = self.pager_state.root_id;
        let height = self.pager_state.height;
        let found = update_node(&mut self.pager_state.pager, root_id, height, &key, &value, Ghost(None), Ghost(None), Ghost(None))?;
        if found {
            return Ok(());
        }
        proof {
            if good {
                crate::entries::lemma_put_set_absent(before, key, value@);
            }
        }
        insert_locked(&mut self.pager_state, key, value)
    }
}

/// Moves the last entry (or child) of the left sibling of child `idx` into it.
fn borrow_from_prev<K: Key>(
    pager: &mut Pager,
    parent_id: PageId,
    idx: usize,
    Ghost(hp): Ghost<int>,
    Ghost(lo): Ghost<Option<int>>,
    Ghost(hi): Ghost<Option<int>>,
    Ghost(after): Ghost<Option<PageId>>,
) -> (r: Result<(), DbError>)
    ensures
        final(pager).next_id() == old(pager).next_id(),
        final(pager).codec_name() == old(pager).codec_name(),
        ({
            let m1 = nodes_of::<K>(old(pager));
            let m2 = nodes_of::<K>(final(pager));
            (old(pager).inv() && hp > 0 && wf(m1, parent_id, hp, lo, hi, after) && 0 < idx
                < m1[parent_id].children.len() && m1[m1[parent_id].children[idx - 1]].keys.len() > 0) ==> {
                &&& final(pager).inv()
                &&& r is Ok ==> {
                    &&& wf(m2, parent_id, hp, lo, hi, after)
                    &&& entries(m2, parent_id, hp) == entries(m1, parent_id, hp)
                    &&& first_leaf(m2, parent_id, hp) == first_leaf(m1, parent_id, hp)
                    &&& changed_only_under(m1, m2, parent_id, hp, old(pager).next_id())
                    &&& m2[parent_id].children == m1[parent_id].children
                    &&& m2[parent_id].keys == m1[parent_id].keys.update(idx - 1, m2[parent_id].keys[idx - 1])
                    &&& m2[parent_id].keys[idx - 1].rank() <= m1[parent_id].keys[idx - 1].rank()
                    &&& m2 == m1.insert(
                        m1[parent_id].children[idx as int],
                        prev_child(
                            m1[m1[parent_id].children[idx - 1]],
                            m1[m1[parent_id].children[idx as int]],
                            m1[parent_id].keys[idx - 1],
                        ),
                    ).insert(m1[parent_id].children[idx - 1], prev_left(m1[m1[parent_id].children[idx - 1]])).insert(
                        parent_id,
                        with_key(m1[parent_id], idx - 1, m1[m1[parent_id].children[idx - 1]].keys.last()),
                    )
                }
                &&& r matches Err(e) ==> write_failure::<K>(e, *final(pager))
            }
        }),
{
    let ghost m1 = nodes_of::<K>(pager);
    let ghost fresh = pager.next_id();
    let ghost good = pager.inv() && hp > 0 && wf(m1, parent_id, hp, lo, hi, after) && 0 < idx
        < m1[parent_id].children.len() && m1[m1[parent_id].children[idx - 1]].keys.len() > 0;
    proof {
        if good {
            lemma_nodes_below::<K>(pager);
            lemma_window_start(m1, parent_id, hp, lo, hi, after, idx - 1);
        }
    }
    let mut parent: Node<K> = read_node(pager, parent_id)?;
    if idx == 0 || idx >= parent.children.len() || parent.children.len() - 1 != parent.keys.len() {
        return Err(DbError::Inconsistent { page: parent_id });
    }
    let child_id = parent.children[idx];
    let left_id = parent.children[idx - 1];
    let mut child: Node<K> = read_node(pager, child_id)?;
    let mut left: Node<K> = read_node(pager, left_id)?;
    let ghost pn = parent@;
    let ghost cn = child@;
    let ghost ln = left@;
    proof {
        lemma_views(child.values@);
        lemma_views(left.values@);
    }
    if child.is_leaf {
        if left.keys.len() == 0 || left.values.len() != left.keys.len() {
            return Err(DbError::Inconsistent { page: left_id });
        }
        let ghost lvals = left.values@;
        let ghost cvals = child.values@;
        let key = left.keys.pop().unwrap();
        let value = left.values.pop().unwrap();
        child.keys.insert(0, key);
        child.values.insert(0, value);
        let separator = child.keys[0].duplicate();
        parent.keys.set(idx - 1, separator);
        proof {
            lemma_views_subrange(lvals, 0, lvals.len() - 1);
            assert(left.values@ =~= lvals.subrange(0, lvals.len() - 1));
            assert(views(left.values@) =~= ln.values.drop_last());
            lemma_views_insert(cvals, 0, value);
            assert(views(child.values@) =~= seq![ln.values.last()] + cn.values);
            assert(child.keys@ =~= seq![ln.keys.last()] + cn.keys);
            if good {
                assert(left@ == prev_left(ln));
                assert(child@ == prev_child(ln, cn, pn.keys[idx - 1]));
                assert(parent@ == with_key(pn, idx - 1, ln.keys.last()));
            }
        }
    } else {
        if left.keys.len() == 0 || left.children.len() == 0 {
            return Err(DbError::Inconsistent { page: left_id });
        }
        let down = parent.keys[idx - 1].duplicate();
        child.keys.insert(0, down);
        let moved_child = left.children.pop().unwrap();
        child.children.insert(0, moved_child);
        let up = left.keys.pop().unwrap();
        parent.keys.set(idx - 1, up);
        proof {
            assert(child.keys@ =~= seq![pn.keys[idx - 1]] + cn.keys);
            assert(child.children@ =~= seq![ln.children.last()] + cn.children);
            if good {
                assert(left@ == prev_left(ln));
                assert(child@ == prev_child(ln, cn, pn.keys[idx - 1]));
                assert(parent@ == with_key(pn, idx - 1, ln.keys.last()));
            }
        }
    }
    write_node(pager, child_id, &child)?;
    write_node(pager, left_id, &left)?;
    write_node(pager, parent_id, &parent)?;
    proof {
        if good {
            lemma_borrow_prev(m1, nodes_of::<K>(pager), parent_id, hp, lo, hi, after, idx as int, fresh);
        }
    }
    Ok(())
}

/// Moves the first entry (or child) of the right sibling of child `idx` into it.
fn borrow_from_next<K: Key>(
    pager: &mut Pager,
    parent_id: PageId,
    idx: usize,
    Ghost(hp): Ghost<int>,
    Ghost(lo): Ghost<Option<int>>,
    Ghost(hi): Ghost<Option<int>>,
    Ghost(after): Ghost<Option<PageId>>,
) -> (r: Result<(), DbError>)
    ensures
        final(pager).next_id() == old(pager).next_id(),
        final(pager).codec_name() == old(pager).codec_name(),
        ({
            let m1 = nodes_of::<K>(old(pager));
            let m2 = nodes_of::<K>(final(pager));
            (old(pager).inv() && hp > 0 && wf(m1, parent_id, hp, lo, hi, after) && idx + 1
                < m1[parent_id].children.len() && m1[m1[parent_id].children[idx + 1]].keys.len() >= 2) ==> {
                &&& final(pager).inv()
                &&& r is Ok ==> {
                    &&& wf(m2, parent_id, hp, lo, hi, after)
                    &&& entries(m2, parent_id, hp) == entries(m1, parent_id, hp)
                    &&& first_leaf(m2, parent_id, hp) == first_leaf(m1, parent_id, hp)
                    &&& changed_only_under(m1, m2, parent_id, hp, old(pager).next_id())
                    &&& m2[parent_id].children == m1[parent_id].children
                    &&& m2[parent_id].keys == m1[parent_id].keys.update(idx as int, m2[parent_id].keys[idx as int])
                    &&& m2[parent_id].keys[idx as int].rank() >= m1[parent_id].keys[idx as int].rank()
                    &&& m2 == m1.insert(
                        m1[parent_id].children[idx as int],
                        next_child(
                            m1[m1[parent_id].children[idx as int]],
                            m1[m1[parent_id].children[idx + 1]],
                            m1[parent_id].keys[idx as int],
                        ),
                    ).insert(m1[parent_id].children[idx + 1], next_right(m1[m1[parent_id].children[idx + 1]])).insert(
                        parent_id,
                        with_key(m1[parent_id], idx as int, next_sep(m1[m1[parent_id].children[idx + 1]])),
                    )
                }
                &&& r matches Err(e) ==> write_failure::<K>(e, *final(pager))
            }
        }),
{
    let ghost m1 = nodes_of::<K>(pager);
    let ghost fresh = pager.next_id();
    let ghost good = pager.inv() && hp > 0 && wf(m1, parent_id, hp, lo, hi, after) && idx + 1
        < m1[parent_id].children.len() && m1[m1[parent_id].children[idx + 1]].keys.len() >= 2;
    proof {
        if good {
            lemma_nodes_below::<K>(pager);
            lemma_window_start(m1, parent_id, hp, lo, hi, after, idx as int);
        }
    }
    let mut parent: Node<K> = read_node(pager, parent_id)?;
    if idx >= parent.keys.len() || parent.children.len() == 0 || parent.children.len() - 1 != parent.keys.len() {
        return Err(DbError::Inconsistent { page: parent_id });
    }
    let child_id = parent.children[idx];
    let right_id = parent.children[idx + 1];
    let mut child: Node<K> = read_node(pager, child_id)?;
    let mut right: Node<K> = read_node(pager, right_id)?;
    let ghost pn = parent@;
    let ghost cn = child@;
    let ghost rn = right@;
    proof {
        lemma_views(child.values@);
        lemma_views(right.values@);
    }
    if child.is_leaf {
        if right.keys.len() < 2 || right.values.len() != right.keys.len() {
            return Err(DbError::Inconsistent { page: right_id });
        }
        let ghost rvals = right.values@;
        let ghost cvals = child.values@;
        let k0 = right.keys.remove(0);
        let v0 = right.values.remove(0);
        child.keys.push(k0);
        child.values.push(v0);
        let separator = right.keys[0].duplicate();
        parent.keys.set(idx, separator);
        proof {
            lemma_views_remove(rvals, 0);
            assert(rvals.remove(0) =~= rvals.drop_first());
            assert(views(right.values@) =~= rn.values.drop_first());
            lemma_views_insert(cvals, cvals.len() as int, v0);
            assert(cvals.insert(cvals.len() as int, v0) =~= cvals.push(v0));
            assert(views(child.values@) =~= cn.values.push(rn.values[0]));
            assert(right.keys@ =~= rn.keys.drop_first());
            if good {
                assert(child@ == next_child(cn, rn, pn.keys[idx as int]));
                assert(right@ == next_right(rn));
                assert(parent@ == with_key(pn, idx as int, next_sep(rn)));
            }
        }
    } else {
        if right.keys.len() == 0 || right.children.len() == 0 {
            return Err(DbError::Inconsistent { page: right_id });
        }
        let down = parent.keys[idx].duplicate();
        child.keys.push(down);
        let moved_child = right.children.remove(0);
        child.children.push(moved_child);
        let up = right.keys.remove(0);
        parent.keys.set(idx, up);
        proof {
            assert(right.keys@ =~= rn.keys.drop_first());
            assert(right.children@ =~= rn.children.drop_first());
            if good {
                assert(child@ == next_child(cn, rn, pn.keys[idx as int]));
                assert(right@ == next_right(rn));
                assert(parent@ == with_key(pn, idx as int, next_sep(rn)));
            }
        }
    }
    write_node(pager, child_id, &child)?;
    write_node(pager, right_id, &right)?;
    write_node(pager, parent_id, &parent)?;
    proof {
        if good {
            lemma_borrow_next(m1, nodes_of::<K>(pager), parent_id, hp, lo, hi, after, idx as int, fresh);
        }
    }
    Ok(())
}

/// Merges child `idx + 1` of `parent_id` into child `idx`, bringing their
/// separator down when they are internal. The emptied page stays unused.
fn merge_children<K: Key>(
    pager: &mut Pager,
    parent_id: PageId,
    idx: usize,
    Ghost(hp): Ghost<int>,
    Ghost(lo): Ghost<Option<int>>,
    Ghost(hi): Ghost<Option<int>>,
    Ghost(after): Ghost<Option<PageId>>,
) -> (r: Result<(), DbError>)
    ensures
        final(pager).next_id() == old(pager).next_id(),
        final(pager).codec_name() == old(pager).codec_name(),
        ({
            let m1 = nodes_of::<K>(old(pager));
            let m2 = nodes_of::<K>(final(pager));
            (old(pager).inv() && hp > 0 && wf(m1, parent_id, hp, lo, hi, after) && idx + 1
                < m1[parent_id].children.len()) ==> {
                &&& final(pager).inv()
                &&& r is Ok ==> {
                    &&& wf(m2, parent_id, hp, lo, hi, after)
                    &&& entries(m2, parent_id, hp) == entries(m1, parent_id, hp)
                    &&& first_leaf(m2, parent_id, hp) == first_leaf(m1, parent_id, hp)
                    &&& changed_only_under(m1, m2, parent_id, hp, old(pager).next_id())
                    &&& m2[parent_id].children == m1[parent_id].children.remove(idx + 1)
                    &&& m2[parent_id].keys == m1[parent_id].keys.remove(idx as int)
                    &&& m2 == m1.insert(
                        m1[parent_id].children[idx as int],
                        merged(
                            m1[m1[parent_id].children[idx as int]],
                            m1[m1[parent_id].children[idx + 1]],
                            m1[parent_id].keys[idx as int],
                        ),
                    ).insert(parent_id, without_child(m1[parent_id], idx as int))
                }
                &&& r matches Err(e) ==> write_failure::<K>(e, *final(pager))
            }
        }),
{
    let ghost m1 = nodes_of::<K>(pager);
    let ghost fresh = pager.next_id();
    let ghost good = pager.inv() && hp > 0 && wf(m1, parent_id, hp, lo, hi, after) && idx + 1
        < m1[parent_id].children.len();
    proof {
        if good {
            lemma_nodes_below::<K>(pager);
            lemma_window_start(m1, parent_id, hp, lo, hi, after, idx as int);
        }
    }
    let mut parent: Node<K> = read_node(pager, parent_id)?;
    if idx >= parent.keys.len() || parent.children.len() == 0 || parent.children.len() - 1 != parent.keys.len() {
        return Err(DbError::Inconsistent { page: parent_id });
    }
    let left_id = parent.children[idx];
    let right_id = parent.children[idx + 1];
    let mut left: Node<K> = read_node(pager, left_id)?;
    let right: Node<K> = read_node(pager, right_id)?;
    let ghost pn = parent@;
    let ghost ln = left@;
    let ghost rn = right@;
    let separator = parent.keys.remove(idx);
    parent.children.remove(idx + 1);
    let Node { keys: mut right_keys, values: mut right_values, children: mut right_children, next: right_next, is_leaf: _ } = right;
    if left.is_leaf {
        let ghost lvals = left.values@;
        let ghost rvals = right_values@;
        left.keys.append(&mut right_keys);
        left.values.append(&mut right_values);
        left.next = right_next;
        proof {
            crate::value::lemma_views_concat(lvals, rvals);
            if good {
                assert(left@ == merged(ln, rn, separator));
            }
        }
    } else {
        left.keys.push(separator);
        left.keys.append(&mut right_keys);
        left.children.append(&mut right_children);
        proof {
            assert(left.keys@ =~= ln.keys + seq![pn.keys[idx as int]] + rn.keys);
            if good {
                assert(left@ == merged(ln, rn, pn.keys[idx as int]));
            }
        }
    }
    assert(parent@ == without_child(pn, idx as int));
    write_node(pager, left_id, &left)?;
    write_node(pager, parent_id, &parent)?;
    proof {
        if good {
            lemma_merge(m1, nodes_of::<K>(pager), parent_id, hp, lo, hi, after, idx as int, fresh);
        }
    }
    Ok(())
}

/// What a change to a well-formed tree can fail with: a node whose encoding
/// does not fit in its page, reported under the pager's codec, or `Io` once
/// page ids have run past what the file can address.
pub open spec fn write_failure<K: Key>(e: DbError, p: Pager) -> bool {
    ||| e matches DbError::PageOverflow { len, codec, capacity } && len > CAPACITY && capacity == CAPACITY
        && codec == p.codec_name() && encodes_a_node::<K>(p, len as int)
    ||| e is Io && p.next_id() >= usize::MAX / PAGE_SIZE
}

/// Two children of a well-formed internal page are distinct pages, and
/// neither is the page itself.
proof fn lemma_children_distinct<K: Key>(
    m: Map<PageId, NodeModel<K>>,
    id: PageId,
    h: int,
    lo: Option<int>,
    hi: Option<int>,
    i: int,
    j: int,
)
    requires
        h > 0,
        internal_ok(m, id, h, lo, hi),
        0 <= i < j < m[id].children.len(),
    ensures
        m[id].children[i] != m[id].children[j],
        m[id].children[i] != id,
        m[id].children[j] != id,
{
    let cs = m[id].children;
    assert(under(m, cs[i], h - 1, cs[i]));
    assert(under(m, cs[j], h - 1, cs[j]));
    if cs[i] == cs[j] {
        assert(under(m, cs[i], h - 1, cs[i]) && under(m, cs[j], h - 1, cs[i]));
    }
}

/// Does a delete of the key of rank `r` go down from `id`, a tree of height
/// `h`, to a leaf without refilling anything: does every child on its path
/// have a key to spare?
pub open spec fn path_has_spare<K: Key>(m: Map<PageId, NodeModel<K>>, id: PageId, h: int, r: int) -> bool
    decreases h,
{
    if h <= 0 {
        true
    } else {
        let c = m[id].children[crate::node::child_index_of(m[id].keys, r) as int];
        m[c].keys.len() > MIN_KEYS && path_has_spare(m, c, h - 1, r)
    }
}

/// Does child `idx` of `parent_id` need no refilling before a delete descends
/// into it: it has more than `MIN_KEYS` keys, or no sibling to take from?
pub open spec fn has_spare<K>(m: Map<PageId, NodeModel<K>>, parent_id: PageId, idx: int) -> bool {
    m[m[parent_id].children[idx]].keys.len() > MIN_KEYS || m[parent_id].children.len() == 1
}

/// Makes sure the child `idx` of `parent_id` has a key to spare before a
/// delete descends into it, borrowing from a sibling or merging with one,
/// and returns the page to descend into: the child itself, one key richer
/// after a borrow, or the node a merge made of it and a sibling.
pub fn fill_child<K: Key>(
    pager: &mut Pager,
    parent_id: PageId,
    idx: usize,
    Ghost(hp): Ghost<int>,
    Ghost(lo): Ghost<Option<int>>,
    Ghost(hi): Ghost<Option<int>>,
    Ghost(after): Ghost<Option<PageId>>,
    Ghost(kr): Ghost<int>,
) -> (r: Result<PageId, DbError>)
    ensures
        final(pager).next_id() == old(pager).next_id(),
        final(pager).codec_name() == old(pager).codec_name(),
        ({
            let m1 = nodes_of::<K>(old(pager));
            let m2 = nodes_of::<K>(final(pager));
            (old(pager).inv() && hp > 0 && wf(m1, parent_id, hp, lo, hi, after) && idx < m1[parent_id].children.len()
                && above(child_lo(lo, m1[parent_id].keys, idx as int), kr) && below(
                child_hi(hi, m1[parent_id].keys, idx as int),
                kr,
            )) ==> {
                &&& final(pager).inv()
                &&& has_spare(m1, parent_id, idx as int) ==> r is Ok && *final(pager) == *old(pager)
                &&& r matches Ok(c) ==> {
                    &&& wf(m2, parent_id, hp, lo, hi, after)
                    &&& entries(m2, parent_id, hp) == entries(m1, parent_id, hp)
                    &&& first_leaf(m2, parent_id, hp) == first_leaf(m1, parent_id, hp)
                    &&& changed_only_under(m1, m2, parent_id, hp, old(pager).next_id())
                    &&& exists|j: int|
                        0 <= j < m2[parent_id].children.len() && m2[parent_id].children[j] == c && above(
                            child_lo(lo, m2[parent_id].keys, j),
                            kr,
                        ) && below(child_hi(hi, m2[parent_id].keys, j), kr)
                    &&& has_spare(m1, parent_id, idx as int) ==> c == m1[parent_id].children[idx as int]
                        && m2 == m1
                    &&& !has_spare(m1, parent_id, idx as int) ==> {
                        ||| m2[parent_id].children == m1[parent_id].children && m2[c].keys.len()
                            == m1[m1[parent_id].children[idx as int]].keys.len() + 1
                        ||| m2[parent_id].children.len() + 1 == m1[parent_id].children.len()
                    }
                    &&& occupied(m1, parent_id, hp, 1) ==> occupied(
                        m2,
                        parent_id,
                        hp,
                        m1[parent_id].keys.len() - 1,
                    ) && m2[c].keys.len() > MIN_KEYS
                }
                &&& r matches Err(e) ==> write_failure::<K>(e, *final(pager))
            }
        }),
{
    let ghost m1 = nodes_of::<K>(pager);
    let ghost good = pager.inv() && hp > 0 && wf(m1, parent_id, hp, lo, hi, after) && idx
        < m1[parent_id].children.len() && above(child_lo(lo, m1[parent_id].keys, idx as int), kr) && below(
        child_hi(hi, m1[parent_id].keys, idx as int),
        kr,
    );
    let ghost cs = m1[parent_id].children;
    let ghost ks = m1[parent_id].keys;
    proof {
        if good {
            lemma_wf_seg(m1, parent_id, hp, lo, hi, after);
            assert(m1.contains_key(parent_id));
            assert forall|j: int| 0 <= j < cs.len() implies #[trigger] m1.contains_key(cs[j]) by {
                assert(seg_child(m1, cs, ks, hp - 1, lo, hi, after, j));
                lemma_root_present(m1, cs[j], hp - 1, child_lo(lo, ks, j), child_hi(hi, ks, j), seg_after(m1, cs, after, j, hp - 1));
            }
        }
    }
    let parent: Node<K> = read_node(pager, parent_id)?;
    if idx >= parent.children.len() || parent.children.len() - 1 != parent.keys.len() {
        return Err(DbError::Inconsistent { page: parent_id });
    }
    let child_id = parent.children[idx];
    let child_len = read_node::<K>(pager, child_id)?.keys.len();
    if child_len > MIN_KEYS {
        proof {
            if good {
                assert(m1[parent_id].children[idx as int] == child_id);
            }
        }
        return Ok(child_id);
    }
    let n = parent.children.len();
    if n == 1 {
        // A lone child has no sibling to borrow from or merge with.
        proof {
            if good {
                assert(m1[parent_id].children[idx as int] == child_id);
            }
        }
        return Ok(child_id);
    }
    let left_has_spare = if idx > 0 {
        let left_id = parent.children[idx - 1];
        read_node::<K>(pager, left_id)?.keys.len() > MIN_KEYS
    } else {
        false
    };
    if left_has_spare {
        borrow_from_prev::<K>(pager, parent_id, idx, Ghost(hp), Ghost(lo), Ghost(hi), Ghost(after))?;
        proof {
            if good {
                let ks2 = nodes_of::<K>(pager)[parent_id].keys;
                assert(ks2[idx - 1].rank() <= ks[idx - 1].rank());
                if idx < ks.len() {
                    assert(ks2[idx as int] == ks[idx as int]);
                }
                assert(nodes_of::<K>(pager)[parent_id].children[idx as int] == child_id);
                lemma_children_distinct(m1, parent_id, hp, lo, hi, idx - 1, idx as int);
                if occupied(m1, parent_id, hp, 1) {
                    lemma_occ_borrow_prev(m1, nodes_of::<K>(pager), parent_id, hp, lo, hi, after, idx as int, ks.len() as int);
                }
            }
        }
        return Ok(child_id);
    }
    let right_has_spare = if idx < n - 1 {
        let right_id = parent.children[idx + 1];
        read_node::<K>(pager, right_id)?.keys.len() > MIN_KEYS
    } else {
        false
    };
    if right_has_spare {
        borrow_from_next::<K>(pager, parent_id, idx, Ghost(hp), Ghost(lo), Ghost(hi), Ghost(after))?;
        proof {
            if good {
                let ks2 = nodes_of::<K>(pager)[parent_id].keys;
                assert(ks2[idx as int].rank() >= ks[idx as int].rank());
                if idx > 0 {
                    assert(ks2[idx - 1] == ks[idx - 1]);
                }
                assert(nodes_of::<K>(pager)[parent_id].children[idx as int] == child_id);
                lemma_children_distinct(m1, parent_id, hp, lo, hi, idx as int, idx + 1);
                if occupied(m1, parent_id, hp, 1) {
                    lemma_occ_borrow_next(m1, nodes_of::<K>(pager), parent_id, hp, lo, hi, after, idx as int, ks.len() as int);
                }
            }
        }
        return Ok(child_id);
    }
    if idx < n - 1 {
        merge_children::<K>(pager, parent_id, idx, Ghost(hp), Ghost(lo), Ghost(hi), Ghost(after))?;
        proof {
            if good {
                let ks2 = nodes_of::<K>(pager)[parent_id].keys;
                if idx > 0 {
                    assert(ks2[idx - 1] == ks[idx - 1]);
                }
                if idx < ks2.len() {
                    assert(ks2[idx as int] == ks[idx + 1]);
                    assert(ks[idx as int].rank() <= ks[idx + 1].rank());
                } else {
                    assert(at_most(hi, ks[idx as int].rank()));
                }
                assert(nodes_of::<K>(pager)[parent_id].children[idx as int] == child_id);
                if occupied(m1, parent_id, hp, 1) {
                    lemma_occ_merge(m1, nodes_of::<K>(pager), parent_id, hp, lo, hi, after, idx as int, ks.len() as int);
                }
            }
        }
        Ok(child_id)
    } else {
        let left_id = parent.children[idx - 1];
        merge_children::<K>(pager, parent_id, idx - 1, Ghost(hp), Ghost(lo), Ghost(hi), Ghost(after))?;
        proof {
            if good {
                let ks2 = nodes_of::<K>(pager)[parent_id].keys;
                if idx > 1 {
                    assert(ks2[idx - 2] == ks[idx - 2]);
                    assert(ks[idx - 2].rank() <= ks[idx - 1].rank());
                } else {
                    assert(above(lo, ks[idx - 1].rank()));
                }
                assert(nodes_of::<K>(pager)[parent_id].children[idx - 1] == left_id);
                if occupied(m1, parent_id, hp, 1) {
                    lemma_occ_merge(m1, nodes_of::<K>(pager), parent_id, hp, lo, hi, after, idx - 1, ks.len() as int);
                }
            }
        }
        Ok(left_id)
    }
}

/// Deletes `key` from the subtree at `id`, refilling every child it
/// descends into; returns whether the key was there, and its value.
fn delete_node<K: Key>(
    pager: &mut Pager,
    id: PageId,
    height: u64,
    key: K,
    Ghost(lo): Ghost<Option<int>>,
    Ghost(hi): Ghost<Option<int>>,
    Ghost(after): Ghost<Option<PageId>>,
) -> (r: Result<(bool, Option<Value>), DbError>)
    ensures
        final(pager).next_id() == old(pager).next_id(),
        final(pager).codec_name() == old(pager).codec_name(),
        ({
            let m1 = nodes_of::<K>(old(pager));
            let m2 = nodes_of::<K>(final(pager));
            let h = height as int;
            (old(pager).inv() && wf(m1, id, h, lo, hi, after) && above(lo, key.rank()) && below(hi, key.rank()))
                ==> {
                &&& final(pager).inv()
                &&& seq_get(entries(m1, id, h), key.rank()) is None && path_has_spare(m1, id, h, key.rank())
                    ==> r == Ok::<(bool, Option<Value>), DbError>((false, None)) && *final(pager) == *old(pager)
                &&& path_has_spare(m1, id, h, key.rank()) && r is Err ==> *final(pager) == *old(pager)
                &&& match r {
                    Ok((found, v)) => {
                        &&& wf(m2, id, h, lo, hi, after)
                        &&& occupied(m1, id, h, 0) && (h > 0 ==> m1[id].keys.len() >= 1) ==> occupied(
                            m2,
                            id,
                            h,
                            m1[id].keys.len() - 1,
                        )
                        &&& entries(m2, id, h) == seq_remove(entries(m1, id, h), key.rank())
                        &&& first_leaf(m2, id, h) == first_leaf(m1, id, h)
                        &&& changed_only_under(m1, m2, id, h, old(pager).next_id())
                        &&& found == (seq_get(entries(m1, id, h), key.rank()) is Some)
                        &&& match v {
                            Some(x) => seq_get(entries(m1, id, h), key.rank()) == Some(x@),
                            None => seq_get(entries(m1, id, h), key.rank()) is None,
                        }
                    },
                    Err(e) => write_failure::<K>(e, *final(pager)),
                }
            }
        }),
    decreases height,
{
    let ghost m1 = nodes_of::<K>(pager);
    let ghost fresh = pager.next_id();
    let ghost kr = key.rank();
    let ghost good = pager.inv() && wf(m1, id, height as int, lo, hi, after) && above(lo, kr) && below(hi, kr);
    proof {
        if good {
            lemma_nodes_below::<K>(pager);
            lemma_root_present(m1, id, height as int, lo, hi, after);
        }
    }
    let mut node: Node<K> = read_node(pager, id)?;
    proof {
        lemma_views(node.values@);
        if good && height == 0 {
            assert(leaf_ok(m1, id, lo, hi, after));
        }
    }
    if node.is_leaf {
        if height != 0 || node.values.len() != node.keys.len() {
            return Err(DbError::Inconsistent { page: id });
        }
        let ghost n0 = node@;
        let ghost es = leaf_entries(n0);
        proof {
            crate::node::lemma_slot(node.keys@, kr);
            if good {
                lemma_seq_get_leaf(n0, kr);
                assert forall|a: int, b: int| 0 <= a < b < es.len() implies #[trigger] es[a].0.rank()
                    < #[trigger] es[b].0.rank() by {
                    assert(n0.keys[a].rank() < n0.keys[b].rank());
                }
            }
        }
        return match node.slot(&key) {
            Some(i) => {
                let ghost vals = node.values@;
                node.keys.remove(i);
                let value = node.values.remove(i);
                proof {
                    lemma_views_remove(vals, i as int);
                    assert(leaf_entries(node@) =~= es.remove(i as int));
                    if good {
                        crate::entries::lemma_remove_at(es, i as int);
                        let nk = node.keys@;
                        assert forall|a: int, b: int| 0 <= a < b < nk.len() implies #[trigger] nk[a].rank()
                            < #[trigger] nk[b].rank() by {
                            if b < i {
                                assert(nk[a] == n0.keys[a] && nk[b] == n0.keys[b]);
                            } else if a >= i {
                                assert(nk[a] == n0.keys[a + 1] && nk[b] == n0.keys[b + 1]);
                            } else {
                                assert(nk[a] == n0.keys[a] && nk[b] == n0.keys[b + 1]);
                            }
                        }
                        assert forall|a: int| 0 <= a < nk.len() implies above(lo, #[trigger] nk[a].rank()) && below(
                            hi,
                            nk[a].rank(),
                        ) by {
                            if a < i {
                                assert(nk[a] == n0.keys[a]);
                            } else {
                                assert(nk[a] == n0.keys[a + 1]);
                            }
                        }
                    }
                }
                let res = write_node(pager, id, &node);
                proof {
                    if good && res is Ok {
                        let m2 = nodes_of::<K>(pager);
                        assert(node@.keys.len() + 1 == n0.keys.len());
                        assert(leaf_ok(m2, id, lo, hi, after));
                        assert(entries(m2, id, 0) == leaf_entries(node@));
                        assert forall|p: PageId| #[trigger] m1.contains_key(p) && !crate::tree::under(m1, id, 0, p)
                            implies m2.contains_key(p) && m2[p] == m1[p] by {}
                    }
                }
                match res {
                    Ok(()) => Ok((true, Some(value))),
                    Err(e) => Err(e),
                }
            },
            None => {
                proof {
                    if good {
                        assert forall|a: int| 0 <= a < es.len() implies #[trigger] es[a].0.rank() != kr by {}
                        crate::entries::lemma_remove_missing(es, kr);
                    }
                }
                Ok((false, None))
            },
        };
    }
    proof {
        if good {
            assert(height > 0);
            lemma_wf_seg(m1, id, height as int, lo, hi, after);
        }
    }
    if height == 0 || node.children.len() == 0 || node.children.len() - 1 != node.keys.len() {
        return Err(DbError::Inconsistent { page: id });
    }
    let idx = node.child_index(&key);
    proof {
        crate::node::lemma_child_index_bound(node.keys@, kr);
        if good {
            lemma_get_step(m1, id, height as int, lo, hi, after, kr);
        }
    }
    let child_id = fill_child::<K>(pager, id, idx, Ghost(height as int), Ghost(lo), Ghost(hi), Ghost(after), Ghost(kr))?;
    let ghost m2 = nodes_of::<K>(pager);
    let ghost j = choose|j: int|
        0 <= j < m2[id].children.len() && m2[id].children[j] == child_id && above(child_lo(lo, m2[id].keys, j), kr)
            && below(child_hi(hi, m2[id].keys, j), kr);
    let ghost lo_j = child_lo(lo, m2[id].keys, j);
    let ghost hi_j = child_hi(hi, m2[id].keys, j);
    let ghost after_j = child_after(m2, m2[id], after, j, height - 1);
    let ghost gkey = key;
    proof {
        if good {
            crate::tree::lemma_wf_unfold(m2, id, height as int, lo, hi, after);
            assert(wf_child(m2, id, j, height as int, lo, hi, after));
            lemma_nodes_below::<K>(pager);
        }
    }
    let res = delete_node(pager, child_id, height - 1, key, Ghost(lo_j), Ghost(hi_j), Ghost(after_j));
    proof {
        if good && res is Ok {
            let m3 = nodes_of::<K>(pager);
            let h = height as int;
            lemma_replace_child(m2, m3, id, h, lo, hi, after, j, fresh);
            if occupied(m1, id, h, 0) && m1[id].keys.len() >= 1 {
                lemma_occ_unfold(m2, id, h, m1[id].keys.len() - 1);
                assert(occupied(m2, child_id, h - 1, MIN_KEYS as int));
                assert(occupied(m3, child_id, h - 1, MIN_KEYS as int));
                lemma_occ_replace_child(m2, m3, id, h, lo, hi, after, j, fresh, m1[id].keys.len() - 1);
            }
            lemma_child_entries_bounds(m2, id, h, lo, hi, after, j, kr);
            lemma_get_in_child(m2, id, h, lo, hi, after, j, kr);
            let cs2 = m2[id].children;
            crate::entries::lemma_remove_concat(
                entries_list(m2, cs2.take(j), h - 1),
                entries(m2, cs2[j], h - 1),
                entries_list(m2, cs2.skip(j + 1), h - 1),
                kr,
            );
            lemma_changed_trans(m1, m2, m3, id, h, fresh, fresh);
        }
    }
    res
}

/// The entries a vector of key/value pairs holds.
pub open spec fn pairs_view<K>(v: Seq<(K, Value)>) -> Seq<Entry<K>> {
    Seq::new(v.len(), |i: int| (v[i].0, v[i].1@))
}

/// Descends from `root` along first children to the leftmost leaf.
fn leftmost_leaf<K: Key>(pager: &Pager, root: PageId, height: u64) -> (r: Result<PageId, DbError>)
    ensures
        pager.inv() && wf(nodes_of::<K>(pager), root, height as int, None, None, None) ==> (r matches Ok(
            id,
        ) && id == first_leaf(nodes_of::<K>(pager), root, height as int)),
{
    let ghost m = nodes_of::<K>(pager);
    let ghost good = pager.inv() && wf(m, root, height as int, None, None, None);
    let ghost mut lo: Option<int> = None;
    let ghost mut hi: Option<int> = None;
    let ghost mut after: Option<PageId> = None;
    let mut id = root;
    let mut level = height;
    loop
        invariant
            m == nodes_of::<K>(pager),
            good == (pager.inv() && wf(m, root, height as int, None, None, None)),
            good ==> wf(m, id, level as int, lo, hi, after),
            good ==> first_leaf(m, root, height as int) == first_leaf(m, id, level as int),
        decreases level,
    {
        proof {
            if good {
                lemma_root_present(m, id, level as int, lo, hi, after);
                if level > 0 {
                    lemma_wf_seg(m, id, level as int, lo, hi, after);
                }
            }
        }
        let node: Node<K> = read_node(pager, id)?;
        if level == 0 {
            if !node.is_leaf {
                return Err(DbError::Inconsistent { page: id });
            }
            return Ok(id);
        }
        if node.is_leaf || node.children.len() == 0 {
            return Err(DbError::Inconsistent { page: id });
        }
        proof {
            if good {
                crate::tree::lemma_wf_unfold(m, id, level as int, lo, hi, after);
                assert(wf_child(m, id, 0, level as int, lo, hi, after));
                let n = m[id];
                lo = child_lo(lo, n.keys, 0);
                hi = child_hi(hi, n.keys, 0);
                after = child_after(m, n, after, 0, level - 1);
            }
        }
        id = node.children[0];
        level = level - 1;
    }
}

/// The facts a walk along the leaf chain of a well-formed tree starts from.
pub(crate) proof fn lemma_walk_start<K: Key>(pager: &Pager, root: PageId, height: u64)
    requires
        pager.inv(),
        wf(nodes_of::<K>(pager), root, height as int, None, None, None),
    ensures
        ({
            let m = nodes_of::<K>(pager);
            let ls = crate::tree::leaves(m, root, height as int);
            &&& crate::chain::chained(m, ls, None)
            &&& ls.len() > 0
            &&& ls[0] == first_leaf(m, root, height as int)
            &&& ls.len() <= pager.next_id()
            &&& entries(m, root, height as int) == crate::chain::chain_entries(m, ls)
        }),
{
    let m = nodes_of::<K>(pager);
    let h = height as int;
    let ls = crate::tree::leaves(m, root, h);
    crate::chain::lemma_chain_wf(m, root, h, None, None, None);
    crate::chain::lemma_entries_chain(m, root, h);
    crate::chain::lemma_leaves_under(m, root, h);
    lemma_wf_dom(m, root, h, None, None, None);
    lemma_nodes_below::<K>(pager);
    assert forall|k: int| 0 <= k < ls.len() implies #[trigger] ls[k] < pager.next_id() by {
        assert(crate::tree::under(m, root, h, ls[k]));
    }
    crate::chain::lemma_distinct_bound(ls, pager.next_id());
}

/// Appends the entries of `leaf` to `out`.
fn append_entries<K: Key>(out: &mut Vec<(K, Value)>, leaf: &Node<K>)
    requires
        leaf.values@.len() == leaf.keys@.len(),
    ensures
        pairs_view(final(out)@) == pairs_view(old(out)@) + leaf_entries(leaf@),
{
    let ghost start = pairs_view(out@);
    proof {
        lemma_views(leaf.values@);
    }
    let mut j: usize = 0;
    while j < leaf.keys.len()
        invariant
            j <= leaf.keys@.len(),
            leaf.values@.len() == leaf.keys@.len(),
            views(leaf.values@).len() == leaf.values@.len(),
            forall|i: int| 0 <= i < leaf.values@.len() ==> #[trigger] views(leaf.values@)[i] == leaf.values@[i]@,
            pairs_view(out@) == start + leaf_entries(leaf@).take(j as int),
        decreases leaf.keys@.len() - j,
    {
        let k = leaf.keys[j].duplicate();
        let v = leaf.values[j].clone();
        let ghost before = out@;
        out.push((k, v));
        proof {
            assert(pairs_view(out@) =~= pairs_view(before).push((k, v@)));
            assert(leaf_entries(leaf@).take(j + 1) =~= leaf_entries(leaf@).take(j as int).push((k, v@)));
        }
        j += 1;
    }
    proof {
        assert(leaf_entries(leaf@).take(j as int) =~= leaf_entries(leaf@));
    }
}

impl<K: Key, LockState> BTree<K, Initialized, LockState> {
    /// Every entry, sorted by key, copied into a fresh `Vec`: the leftmost
    /// leaf, then each leaf its predecessor points to.
    pub fn range(&self) -> (r: Result<Vec<(K, Value)>, DbError>)
        ensures
            self.wf() ==> (r matches Ok(v) && pairs_view(v@) == self@),
    {
        let ghost good = self.wf();
        let pager = &self.pager_state.pager;
        let root = self.pager_state.root_id;
        let height = self.pager_state.height;
        let ghost m = nodes_of::<K>(pager);
        let ghost ls = crate::tree::leaves(m, root, height as int);
        proof {
            if good {
                lemma_walk_start::<K>(pager, root, height);
                assert(self@ == entries(m, root, height as int));
            }
        }
        let first = leftmost_leaf::<K>(pager, root, height)?;
        let mut result: Vec<(K, Value)> = Vec::new();
        let mut next: Option<PageId> = Some(first);
        let mut steps: u64 = 0;
        let limit = pager.next_page_id();
        proof {
            assert(pairs_view(result@) =~= crate::chain::chain_entries(m, ls.take(0)));
        }
        while next.is_some()
            invariant
                m == nodes_of::<K>(pager),
                good == self.wf(),
                pager == &self.pager_state.pager,
                root == self.pager_state.root_id,
                height == self.pager_state.height,
                ls == crate::tree::leaves(m, root, height as int),
                good ==> pager.inv(),
                good ==> self@ == crate::chain::chain_entries(m, ls),
                good ==> crate::chain::chained(m, ls, None),
                good ==> ls.len() <= limit,
                good ==> steps <= ls.len(),
                good ==> next == (if steps < ls.len() { Some(ls[steps as int]) } else { None::<PageId> }),
                good ==> pairs_view(result@) == crate::chain::chain_entries(m, ls.take(steps as int)),
                limit == pager.next_id(),
            decreases limit - steps,
        {
            let id = next.unwrap();
            if steps >= limit {
                return Err(DbError::Inconsistent { page: id });
            }
            proof {
                if good {
                    crate::chain::lemma_chain_at(m, ls, None, steps as int);
                }
            }
            let leaf: Node<K> = read_node(pager, id)?;
            proof {
                lemma_views(leaf.values@);
            }
            if !leaf.is_leaf || leaf.values.len() != leaf.keys.len() {
                return Err(DbError::Inconsistent { page: id });
            }
            append_entries(&mut result, &leaf);
            proof {
                if good {
                    crate::chain::lemma_chain_entries_step(m, ls, steps as int);
                }
            }
            next = leaf.next;
            steps = steps + 1;
        }
        proof {
            if good {
                assert(ls.take(ls.len() as int) =~= ls);
            }
        }
        Ok(result)
    }

    /// The number of entries in the tree. Walks every leaf.
    ///
    /// An `Io` error only if the count does not fit in a `usize`.
    pub fn len(&self) -> (r: Result<usize, DbError>)
        ensures
            self.wf() ==> match r {
                Ok(n) => n == self@.len(),
                Err(e) => e is Io && self@.len() > usize::MAX,
            },
    {
        let ghost good = self.wf();
        let pager = &self.pager_state.pager;
        let root = self.pager_state.root_id;
        let height = self.pager_state.height;
        let ghost m = nodes_of::<K>(pager);
        let ghost ls = crate::tree::leaves(m, root, height as int);
        proof {
            if good {
                lemma_walk_start::<K>(pager, root, height);
                assert(self@ == entries(m, root, height as int));
            }
        }
        let first = leftmost_leaf::<K>(pager, root, height)?;
        let mut total: usize = 0;
        let mut next: Option<PageId> = Some(first);
        let mut steps: u64 = 0;
        let limit = pager.next_page_id();
        while next.is_some()
            invariant
                m == nodes_of::<K>(pager),
                good == self.wf(),
                pager == &self.pager_state.pager,
                root == self.pager_state.root_id,
                height == self.pager_state.height,
                ls == crate::tree::leaves(m, root, height as int),
                good ==> pager.inv(),
                good ==> self@ == crate::chain::chain_entries(m, ls),
                good ==> crate::chain::chained(m, ls, None),
                good ==> ls.len() <= limit,
                good ==> steps <= ls.len(),
                good ==> next == (if steps < ls.len() { Some(ls[steps as int]) } else { None::<PageId> }),
                good ==> total == crate::chain::chain_entries(m, ls.take(steps as int)).len(),
                good ==> entries(m, root, height as int) == crate::chain::chain_entries(m, ls),
                limit == pager.next_id(),
            decreases limit - steps,
        {
            let id = next.unwrap();
            if steps >= limit {
                return Err(DbError::Inconsistent { page: id });
            }
            proof {
                if good {
                    crate::chain::lemma_chain_at(m, ls, None, steps as int);
                }
            }
            let leaf: Node<K> = read_node(pager, id)?;
            proof {
                lemma_views(leaf.values@);
            }
            if !leaf.is_leaf {
                return Err(DbError::Inconsistent { page: id });
            }
            proof {
                if good {
                    crate::chain::lemma_chain_entries_step(m, ls, steps as int);
                    crate::chain::lemma_chain_entries_prefix(m, ls, steps + 1);
                }
            }
            total = match total.checked_add(leaf.keys.len()) {
                Some(t) => t,
                None => return Err(DbError::Io { message: "entry count overflows usize".to_string() }),
            };
            next = leaf.next;
            steps = steps + 1;
        }
        proof {
            if good {
                assert(ls.take(ls.len() as int) =~= ls);
            }
        }
        Ok(total)
    }

    /// Whether the tree holds no entries; walks every leaf, as [`BTree::len`] does.
    pub fn is_empty(&self) -> (r: Result<bool, DbError>)
        ensures
            self.wf() ==> match r {
                Ok(b) => b == (self@.len() == 0),
                Err(e) => e is Io && self@.len() > usize::MAX,
            },
    {
        Ok(self.len()? == 0)
    }
}

} // verus!
