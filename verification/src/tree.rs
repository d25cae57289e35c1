//! The mathematical model of the tree: which pages it reaches, the entries
//! it holds in key order, and what makes a set of pages a well-formed B+tree.
//!
//! Heights count up from the leaves: a leaf is at height 0, its parent at 1.

use vstd::prelude::*;

use crate::error::PageId;
use crate::key::Key;
use crate::node::NodeModel;
use crate::value::{accumulated, ValueModel};

verus! {

/// One entry of the tree: a key and the model of its value.
pub type Entry<K> = (K, ValueModel);

/// Is `r` at or above the lower bound `lo`, if there is one?
pub open spec fn above(lo: Option<int>, r: int) -> bool {
    match lo {
        Some(l) => l <= r,
        None => true,
    }
}

/// Is `r` strictly below the upper bound `hi`, if there is one?
pub open spec fn below(hi: Option<int>, r: int) -> bool {
    match hi {
        Some(h) => r < h,
        None => true,
    }
}

/// Is `r` at or below the upper bound `hi`, if there is one?
pub open spec fn at_most(hi: Option<int>, r: int) -> bool {
    match hi {
        Some(h) => r <= h,
        None => true,
    }
}

/// The lower bound on the keys under child `i` of a node with separators `keys`.
pub open spec fn child_lo<K: Key>(lo: Option<int>, keys: Seq<K>, i: int) -> Option<int> {
    if i == 0 {
        lo
    } else {
        Some(keys[i - 1].rank())
    }
}

/// The upper bound on the keys under child `i` of a node with separators `keys`.
pub open spec fn child_hi<K: Key>(hi: Option<int>, keys: Seq<K>, i: int) -> Option<int> {
    if i >= keys.len() {
        hi
    } else {
        Some(keys[i].rank())
    }
}

pub open spec fn sorted_strict<K: Key>(ks: Seq<K>) -> bool {
    forall|i: int, j: int| 0 <= i < j < ks.len() ==> #[trigger] ks[i].rank() < #[trigger] ks[j].rank()
}

pub open spec fn sorted_weak<K: Key>(ks: Seq<K>) -> bool {
    forall|i: int, j: int| 0 <= i < j < ks.len() ==> #[trigger] ks[i].rank() <= #[trigger] ks[j].rank()
}

/// The leftmost leaf under page `id`, a tree of height `h`.
pub open spec fn first_leaf<K>(m: Map<PageId, NodeModel<K>>, id: PageId, h: int) -> PageId
    decreases h,
{
    if h <= 0 || m[id].children.len() == 0 {
        id
    } else {
        first_leaf(m, m[id].children[0], h - 1)
    }
}

/// Where the last leaf under child `i` of `n` points: the next child's first
/// leaf, or, for the last child, wherever the last leaf under `n` points.
pub open spec fn child_after<K>(
    m: Map<PageId, NodeModel<K>>,
    n: NodeModel<K>,
    after: Option<PageId>,
    i: int,
    child_height: int,
) -> Option<PageId> {
    if i + 1 < n.children.len() {
        Some(first_leaf(m, n.children[i + 1], child_height))
    } else {
        after
    }
}

/// Is page `p` under page `id` (itself included), a tree of height `h`?
pub open spec fn under<K>(m: Map<PageId, NodeModel<K>>, id: PageId, h: int, p: PageId) -> bool
    decreases h, 0int,
{
    if h <= 0 {
        p == id
    } else {
        p == id || under_from(m, m[id].children, 0, h - 1, p)
    }
}

/// Is page `p` under one of the pages `cs[i..]`, each a tree of height `h`?
pub open spec fn under_from<K>(m: Map<PageId, NodeModel<K>>, cs: Seq<PageId>, i: int, h: int, p: PageId) -> bool
    decreases h, cs.len() - i + 1,
{
    if i < 0 || i >= cs.len() {
        false
    } else {
        under(m, cs[i], h, p) || under_from(m, cs, i + 1, h, p)
    }
}

/// A leaf's entries, in key order.
pub open spec fn leaf_entries<K>(n: NodeModel<K>) -> Seq<Entry<K>> {
    Seq::new(n.keys.len(), |i: int| (n.keys[i], n.values[i]))
}

/// Every entry under page `id`, in leaf order.
pub open spec fn entries<K>(m: Map<PageId, NodeModel<K>>, id: PageId, h: int) -> Seq<Entry<K>>
    decreases h, 0int,
{
    if h <= 0 {
        leaf_entries(m[id])
    } else {
        entries_list(m, m[id].children, h - 1)
    }
}

/// The entries under each page of `cs`, all at height `h`, one after another.
pub open spec fn entries_list<K>(m: Map<PageId, NodeModel<K>>, cs: Seq<PageId>, h: int) -> Seq<Entry<K>>
    decreases h, cs.len() + 1,
{
    if cs.len() == 0 {
        Seq::empty()
    } else {
        entries_list(m, cs.drop_last(), h) + entries(m, cs.last(), h)
    }
}

/// Every leaf under page `id`, left to right.
pub open spec fn leaves<K>(m: Map<PageId, NodeModel<K>>, id: PageId, h: int) -> Seq<PageId>
    decreases h, 0int,
{
    if h <= 0 {
        seq![id]
    } else {
        leaves_list(m, m[id].children, h - 1)
    }
}

/// The leaves under each page of `cs`, all at height `h`, one after another.
pub open spec fn leaves_list<K>(m: Map<PageId, NodeModel<K>>, cs: Seq<PageId>, h: int) -> Seq<PageId>
    decreases h, cs.len() + 1,
{
    if cs.len() == 0 {
        Seq::empty()
    } else {
        leaves_list(m, cs.drop_last(), h) + leaves(m, cs.last(), h)
    }
}

/// A leaf holding sorted keys in `[lo, hi)`, each with its value, and
/// pointing to `after`.
pub open spec fn leaf_ok<K: Key>(
    m: Map<PageId, NodeModel<K>>,
    id: PageId,
    lo: Option<int>,
    hi: Option<int>,
    after: Option<PageId>,
) -> bool {
    &&& m.contains_key(id)
    &&& m[id].is_leaf
    &&& m[id].children.len() == 0
    &&& m[id].values.len() == m[id].keys.len()
    &&& sorted_strict(m[id].keys)
    &&& forall|i: int|
        0 <= i < m[id].keys.len() ==> above(lo, #[trigger] m[id].keys[i].rank()) && below(
            hi,
            m[id].keys[i].rank(),
        )
    &&& m[id].next == after
}

/// An internal node with sorted separators in `[lo, hi]`, one more child
/// than separators, and children whose subtrees share no page with each
/// other or with the node itself.
pub open spec fn internal_ok<K: Key>(
    m: Map<PageId, NodeModel<K>>,
    id: PageId,
    h: int,
    lo: Option<int>,
    hi: Option<int>,
) -> bool {
    &&& m.contains_key(id)
    &&& !m[id].is_leaf
    &&& m[id].values.len() == 0
    &&& m[id].next is None
    &&& m[id].children.len() == m[id].keys.len() + 1
    &&& sorted_weak(m[id].keys)
    &&& forall|i: int|
        0 <= i < m[id].keys.len() ==> above(lo, #[trigger] m[id].keys[i].rank()) && at_most(
            hi,
            m[id].keys[i].rank(),
        )
    &&& forall|i: int, j: int, p: PageId|
        0 <= i < j < m[id].children.len() ==> !(#[trigger] under(m, m[id].children[i], h - 1, p)
            && #[trigger] under(m, m[id].children[j], h - 1, p))
    &&& forall|i: int| 0 <= i < m[id].children.len() ==> !#[trigger] under(m, m[id].children[i], h - 1, id)
}

/// The pages under `id` form a well-formed B+tree of height `h`: values live
/// only in leaves, every key lies in `[lo, hi)`, separators route each key
/// to the one child whose range holds it, subtrees share no page, and the
/// leaves are chained left to right, the last pointing to `after`.
pub open spec fn wf<K: Key>(
    m: Map<PageId, NodeModel<K>>,
    id: PageId,
    h: int,
    lo: Option<int>,
    hi: Option<int>,
    after: Option<PageId>,
) -> bool
    decreases h, 0int,
{
    if h <= 0 {
        h == 0 && leaf_ok(m, id, lo, hi, after)
    } else {
        internal_ok(m, id, h, lo, hi) && wf_children(m, id, 0, h - 1, lo, hi, after)
    }
}

/// Children `i..` of page `id`, each a tree of height `h`, are well formed
/// within the ranges the separators of `id` give them.
pub open spec fn wf_children<K: Key>(
    m: Map<PageId, NodeModel<K>>,
    id: PageId,
    i: int,
    h: int,
    lo: Option<int>,
    hi: Option<int>,
    after: Option<PageId>,
) -> bool
    decreases h, m[id].children.len() - i + 1,
{
    if i < 0 || i >= m[id].children.len() {
        true
    } else {
        wf(
            m,
            m[id].children[i],
            h,
            child_lo(lo, m[id].keys, i),
            child_hi(hi, m[id].keys, i),
            child_after(m, m[id], after, i, h),
        ) && wf_children(m, id, i + 1, h, lo, hi, after)
    }
}

/// Child `i` of page `id` is well formed within its range.
pub open spec fn wf_child<K: Key>(
    m: Map<PageId, NodeModel<K>>,
    id: PageId,
    i: int,
    h: int,
    lo: Option<int>,
    hi: Option<int>,
    after: Option<PageId>,
) -> bool {
    wf(
        m,
        m[id].children[i],
        h - 1,
        child_lo(lo, m[id].keys, i),
        child_hi(hi, m[id].keys, i),
        child_after(m, m[id], after, i, h - 1),
    )
}

// ---------------------------------------------------------------------------
// The entries as a sorted sequence of key/value pairs, and what each
// operation does to it.

/// Every entry's key lies in `[lo, hi)`.
pub open spec fn within<K: Key>(es: Seq<Entry<K>>, lo: Option<int>, hi: Option<int>) -> bool {
    forall|i: int| 0 <= i < es.len() ==> above(lo, #[trigger] es[i].0.rank()) && below(hi, es[i].0.rank())
}

/// The keys strictly increase.
pub open spec fn ordered<K: Key>(es: Seq<Entry<K>>) -> bool {
    forall|i: int, j: int| 0 <= i < j < es.len() ==> #[trigger] es[i].0.rank() < #[trigger] es[j].0.rank()
}

/// The value stored under the key of rank `r`, if any.
pub open spec fn seq_get<K: Key>(es: Seq<Entry<K>>, r: int) -> Option<ValueModel>
    decreases es.len(),
{
    if es.len() == 0 {
        None
    } else if es[0].0.rank() == r {
        Some(es[0].1)
    } else {
        seq_get(es.drop_first(), r)
    }
}

/// The entries after `put`: a new key is inserted in order, and a value put
/// under a key already present is accumulated into the one already there.
pub open spec fn seq_put<K: Key>(es: Seq<Entry<K>>, k: K, v: ValueModel) -> Seq<Entry<K>>
    decreases es.len(),
{
    if es.len() == 0 {
        seq![(k, v)]
    } else if es[0].0.rank() == k.rank() {
        seq![(es[0].0, accumulated(es[0].1, v))] + es.drop_first()
    } else if k.rank() < es[0].0.rank() {
        seq![(k, v)] + es
    } else {
        seq![es[0]] + seq_put(es.drop_first(), k, v)
    }
}

/// The entries after `update`: the value under a key already present is
/// replaced, and a new key is inserted in order.
pub open spec fn seq_set<K: Key>(es: Seq<Entry<K>>, k: K, v: ValueModel) -> Seq<Entry<K>>
    decreases es.len(),
{
    if es.len() == 0 {
        seq![(k, v)]
    } else if es[0].0.rank() == k.rank() {
        seq![(es[0].0, v)] + es.drop_first()
    } else if k.rank() < es[0].0.rank() {
        seq![(k, v)] + es
    } else {
        seq![es[0]] + seq_set(es.drop_first(), k, v)
    }
}

/// The entries after removing the key of rank `r`, if it is there.
pub open spec fn seq_remove<K: Key>(es: Seq<Entry<K>>, r: int) -> Seq<Entry<K>>
    decreases es.len(),
{
    if es.len() == 0 {
        es
    } else if es[0].0.rank() == r {
        es.drop_first()
    } else {
        seq![es[0]] + seq_remove(es.drop_first(), r)
    }
}

/// What a `put` leaves under its key: the value, or the accumulator built from it.
pub open spec fn put_result(old: Option<ValueModel>, v: ValueModel) -> ValueModel {
    match old {
        Some(o) => accumulated(o, v),
        None => v,
    }
}

// ---------------------------------------------------------------------------
// Lemmas on the page structure.

pub proof fn lemma_under_from<K>(m: Map<PageId, NodeModel<K>>, cs: Seq<PageId>, i: int, h: int, p: PageId)
    requires
        0 <= i <= cs.len(),
    ensures
        under_from(m, cs, i, h, p) <==> exists|j: int| i <= j < cs.len() && #[trigger] under(m, cs[j], h, p),
    decreases cs.len() - i,
{
    if i < cs.len() {
        lemma_under_from(m, cs, i + 1, h, p);
        if under(m, cs[i], h, p) {
            assert(i <= i < cs.len() && under(m, cs[i], h, p));
        }
        if exists|j: int| i <= j < cs.len() && #[trigger] under(m, cs[j], h, p) {
            let j = choose|j: int| i <= j < cs.len() && #[trigger] under(m, cs[j], h, p);
            if j > i {
                assert(i + 1 <= j < cs.len() && under(m, cs[j], h, p));
            }
        }
    }
}

/// What it means to be under a page of positive height.
pub proof fn lemma_under_unfold<K>(m: Map<PageId, NodeModel<K>>, id: PageId, h: int, p: PageId)
    requires
        h > 0,
    ensures
        under(m, id, h, p) <==> (p == id || exists|j: int|
            0 <= j < m[id].children.len() && #[trigger] under(m, m[id].children[j], h - 1, p)),
{
    lemma_under_from(m, m[id].children, 0, h - 1, p);
}

pub proof fn lemma_under_child<K>(m: Map<PageId, NodeModel<K>>, id: PageId, h: int, i: int, p: PageId)
    requires
        h > 0,
        0 <= i < m[id].children.len(),
        under(m, m[id].children[i], h - 1, p),
    ensures
        under(m, id, h, p),
{
    lemma_under_unfold(m, id, h, p);
}

pub proof fn lemma_wf_children<K: Key>(
    m: Map<PageId, NodeModel<K>>,
    id: PageId,
    i: int,
    h: int,
    lo: Option<int>,
    hi: Option<int>,
    after: Option<PageId>,
)
    requires
        0 <= i <= m[id].children.len(),
    ensures
        wf_children(m, id, i, h - 1, lo, hi, after) <==> forall|j: int|
            i <= j < m[id].children.len() ==> #[trigger] wf_child(m, id, j, h, lo, hi, after),
    decreases m[id].children.len() - i,
{
    if i < m[id].children.len() {
        lemma_wf_children(m, id, i + 1, h, lo, hi, after);
        assert(wf_child(m, id, i, h, lo, hi, after) == wf(
            m,
            m[id].children[i],
            h - 1,
            child_lo(lo, m[id].keys, i),
            child_hi(hi, m[id].keys, i),
            child_after(m, m[id], after, i, h - 1),
        ));
    }
}

/// What it means to be a well-formed tree of positive height.
pub proof fn lemma_wf_unfold<K: Key>(
    m: Map<PageId, NodeModel<K>>,
    id: PageId,
    h: int,
    lo: Option<int>,
    hi: Option<int>,
    after: Option<PageId>,
)
    requires
        h > 0,
    ensures
        wf(m, id, h, lo, hi, after) <==> (internal_ok(m, id, h, lo, hi) && forall|j: int|
            0 <= j < m[id].children.len() ==> #[trigger] wf_child(m, id, j, h, lo, hi, after)),
{
    lemma_wf_children(m, id, 0, h, lo, hi, after);
}

/// Every page a well-formed tree reaches is present.
pub proof fn lemma_wf_dom<K: Key>(
    m: Map<PageId, NodeModel<K>>,
    id: PageId,
    h: int,
    lo: Option<int>,
    hi: Option<int>,
    after: Option<PageId>,
)
    requires
        wf(m, id, h, lo, hi, after),
    ensures
        forall|p: PageId| #[trigger] under(m, id, h, p) ==> m.contains_key(p),
    decreases h,
{
    if h > 0 {
        lemma_wf_unfold(m, id, h, lo, hi, after);
        assert forall|p: PageId| #[trigger] under(m, id, h, p) implies m.contains_key(p) by {
            lemma_under_unfold(m, id, h, p);
            if p != id {
                let i = choose|i: int| 0 <= i < m[id].children.len() && #[trigger] under(m, m[id].children[i], h - 1, p);
                assert(wf_child(m, id, i, h, lo, hi, after));
                lemma_wf_dom(
                    m,
                    m[id].children[i],
                    h - 1,
                    child_lo(lo, m[id].keys, i),
                    child_hi(hi, m[id].keys, i),
                    child_after(m, m[id], after, i, h - 1),
                );
            }
        }
    }
}

/// Two maps agree on every page under `id`.
pub open spec fn agree_under<K>(m1: Map<PageId, NodeModel<K>>, m2: Map<PageId, NodeModel<K>>, id: PageId, h: int) -> bool {
    forall|p: PageId| #[trigger] under(m1, id, h, p) ==> m1.contains_key(p) == m2.contains_key(p) && m1[p] == m2[p]
}

/// Two page maps that agree on every page under `id` have the same tree under `id`.
pub proof fn lemma_frame<K: Key>(m1: Map<PageId, NodeModel<K>>, m2: Map<PageId, NodeModel<K>>, id: PageId, h: int)
    requires
        agree_under(m1, m2, id, h),
    ensures
        forall|p: PageId| #[trigger] under(m2, id, h, p) == under(m1, id, h, p),
        entries(m2, id, h) == entries(m1, id, h),
        leaves(m2, id, h) == leaves(m1, id, h),
        first_leaf(m2, id, h) == first_leaf(m1, id, h),
        forall|lo: Option<int>, hi: Option<int>, after: Option<PageId>|
            #[trigger] wf(m1, id, h, lo, hi, after) ==> wf(m2, id, h, lo, hi, after),
    decreases h, 0int,
{
    assert(under(m1, id, h, id)) by {
        if h > 0 {
            lemma_under_unfold(m1, id, h, id);
        }
    }
    if h > 0 {
        let cs = m1[id].children;
        assert(m2[id] == m1[id]);
        assert forall|i: int| 0 <= i < cs.len() implies #[trigger] agree_under(m1, m2, cs[i], h - 1) by {
            assert forall|p: PageId| #[trigger] under(m1, cs[i], h - 1, p) implies m1.contains_key(p)
                == m2.contains_key(p) && m1[p] == m2[p] by {
                lemma_under_child(m1, id, h, i, p);
            }
        }
        assert forall|i: int| 0 <= i < cs.len() implies {
            &&& forall|p: PageId| #[trigger] under(m2, cs[i], h - 1, p) == under(m1, cs[i], h - 1, p)
            &&& #[trigger] first_leaf(m2, cs[i], h - 1) == first_leaf(m1, cs[i], h - 1)
            &&& forall|lo: Option<int>, hi: Option<int>, after: Option<PageId>|
                #[trigger] wf(m1, cs[i], h - 1, lo, hi, after) ==> wf(m2, cs[i], h - 1, lo, hi, after)
        } by {
            assert(agree_under(m1, m2, cs[i], h - 1));
            lemma_frame(m1, m2, cs[i], h - 1);
        }
        lemma_frame_list(m1, m2, cs, h - 1);
        assert forall|p: PageId| #[trigger] under(m2, id, h, p) == under(m1, id, h, p) by {
            lemma_under_unfold(m1, id, h, p);
            lemma_under_unfold(m2, id, h, p);
            if p != id {
                if under(m1, id, h, p) {
                    let i = choose|i: int| 0 <= i < cs.len() && #[trigger] under(m1, cs[i], h - 1, p);
                    assert(agree_under(m1, m2, cs[i], h - 1));
                    lemma_frame(m1, m2, cs[i], h - 1);
                    assert(under(m2, cs[i], h - 1, p));
                }
                if under(m2, id, h, p) {
                    let i = choose|i: int| 0 <= i < cs.len() && #[trigger] under(m2, cs[i], h - 1, p);
                    assert(agree_under(m1, m2, cs[i], h - 1));
                    lemma_frame(m1, m2, cs[i], h - 1);
                    assert(under(m1, cs[i], h - 1, p));
                }
            }
        }
        if cs.len() > 0 {
            assert(agree_under(m1, m2, cs[0], h - 1));
            assert(first_leaf(m2, cs[0], h - 1) == first_leaf(m1, cs[0], h - 1));
        }
        assert forall|lo: Option<int>, hi: Option<int>, after: Option<PageId>|
            #[trigger] wf(m1, id, h, lo, hi, after) implies wf(m2, id, h, lo, hi, after) by {
            lemma_wf_unfold(m1, id, h, lo, hi, after);
            lemma_wf_unfold(m2, id, h, lo, hi, after);
            assert forall|i: int| 0 <= i < cs.len() implies #[trigger] wf_child(m2, id, i, h, lo, hi, after) by {
                assert(wf_child(m1, id, i, h, lo, hi, after));
                assert(agree_under(m1, m2, cs[i], h - 1));
                lemma_frame(m1, m2, cs[i], h - 1);
                if i + 1 < cs.len() {
                    assert(agree_under(m1, m2, cs[i + 1], h - 1));
                    lemma_frame(m1, m2, cs[i + 1], h - 1);
                    assert(first_leaf(m2, cs[i + 1], h - 1) == first_leaf(m1, cs[i + 1], h - 1));
                }
                assert(child_after(m2, m2[id], after, i, h - 1) == child_after(m1, m1[id], after, i, h - 1));
            }
            assert forall|i: int, j: int, p: PageId| 0 <= i < j < cs.len() implies !(#[trigger] under(
                m2,
                m2[id].children[i],
                h - 1,
                p,
            ) && #[trigger] under(m2, m2[id].children[j], h - 1, p)) by {
                assert(agree_under(m1, m2, cs[i], h - 1));
                assert(agree_under(m1, m2, cs[j], h - 1));
                lemma_frame(m1, m2, cs[i], h - 1);
                lemma_frame(m1, m2, cs[j], h - 1);
                assert(!(under(m1, cs[i], h - 1, p) && under(m1, cs[j], h - 1, p)));
            }
            assert forall|i: int| 0 <= i < cs.len() implies !#[trigger] under(m2, m2[id].children[i], h - 1, id) by {
                assert(agree_under(m1, m2, cs[i], h - 1));
                lemma_frame(m1, m2, cs[i], h - 1);
                assert(!under(m1, cs[i], h - 1, id));
            }
        }
    }
}

pub proof fn lemma_frame_list<K: Key>(m1: Map<PageId, NodeModel<K>>, m2: Map<PageId, NodeModel<K>>, cs: Seq<PageId>, h: int)
    requires
        forall|i: int| 0 <= i < cs.len() ==> #[trigger] agree_under(m1, m2, cs[i], h),
    ensures
        entries_list(m2, cs, h) == entries_list(m1, cs, h),
        leaves_list(m2, cs, h) == leaves_list(m1, cs, h),
    decreases h, cs.len() + 1,
{
    if cs.len() > 0 {
        let init = cs.drop_last();
        assert forall|i: int| 0 <= i < init.len() implies #[trigger] agree_under(m1, m2, init[i], h) by {
            assert(agree_under(m1, m2, cs[i], h));
        }
        lemma_frame_list(m1, m2, init, h);
        assert(agree_under(m1, m2, cs[cs.len() - 1], h));
        lemma_frame(m1, m2, cs.last(), h);
    }
}

// ---------------------------------------------------------------------------
// Lemmas on entry sequences.

pub proof fn lemma_entries_list_concat<K>(m: Map<PageId, NodeModel<K>>, a: Seq<PageId>, b: Seq<PageId>, h: int)
    ensures
        entries_list(m, a + b, h) == entries_list(m, a, h) + entries_list(m, b, h),
        leaves_list(m, a + b, h) == leaves_list(m, a, h) + leaves_list(m, b, h),
    decreases b.len(),
{
    if b.len() == 0 {
        assert(a + b =~= a);
        assert(entries_list(m, b, h) =~= Seq::<Entry<K>>::empty());
        assert(entries_list(m, a, h) + entries_list(m, b, h) =~= entries_list(m, a, h));
        assert(leaves_list(m, a, h) + leaves_list(m, b, h) =~= leaves_list(m, a, h));
    } else {
        lemma_entries_list_concat(m, a, b.drop_last(), h);
        assert((a + b).drop_last() =~= a + b.drop_last());
        assert((a + b).last() == b.last());
        assert(entries_list(m, a + b, h) =~= entries_list(m, a, h) + entries_list(m, b, h));
        assert(leaves_list(m, a + b, h) =~= leaves_list(m, a, h) + leaves_list(m, b, h));
    }
}

pub proof fn lemma_entries_list_one<K>(m: Map<PageId, NodeModel<K>>, c: PageId, h: int)
    ensures
        entries_list(m, seq![c], h) == entries(m, c, h),
        leaves_list(m, seq![c], h) == leaves(m, c, h),
{
    let one = seq![c];
    assert(one.drop_last() =~= Seq::<PageId>::empty());
    assert(one.last() == c);
    assert(entries_list(m, one.drop_last(), h) =~= Seq::<Entry<K>>::empty());
    assert(leaves_list(m, one.drop_last(), h) =~= Seq::<PageId>::empty());
    assert(entries_list(m, one, h) == entries_list(m, one.drop_last(), h) + entries(m, c, h));
    assert(leaves_list(m, one, h) == leaves_list(m, one.drop_last(), h) + leaves(m, c, h));
    assert(entries_list(m, one, h) =~= entries(m, c, h));
    assert(leaves_list(m, one, h) =~= leaves(m, c, h));
}

/// The entries under a list of pages, split around the page at `i`.
pub proof fn lemma_entries_list_split<K>(m: Map<PageId, NodeModel<K>>, cs: Seq<PageId>, i: int, h: int)
    requires
        0 <= i < cs.len(),
    ensures
        entries_list(m, cs, h) == entries_list(m, cs.take(i), h) + entries(m, cs[i], h) + entries_list(
            m,
            cs.skip(i + 1),
            h,
        ),
        leaves_list(m, cs, h) == leaves_list(m, cs.take(i), h) + leaves(m, cs[i], h) + leaves_list(
            m,
            cs.skip(i + 1),
            h,
        ),
{
    assert(cs =~= cs.take(i) + seq![cs[i]] + cs.skip(i + 1));
    lemma_entries_list_concat(m, cs.take(i) + seq![cs[i]], cs.skip(i + 1), h);
    lemma_entries_list_concat(m, cs.take(i), seq![cs[i]], h);
    lemma_entries_list_one(m, cs[i], h);
}

/// If every page's entries lie in `[lo, hi)`, so do all of them together.
pub proof fn lemma_entries_list_within<K: Key>(
    m: Map<PageId, NodeModel<K>>,
    cs: Seq<PageId>,
    h: int,
    lo: Option<int>,
    hi: Option<int>,
)
    requires
        forall|j: int| 0 <= j < cs.len() ==> #[trigger] within(entries(m, cs[j], h), lo, hi),
    ensures
        within(entries_list(m, cs, h), lo, hi),
    decreases cs.len(),
{
    if cs.len() > 0 {
        let init = cs.drop_last();
        assert forall|j: int| 0 <= j < init.len() implies #[trigger] within(entries(m, init[j], h), lo, hi) by {
            assert(init[j] == cs[j]);
        }
        lemma_entries_list_within(m, init, h, lo, hi);
        assert(within(entries(m, cs[cs.len() - 1], h), lo, hi));
        let a = entries_list(m, init, h);
        let b = entries(m, cs.last(), h);
        assert forall|i: int| 0 <= i < (a + b).len() implies above(lo, #[trigger] (a + b)[i].0.rank()) && below(
            hi,
            (a + b)[i].0.rank(),
        ) by {
            if i < a.len() {
                assert((a + b)[i] == a[i]);
            } else {
                assert((a + b)[i] == b[i - a.len()]);
            }
        }
    }
}

pub proof fn lemma_within_weaken<K: Key>(es: Seq<Entry<K>>, lo: Option<int>, hi: Option<int>, lo2: Option<int>, hi2: Option<int>)
    requires
        within(es, lo, hi),
        forall|r: int| above(lo, r) ==> above(lo2, r),
        forall|r: int| below(hi, r) ==> below(hi2, r),
    ensures
        within(es, lo2, hi2),
{
    assert forall|i: int| 0 <= i < es.len() implies above(lo2, #[trigger] es[i].0.rank()) && below(hi2, es[i].0.rank()) by {
        assert(above(lo, es[i].0.rank()) && below(hi, es[i].0.rank()));
    }
}

/// The entries of the first `t` children of a well-formed node are ordered,
/// and lie between the node's lower bound and the bound after child `t - 1`.
proof fn lemma_entries_prefix_ordered<K: Key>(
    m: Map<PageId, NodeModel<K>>,
    id: PageId,
    h: int,
    lo: Option<int>,
    hi: Option<int>,
    after: Option<PageId>,
    t: int,
)
    requires
        h > 0,
        wf(m, id, h, lo, hi, after),
        1 <= t <= m[id].children.len(),
        forall|j: int| 0 <= j < m[id].children.len() ==> #[trigger] ordered(entries(m, m[id].children[j], h - 1)),
    ensures
        ordered(entries_list(m, m[id].children.take(t), h - 1)),
        within(entries_list(m, m[id].children.take(t), h - 1), lo, child_hi(hi, m[id].keys, t - 1)),
    decreases h, 0int, t,
{
    let cs = m[id].children;
    let keys = m[id].keys;
    lemma_wf_unfold(m, id, h, lo, hi, after);
    assert(wf_child(m, id, t - 1, h, lo, hi, after));
    lemma_entries_ordered(
        m,
        cs[t - 1],
        h - 1,
        child_lo(lo, keys, t - 1),
        child_hi(hi, keys, t - 1),
        child_after(m, m[id], after, t - 1, h - 1),
    );
    let e = entries(m, cs[t - 1], h - 1);
    assert(cs.take(t).drop_last() =~= cs.take(t - 1));
    assert(cs.take(t).last() == cs[t - 1]);
    if t == 1 {
        assert(cs.take(1) =~= seq![cs[0]]);
        lemma_entries_list_one(m, cs[0], h - 1);
        assert(entries_list(m, cs.take(1), h - 1) == e);
        lemma_within_weaken(e, child_lo(lo, keys, 0), child_hi(hi, keys, 0), lo, child_hi(hi, keys, 0));
    } else {
        lemma_entries_prefix_ordered(m, id, h, lo, hi, after, t - 1);
        let a = entries_list(m, cs.take(t - 1), h - 1);
        assert(entries_list(m, cs.take(t), h - 1) == a + e);
        // a lies below keys[t - 2], and e at or above it.
        assert(child_hi(hi, keys, t - 2) == Some(keys[t - 2].rank()));
        assert(child_lo(lo, keys, t - 1) == Some(keys[t - 2].rank()));
        assert(above(lo, keys[t - 2].rank()));
        assert forall|i: int, j: int| 0 <= i < j < (a + e).len() implies #[trigger] (a + e)[i].0.rank() < #[trigger] (
        a + e)[j].0.rank() by {
            if j < a.len() {
                assert((a + e)[i] == a[i] && (a + e)[j] == a[j]);
            } else if i >= a.len() {
                assert((a + e)[i] == e[i - a.len()] && (a + e)[j] == e[j - a.len()]);
            } else {
                assert((a + e)[i] == a[i] && (a + e)[j] == e[j - a.len()]);
                assert(below(Some(keys[t - 2].rank()), a[i].0.rank()));
                assert(above(Some(keys[t - 2].rank()), e[j - a.len()].0.rank()));
            }
        }
        assert forall|i: int| 0 <= i < (a + e).len() implies above(lo, #[trigger] (a + e)[i].0.rank()) && below(
            child_hi(hi, keys, t - 1),
            (a + e)[i].0.rank(),
        ) by {
            if i < a.len() {
                assert((a + e)[i] == a[i]);
                assert(a[i].0.rank() < keys[t - 2].rank());
                if t - 1 < keys.len() {
                    assert(keys[t - 2].rank() <= keys[t - 1].rank());
                } else {
                    assert(at_most(hi, keys[t - 2].rank()));
                }
            } else {
                assert((a + e)[i] == e[i - a.len()]);
            }
        }
    }
}

/// A well-formed tree's entries are in key order, within its bounds.
pub proof fn lemma_entries_ordered<K: Key>(
    m: Map<PageId, NodeModel<K>>,
    id: PageId,
    h: int,
    lo: Option<int>,
    hi: Option<int>,
    after: Option<PageId>,
)
    requires
        wf(m, id, h, lo, hi, after),
    ensures
        ordered(entries(m, id, h)),
        within(entries(m, id, h), lo, hi),
    decreases h, 1int, 0int,
{
    if h <= 0 {
        let n = m[id];
        let es = leaf_entries(n);
        assert forall|i: int, j: int| 0 <= i < j < es.len() implies #[trigger] es[i].0.rank() < #[trigger] es[j].0.rank() by {
            assert(n.keys[i].rank() < n.keys[j].rank());
        }
        assert forall|i: int| 0 <= i < es.len() implies above(lo, #[trigger] es[i].0.rank()) && below(hi, es[i].0.rank()) by {
            assert(above(lo, n.keys[i].rank()));
        }
    } else {
        let cs = m[id].children;
        lemma_wf_unfold(m, id, h, lo, hi, after);
        assert forall|j: int| 0 <= j < cs.len() implies #[trigger] ordered(entries(m, cs[j], h - 1)) by {
            assert(wf_child(m, id, j, h, lo, hi, after));
            lemma_entries_ordered(
                m,
                cs[j],
                h - 1,
                child_lo(lo, m[id].keys, j),
                child_hi(hi, m[id].keys, j),
                child_after(m, m[id], after, j, h - 1),
            );
        }
        lemma_entries_prefix_ordered(m, id, h, lo, hi, after, cs.len() as int);
        assert(cs.take(cs.len() as int) =~= cs);
    }
}

pub proof fn lemma_seq_get_concat<K: Key>(a: Seq<Entry<K>>, b: Seq<Entry<K>>, r: int)
    ensures
        seq_get(a + b, r) == match seq_get(a, r) {
            Some(v) => Some(v),
            None => seq_get(b, r),
        },
    decreases a.len(),
{
    if a.len() == 0 {
        assert(a + b =~= b);
    } else {
        assert((a + b).drop_first() =~= a.drop_first() + b);
        lemma_seq_get_concat(a.drop_first(), b, r);
    }
}

/// A key outside every entry's range is not found.
pub proof fn lemma_seq_get_absent<K: Key>(es: Seq<Entry<K>>, r: int)
    requires
        forall|i: int| 0 <= i < es.len() ==> #[trigger] es[i].0.rank() != r,
    ensures
        seq_get(es, r) is None,
    decreases es.len(),
{
    if es.len() > 0 {
        assert forall|i: int| 0 <= i < es.drop_first().len() implies #[trigger] es.drop_first()[i].0.rank() != r by {
            assert(es.drop_first()[i] == es[i + 1]);
        }
        lemma_seq_get_absent(es.drop_first(), r);
    }
}

/// The entry found for the key of rank `r` is the one at its position.
pub proof fn lemma_seq_get_at<K: Key>(es: Seq<Entry<K>>, r: int, i: int)
    requires
        ordered(es),
        0 <= i < es.len(),
        es[i].0.rank() == r,
    ensures
        seq_get(es, r) == Some(es[i].1),
    decreases i,
{
    if i > 0 {
        assert(es[0].0.rank() < es[i].0.rank());
        let t = es.drop_first();
        assert(t[i - 1] == es[i]);
        assert forall|a: int, b: int| 0 <= a < b < t.len() implies #[trigger] t[a].0.rank() < #[trigger] t[b].0.rank() by {
            assert(t[a] == es[a + 1] && t[b] == es[b + 1]);
        }
        lemma_seq_get_at(t, r, i - 1);
    }
}

/// Finding a key in a leaf comes down to finding its slot.
pub proof fn lemma_seq_get_leaf<K: Key>(n: NodeModel<K>, r: int)
    requires
        n.values.len() == n.keys.len(),
        sorted_strict(n.keys),
    ensures
        seq_get(leaf_entries(n), r) == match crate::node::slot_of(n.keys, r) {
            Some(i) => Some(n.values[i as int]),
            None => None,
        },
{
    let es = leaf_entries(n);
    crate::node::lemma_slot(n.keys, r);
    assert forall|a: int, b: int| 0 <= a < b < es.len() implies #[trigger] es[a].0.rank() < #[trigger] es[b].0.rank() by {
        assert(n.keys[a].rank() < n.keys[b].rank());
    }
    match crate::node::slot_of(n.keys, r) {
        Some(i) => {
            lemma_seq_get_at(es, r, i as int);
        },
        None => {
            assert forall|i: int| 0 <= i < es.len() implies #[trigger] es[i].0.rank() != r by {
                assert(n.keys[i].rank() != r);
            }
            lemma_seq_get_absent(es, r);
        },
    }
}

/// One step of a lookup: the key's entry, if any, is under the child its
/// rank routes to, which is well formed within a range holding the rank.
pub proof fn lemma_get_step<K: Key>(
    m: Map<PageId, NodeModel<K>>,
    id: PageId,
    h: int,
    lo: Option<int>,
    hi: Option<int>,
    after: Option<PageId>,
    r: int,
)
    requires
        h > 0,
        wf(m, id, h, lo, hi, after),
        above(lo, r),
        below(hi, r),
    ensures
        ({
            let i = crate::node::child_index_of(m[id].keys, r) as int;
            &&& 0 <= i < m[id].children.len()
            &&& wf_child(m, id, i, h, lo, hi, after)
            &&& above(child_lo(lo, m[id].keys, i), r)
            &&& below(child_hi(hi, m[id].keys, i), r)
            &&& seq_get(entries(m, id, h), r) == seq_get(entries(m, m[id].children[i], h - 1), r)
        }),
{
    let keys = m[id].keys;
    let cs = m[id].children;
    let i = crate::node::child_index_of(keys, r) as int;
    crate::node::lemma_child_index_bound(keys, r);
    lemma_wf_unfold(m, id, h, lo, hi, after);
    assert(wf_child(m, id, i, h, lo, hi, after));
    lemma_entries_list_split(m, cs, i, h - 1);
    let pre = entries_list(m, cs.take(i), h - 1);
    let mid = entries(m, cs[i], h - 1);
    let suf = entries_list(m, cs.skip(i + 1), h - 1);
    // every entry before child i lies below keys[i - 1], which is at most r
    assert forall|j: int| 0 <= j < cs.take(i).len() implies #[trigger] within(
        entries(m, cs.take(i)[j], h - 1),
        None,
        Some(r),
    ) by {
        assert(cs.take(i)[j] == cs[j]);
        assert(wf_child(m, id, j, h, lo, hi, after));
        lemma_entries_ordered(
            m,
            cs[j],
            h - 1,
            child_lo(lo, keys, j),
            child_hi(hi, keys, j),
            child_after(m, m[id], after, j, h - 1),
        );
        assert(keys[j].rank() <= r);
        lemma_within_weaken(entries(m, cs[j], h - 1), child_lo(lo, keys, j), child_hi(hi, keys, j), None, Some(r));
    }
    lemma_entries_list_within(m, cs.take(i), h - 1, None, Some(r));
    // every entry after child i lies at or above keys[i], which is above r
    assert forall|j: int| 0 <= j < cs.skip(i + 1).len() implies #[trigger] within(
        entries(m, cs.skip(i + 1)[j], h - 1),
        Some(r + 1),
        None,
    ) by {
        let jj = j + i + 1;
        assert(cs.skip(i + 1)[j] == cs[jj]);
        assert(wf_child(m, id, jj, h, lo, hi, after));
        lemma_entries_ordered(
            m,
            cs[jj],
            h - 1,
            child_lo(lo, keys, jj),
            child_hi(hi, keys, jj),
            child_after(m, m[id], after, jj, h - 1),
        );
        assert(keys[i].rank() <= keys[jj - 1].rank());
        lemma_within_weaken(entries(m, cs[jj], h - 1), child_lo(lo, keys, jj), child_hi(hi, keys, jj), Some(r + 1), None);
    }
    lemma_entries_list_within(m, cs.skip(i + 1), h - 1, Some(r + 1), None);
    assert forall|j: int| 0 <= j < pre.len() implies #[trigger] pre[j].0.rank() != r by {
        assert(below(Some(r), pre[j].0.rank()));
    }
    assert forall|j: int| 0 <= j < suf.len() implies #[trigger] suf[j].0.rank() != r by {
        assert(above(Some(r + 1), suf[j].0.rank()));
    }
    lemma_seq_get_absent(pre, r);
    lemma_seq_get_absent(suf, r);
    lemma_seq_get_concat(pre + mid, suf, r);
    lemma_seq_get_concat(pre, mid, r);
    if i > 0 {
        assert(above(lo, keys[i - 1].rank()));
    }
}

} // verus!
