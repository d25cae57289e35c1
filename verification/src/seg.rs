//! Runs of sibling subtrees with the separators between them: the unit that
//! splitting, merging and borrowing rearrange.
//!
//! An internal node is a run of children `cs` with separators `ks`, one
//! fewer. The run is well formed within `[lo, hi]` when every child is a
//! well-formed subtree in the range its separators give it, the children
//! share no page, and the leaves of the run are chained in order, the last
//! one pointing to `after`. Runs compose: two well-formed runs joined by a
//! separator between them are a well-formed run, and back.

use vstd::prelude::*;

use crate::error::PageId;
use crate::key::Key;
use crate::node::NodeModel;
use crate::tree::{
    above, agree_under, at_most, child_hi, child_lo, entries_list, first_leaf,
    lemma_entries_list_concat, lemma_frame, lemma_frame_list, lemma_under_unfold, lemma_wf_unfold,
    leaves_list, sorted_weak, under, wf, wf_child,
};

verus! {

/// Where the last leaf under `cs[j]` points: the first leaf under `cs[j + 1]`,
/// or `after` for the last child of the run.
pub open spec fn seg_after<K>(
    m: Map<PageId, NodeModel<K>>,
    cs: Seq<PageId>,
    after: Option<PageId>,
    j: int,
    h: int,
) -> Option<PageId> {
    if j + 1 < cs.len() {
        Some(first_leaf(m, cs[j + 1], h))
    } else {
        after
    }
}

/// Separators sorted and within `[lo, hi]`.
pub open spec fn keys_in<K: Key>(ks: Seq<K>, lo: Option<int>, hi: Option<int>) -> bool {
    &&& sorted_weak(ks)
    &&& forall|i: int|
        0 <= i < ks.len() ==> above(lo, #[trigger] ks[i].rank()) && at_most(hi, ks[i].rank())
}

/// No page is under both a subtree of `a` (read in `m1`) and one of `b` (read in `m2`).
pub open spec fn apart<K>(
    m1: Map<PageId, NodeModel<K>>,
    a: Seq<PageId>,
    m2: Map<PageId, NodeModel<K>>,
    b: Seq<PageId>,
    h: int,
) -> bool {
    forall|i: int, j: int, p: PageId|
        0 <= i < a.len() && 0 <= j < b.len() ==> !(#[trigger] under(m1, a[i], h, p) && #[trigger] under(
            m2,
            b[j],
            h,
            p,
        ))
}

/// No page is under two different subtrees of `cs`.
pub open spec fn pairwise_apart<K>(m: Map<PageId, NodeModel<K>>, cs: Seq<PageId>, h: int) -> bool {
    forall|i: int, j: int, p: PageId|
        0 <= i < j < cs.len() ==> !(#[trigger] under(m, cs[i], h, p) && #[trigger] under(m, cs[j], h, p))
}

/// Is `p` under one of the subtrees of `cs`?
pub open spec fn under_some<K>(m: Map<PageId, NodeModel<K>>, cs: Seq<PageId>, h: int, p: PageId) -> bool {
    exists|j: int| 0 <= j < cs.len() && #[trigger] under(m, cs[j], h, p)
}

/// Child `j` of the run is well formed in the range its separators give it.
pub open spec fn seg_child<K: Key>(
    m: Map<PageId, NodeModel<K>>,
    cs: Seq<PageId>,
    ks: Seq<K>,
    h: int,
    lo: Option<int>,
    hi: Option<int>,
    after: Option<PageId>,
    j: int,
) -> bool {
    wf(m, cs[j], h, child_lo(lo, ks, j), child_hi(hi, ks, j), seg_after(m, cs, after, j, h))
}

/// The run of subtrees `cs`, each of height `h`, with separators `ks`, is
/// well formed within `[lo, hi]`, its last leaf pointing to `after`.
pub open spec fn seg_wf<K: Key>(
    m: Map<PageId, NodeModel<K>>,
    cs: Seq<PageId>,
    ks: Seq<K>,
    h: int,
    lo: Option<int>,
    hi: Option<int>,
    after: Option<PageId>,
) -> bool {
    &&& cs.len() == ks.len() + 1
    &&& keys_in(ks, lo, hi)
    &&& pairwise_apart(m, cs, h)
    &&& forall|j: int| 0 <= j < cs.len() ==> #[trigger] seg_child(m, cs, ks, h, lo, hi, after, j)
}

/// The parts of an internal node that do not concern its children.
pub open spec fn inner_ok<K>(m: Map<PageId, NodeModel<K>>, id: PageId) -> bool {
    &&& m.contains_key(id)
    &&& !m[id].is_leaf
    &&& m[id].values.len() == 0
    &&& m[id].next is None
}

/// A well-formed internal node is a well-formed run of children under a
/// page that none of them reaches.
pub proof fn lemma_wf_seg<K: Key>(
    m: Map<PageId, NodeModel<K>>,
    id: PageId,
    h: int,
    lo: Option<int>,
    hi: Option<int>,
    after: Option<PageId>,
)
    requires
        h > 0,
    ensures
        wf(m, id, h, lo, hi, after) == (inner_ok(m, id) && seg_wf(
            m,
            m[id].children,
            m[id].keys,
            h - 1,
            lo,
            hi,
            after,
        ) && !under_some(m, m[id].children, h - 1, id)),
{
    lemma_wf_unfold(m, id, h, lo, hi, after);
    let cs = m[id].children;
    let ks = m[id].keys;
    assert forall|j: int| 0 <= j < cs.len() implies #[trigger] wf_child(m, id, j, h, lo, hi, after)
        == seg_child(m, cs, ks, h - 1, lo, hi, after, j) by {}
    if wf(m, id, h, lo, hi, after) {
        assert forall|j: int| 0 <= j < cs.len() implies #[trigger] seg_child(m, cs, ks, h - 1, lo, hi, after, j) by {
            assert(wf_child(m, id, j, h, lo, hi, after));
        }
        if under_some(m, cs, h - 1, id) {
            let j = choose|j: int| 0 <= j < cs.len() && #[trigger] under(m, cs[j], h - 1, id);
            assert(false);
        }
    }
    if inner_ok(m, id) && seg_wf(m, cs, ks, h - 1, lo, hi, after) && !under_some(m, cs, h - 1, id) {
        assert forall|j: int| 0 <= j < cs.len() implies #[trigger] wf_child(m, id, j, h, lo, hi, after) by {
            assert(seg_child(m, cs, ks, h - 1, lo, hi, after, j));
        }
        assert forall|j: int| 0 <= j < cs.len() implies !#[trigger] under(m, m[id].children[j], h - 1, id) by {
            if under(m, cs[j], h - 1, id) {
                assert(under_some(m, cs, h - 1, id));
            }
        }
    }
}

/// Being under a page of positive height: the page itself, or under one of its children.
pub proof fn lemma_under_node<K>(m: Map<PageId, NodeModel<K>>, id: PageId, h: int, p: PageId)
    requires
        h > 0,
    ensures
        under(m, id, h, p) == (p == id || under_some(m, m[id].children, h - 1, p)),
{
    lemma_under_unfold(m, id, h, p);
}

/// Being under a run joined from two runs.
pub proof fn lemma_under_some_concat<K>(
    m: Map<PageId, NodeModel<K>>,
    a: Seq<PageId>,
    b: Seq<PageId>,
    h: int,
    p: PageId,
)
    ensures
        under_some(m, a + b, h, p) == (under_some(m, a, h, p) || under_some(m, b, h, p)),
{
    let ab = a + b;
    if under_some(m, ab, h, p) {
        let j = choose|j: int| 0 <= j < ab.len() && #[trigger] under(m, ab[j], h, p);
        if j < a.len() {
            assert(ab[j] == a[j]);
            assert(under_some(m, a, h, p));
        } else {
            assert(ab[j] == b[j - a.len()]);
            assert(under(m, b[j - a.len()], h, p));
            assert(under_some(m, b, h, p));
        }
    }
    if under_some(m, a, h, p) {
        let j = choose|j: int| 0 <= j < a.len() && #[trigger] under(m, a[j], h, p);
        assert(ab[j] == a[j]);
        assert(under_some(m, ab, h, p));
    }
    if under_some(m, b, h, p) {
        let j = choose|j: int| 0 <= j < b.len() && #[trigger] under(m, b[j], h, p);
        assert(ab[j + a.len()] == b[j]);
        assert(under(m, ab[j + a.len()], h, p));
        assert(under_some(m, ab, h, p));
    }
}

/// Being under a run of one subtree.
pub proof fn lemma_under_some_one<K>(m: Map<PageId, NodeModel<K>>, c: PageId, h: int, p: PageId)
    ensures
        under_some(m, seq![c], h, p) == under(m, c, h, p),
{
    if under(m, c, h, p) {
        assert(seq![c][0] == c);
        assert(under(m, seq![c][0], h, p));
    }
}

/// A run of one subtree is that subtree.
pub proof fn lemma_seg_single<K: Key>(
    m: Map<PageId, NodeModel<K>>,
    c: PageId,
    h: int,
    lo: Option<int>,
    hi: Option<int>,
    after: Option<PageId>,
)
    ensures
        seg_wf(m, seq![c], Seq::<K>::empty(), h, lo, hi, after) == wf(m, c, h, lo, hi, after),
        entries_list(m, seq![c], h) == crate::tree::entries(m, c, h),
{
    let cs = seq![c];
    let ks = Seq::<K>::empty();
    assert(cs[0] == c);
    assert(seg_child(m, cs, ks, h, lo, hi, after, 0) == wf(m, c, h, lo, hi, after));
    crate::tree::lemma_entries_list_one(m, c, h);
}

/// Two page maps that agree under every subtree of a run agree on the run.
pub proof fn lemma_seg_frame<K: Key>(
    m1: Map<PageId, NodeModel<K>>,
    m2: Map<PageId, NodeModel<K>>,
    cs: Seq<PageId>,
    ks: Seq<K>,
    h: int,
    lo: Option<int>,
    hi: Option<int>,
    after: Option<PageId>,
)
    requires
        forall|j: int| 0 <= j < cs.len() ==> #[trigger] agree_under(m1, m2, cs[j], h),
    ensures
        seg_wf(m1, cs, ks, h, lo, hi, after) ==> seg_wf(m2, cs, ks, h, lo, hi, after),
        entries_list(m2, cs, h) == entries_list(m1, cs, h),
        leaves_list(m2, cs, h) == leaves_list(m1, cs, h),
        forall|j: int, p: PageId| 0 <= j < cs.len() ==> #[trigger] under(m2, cs[j], h, p) == under(m1, cs[j], h, p),
        forall|j: int| 0 <= j < cs.len() ==> #[trigger] first_leaf(m2, cs[j], h) == first_leaf(m1, cs[j], h),
        forall|p: PageId| #[trigger] under_some(m2, cs, h, p) == under_some(m1, cs, h, p),
{
    assert forall|j: int| 0 <= j < cs.len() implies {
        &&& forall|p: PageId| #[trigger] under(m2, cs[j], h, p) == under(m1, cs[j], h, p)
        &&& #[trigger] first_leaf(m2, cs[j], h) == first_leaf(m1, cs[j], h)
        &&& forall|lo: Option<int>, hi: Option<int>, after: Option<PageId>|
            #[trigger] wf(m1, cs[j], h, lo, hi, after) ==> wf(m2, cs[j], h, lo, hi, after)
    } by {
        lemma_frame(m1, m2, cs[j], h);
    }
    lemma_frame_list(m1, m2, cs, h);
    assert forall|j: int, p: PageId| 0 <= j < cs.len() implies #[trigger] under(m2, cs[j], h, p) == under(
        m1,
        cs[j],
        h,
        p,
    ) by {
        lemma_frame(m1, m2, cs[j], h);
    }
    assert forall|p: PageId| #[trigger] under_some(m2, cs, h, p) == under_some(m1, cs, h, p) by {
        if under_some(m2, cs, h, p) {
            let j = choose|j: int| 0 <= j < cs.len() && #[trigger] under(m2, cs[j], h, p);
            assert(under(m1, cs[j], h, p));
        }
        if under_some(m1, cs, h, p) {
            let j = choose|j: int| 0 <= j < cs.len() && #[trigger] under(m1, cs[j], h, p);
            assert(under(m2, cs[j], h, p));
        }
    }
    if seg_wf(m1, cs, ks, h, lo, hi, after) {
        assert forall|j: int| 0 <= j < cs.len() implies #[trigger] seg_child(m2, cs, ks, h, lo, hi, after, j) by {
            assert(seg_child(m1, cs, ks, h, lo, hi, after, j));
            lemma_frame(m1, m2, cs[j], h);
            if j + 1 < cs.len() {
                lemma_frame(m1, m2, cs[j + 1], h);
                assert(first_leaf(m2, cs[j + 1], h) == first_leaf(m1, cs[j + 1], h));
            }
            assert(seg_after(m2, cs, after, j, h) == seg_after(m1, cs, after, j, h));
        }
        assert forall|a: int, b: int, p: PageId| 0 <= a < b < cs.len() implies !(#[trigger] under(
            m2,
            cs[a],
            h,
            p,
        ) && #[trigger] under(m2, cs[b], h, p)) by {
            assert(under(m2, cs[a], h, p) == under(m1, cs[a], h, p));
            assert(under(m2, cs[b], h, p) == under(m1, cs[b], h, p));
        }
    }
}

/// Joining two runs with a separator between them: the whole is well formed
/// exactly when both parts are, each within its side of the separator, and
/// they share no page.
pub proof fn lemma_seg_concat<K: Key>(
    m: Map<PageId, NodeModel<K>>,
    cs1: Seq<PageId>,
    ks1: Seq<K>,
    k: K,
    cs2: Seq<PageId>,
    ks2: Seq<K>,
    h: int,
    lo: Option<int>,
    hi: Option<int>,
    after: Option<PageId>,
)
    requires
        cs1.len() == ks1.len() + 1,
        cs2.len() == ks2.len() + 1,
    ensures
        seg_wf(m, cs1 + cs2, ks1 + seq![k] + ks2, h, lo, hi, after) == (seg_wf(
            m,
            cs1,
            ks1,
            h,
            lo,
            Some(k.rank()),
            Some(first_leaf(m, cs2[0], h)),
        ) && seg_wf(m, cs2, ks2, h, Some(k.rank()), hi, after) && above(lo, k.rank()) && at_most(
            hi,
            k.rank(),
        ) && apart(m, cs1, m, cs2, h)),
        entries_list(m, cs1 + cs2, h) == entries_list(m, cs1, h) + entries_list(m, cs2, h),
{
    let cs = cs1 + cs2;
    let ks = ks1 + seq![k] + ks2;
    let n1 = cs1.len() as int;
    let kr = Some(k.rank());
    let fl = Some(first_leaf(m, cs2[0], h));
    lemma_entries_list_concat(m, cs1, cs2, h);
    assert(ks.len() == cs.len() - 1);
    assert forall|i: int| 0 <= i < n1 - 1 implies #[trigger] ks[i] == ks1[i] by {}
    assert(ks[n1 - 1] == k);
    assert forall|t: int| 0 <= t < ks2.len() implies #[trigger] ks[n1 + t] == ks2[t] by {}
    assert forall|j: int| 0 <= j < n1 implies #[trigger] seg_child(m, cs, ks, h, lo, hi, after, j)
        == seg_child(m, cs1, ks1, h, lo, kr, fl, j) by {
        assert(cs[j] == cs1[j]);
        if j > 0 {
            assert(ks[j - 1] == ks1[j - 1]);
        }
        if j < n1 - 1 {
            assert(ks[j] == ks1[j]);
        }
        assert(child_lo(lo, ks, j) == child_lo(lo, ks1, j));
        assert(child_hi(hi, ks, j) == child_hi(kr, ks1, j));
        if j + 1 < n1 {
            assert(cs[j + 1] == cs1[j + 1]);
        } else {
            assert(cs[j + 1] == cs2[0]);
        }
        assert(seg_after(m, cs, after, j, h) == seg_after(m, cs1, fl, j, h));
    }
    assert forall|t: int| 0 <= t < cs2.len() implies #[trigger] seg_child(m, cs, ks, h, lo, hi, after, n1 + t)
        == seg_child(m, cs2, ks2, h, kr, hi, after, t) by {
        assert(cs[n1 + t] == cs2[t]);
        if t > 0 {
            assert(ks[n1 + t - 1] == ks2[t - 1]);
        }
        if t < ks2.len() {
            assert(ks[n1 + t] == ks2[t]);
        }
        assert(child_lo(lo, ks, n1 + t) == child_lo(kr, ks2, t));
        assert(child_hi(hi, ks, n1 + t) == child_hi(hi, ks2, t));
        if t + 1 < cs2.len() {
            assert(cs[n1 + t + 1] == cs2[t + 1]);
        }
        assert(seg_after(m, cs, after, n1 + t, h) == seg_after(m, cs2, after, t, h));
    }
    if seg_wf(m, cs, ks, h, lo, hi, after) {
        assert(above(lo, ks[n1 - 1].rank()) && at_most(hi, ks[n1 - 1].rank()));
        assert forall|i: int, j: int| 0 <= i < j < ks1.len() implies #[trigger] ks1[i].rank() <= #[trigger] ks1[j].rank() by {
            assert(ks[i] == ks1[i] && ks[j] == ks1[j]);
        }
        assert forall|i: int| 0 <= i < ks1.len() implies above(lo, #[trigger] ks1[i].rank()) && at_most(
            kr,
            ks1[i].rank(),
        ) by {
            assert(ks[i] == ks1[i]);
            assert(ks[i].rank() <= ks[n1 - 1].rank());
        }
        assert forall|i: int, j: int| 0 <= i < j < ks2.len() implies #[trigger] ks2[i].rank() <= #[trigger] ks2[j].rank() by {
            assert(ks[n1 + i] == ks2[i] && ks[n1 + j] == ks2[j]);
        }
        assert forall|i: int| 0 <= i < ks2.len() implies above(kr, #[trigger] ks2[i].rank()) && at_most(
            hi,
            ks2[i].rank(),
        ) by {
            assert(ks[n1 + i] == ks2[i]);
            assert(ks[n1 - 1].rank() <= ks[n1 + i].rank());
        }
        assert forall|i: int, j: int, p: PageId| 0 <= i < j < cs1.len() implies !(#[trigger] under(
            m,
            cs1[i],
            h,
            p,
        ) && #[trigger] under(m, cs1[j], h, p)) by {
            assert(cs[i] == cs1[i] && cs[j] == cs1[j]);
        }
        assert forall|i: int, j: int, p: PageId| 0 <= i < j < cs2.len() implies !(#[trigger] under(
            m,
            cs2[i],
            h,
            p,
        ) && #[trigger] under(m, cs2[j], h, p)) by {
            assert(cs[n1 + i] == cs2[i] && cs[n1 + j] == cs2[j]);
        }
        assert forall|i: int, j: int, p: PageId| 0 <= i < cs1.len() && 0 <= j < cs2.len() implies !(
        #[trigger] under(m, cs1[i], h, p) && #[trigger] under(m, cs2[j], h, p)) by {
            assert(cs[i] == cs1[i] && cs[n1 + j] == cs2[j]);
        }
        assert forall|j: int| 0 <= j < cs1.len() implies #[trigger] seg_child(m, cs1, ks1, h, lo, kr, fl, j) by {
            assert(seg_child(m, cs, ks, h, lo, hi, after, j));
        }
        assert forall|t: int| 0 <= t < cs2.len() implies #[trigger] seg_child(m, cs2, ks2, h, kr, hi, after, t) by {
            assert(seg_child(m, cs, ks, h, lo, hi, after, n1 + t));
        }
    }
    if seg_wf(m, cs1, ks1, h, lo, kr, fl) && seg_wf(m, cs2, ks2, h, kr, hi, after) && above(lo, k.rank())
        && at_most(hi, k.rank()) && apart(m, cs1, m, cs2, h) {
        assert forall|i: int| 0 <= i < ks.len() implies above(lo, #[trigger] ks[i].rank()) && at_most(
            hi,
            ks[i].rank(),
        ) && (i < n1 - 1 ==> ks[i].rank() <= k.rank()) && (i >= n1 - 1 ==> k.rank() <= ks[i].rank()) by {
            if i < n1 - 1 {
                assert(ks[i] == ks1[i]);
                assert(at_most(kr, ks1[i].rank()));
            } else if i > n1 - 1 {
                assert(ks[i] == ks2[i - n1]);
                assert(above(kr, ks2[i - n1].rank()));
            }
        }
        assert forall|i: int, j: int| 0 <= i < j < ks.len() implies #[trigger] ks[i].rank() <= #[trigger] ks[j].rank() by {
            if j < n1 - 1 {
                assert(ks[i] == ks1[i] && ks[j] == ks1[j]);
            } else if i > n1 - 1 {
                assert(ks[i] == ks2[i - n1] && ks[j] == ks2[j - n1]);
            } else {
                assert(ks[i].rank() <= k.rank());
                assert(k.rank() <= ks[j].rank());
            }
        }
        assert forall|i: int, j: int, p: PageId| 0 <= i < j < cs.len() implies !(#[trigger] under(
            m,
            cs[i],
            h,
            p,
        ) && #[trigger] under(m, cs[j], h, p)) by {
            if j < n1 {
                assert(cs[i] == cs1[i] && cs[j] == cs1[j]);
            } else if i >= n1 {
                assert(cs[i] == cs2[i - n1] && cs[j] == cs2[j - n1]);
            } else {
                assert(cs[i] == cs1[i] && cs[j] == cs2[j - n1]);
            }
        }
        assert forall|j: int| 0 <= j < cs.len() implies #[trigger] seg_child(m, cs, ks, h, lo, hi, after, j) by {
            if j < n1 {
                assert(seg_child(m, cs1, ks1, h, lo, kr, fl, j));
            } else {
                assert(seg_child(m, cs2, ks2, h, kr, hi, after, j - n1));
                assert(seg_child(m, cs, ks, h, lo, hi, after, n1 + (j - n1)));
            }
        }
    }
}

/// Replacing the first `a` children of a run by a new run that covers the
/// same range and shares no page with the children kept.
proof fn lemma_seg_replace_front<K: Key>(
    m1: Map<PageId, NodeModel<K>>,
    m2: Map<PageId, NodeModel<K>>,
    cs: Seq<PageId>,
    ks: Seq<K>,
    h: int,
    lo: Option<int>,
    hi: Option<int>,
    after: Option<PageId>,
    a: int,
    new_cs: Seq<PageId>,
    new_ks: Seq<K>,
)
    requires
        seg_wf(m1, cs, ks, h, lo, hi, after),
        1 <= a <= cs.len(),
        new_cs.len() == new_ks.len() + 1,
        forall|j: int| 0 <= j < cs.skip(a).len() ==> #[trigger] agree_under(m1, m2, cs.skip(a)[j], h),
        seg_wf(m2, new_cs, new_ks, h, lo, child_hi(hi, ks, a - 1), seg_after(m1, cs, after, a - 1, h)),
        apart(m2, new_cs, m1, cs.skip(a), h),
    ensures
        seg_wf(m2, new_cs + cs.skip(a), new_ks + ks.skip(a - 1), h, lo, hi, after),
        entries_list(m2, new_cs + cs.skip(a), h) == entries_list(m2, new_cs, h) + entries_list(
            m1,
            cs.skip(a),
            h,
        ),
{
    let w = cs.take(a);
    let b = cs.skip(a);
    let kw = ks.take(a - 1);
    let kb_s = ks.skip(a);
    lemma_seg_frame(m1, m2, b, kb_s, h, Some(ks[a - 1].rank()), hi, after);
    if a < cs.len() {
        assert(cs =~= w + b);
        assert(ks =~= kw + seq![ks[a - 1]] + kb_s);
        lemma_seg_concat(m1, w, kw, ks[a - 1], b, kb_s, h, lo, hi, after);
        assert(b[0] == cs[a]);
        assert forall|t: int, j: int, p: PageId| 0 <= t < new_cs.len() && 0 <= j < b.len() implies !(
        #[trigger] under(m2, new_cs[t], h, p) && #[trigger] under(m2, b[j], h, p)) by {
            assert(under(m2, b[j], h, p) == under(m1, b[j], h, p));
        }
        lemma_seg_concat(m2, new_cs, new_ks, ks[a - 1], b, kb_s, h, lo, hi, after);
        assert(ks.skip(a - 1) =~= seq![ks[a - 1]] + kb_s);
        assert(new_ks + ks.skip(a - 1) =~= new_ks + seq![ks[a - 1]] + kb_s);
    } else {
        assert(b =~= Seq::<PageId>::empty());
        assert(ks.skip(a - 1) =~= Seq::<K>::empty());
        assert(new_cs + b =~= new_cs);
        assert(new_ks + ks.skip(a - 1) =~= new_ks);
    }
    lemma_entries_list_concat(m2, new_cs, b, h);
}

/// Replacing the children `cs[i..i + a]` of a run by a new run that covers
/// the same range, starts at the same leaf, and reaches only pages it
/// reached before or fresh ones, keeps the run well formed; its entries are
/// the new run's in place of the old ones'.
#[verifier::rlimit(40)]
pub proof fn lemma_seg_replace<K: Key>(
    m1: Map<PageId, NodeModel<K>>,
    m2: Map<PageId, NodeModel<K>>,
    cs: Seq<PageId>,
    ks: Seq<K>,
    h: int,
    lo: Option<int>,
    hi: Option<int>,
    after: Option<PageId>,
    i: int,
    a: int,
    new_cs: Seq<PageId>,
    new_ks: Seq<K>,
    fresh: PageId,
)
    requires
        seg_wf(m1, cs, ks, h, lo, hi, after),
        0 <= i,
        1 <= a,
        i + a <= cs.len(),
        new_cs.len() == new_ks.len() + 1,
        forall|j: int| 0 <= j < cs.len() && !(i <= j < i + a) ==> #[trigger] agree_under(m1, m2, cs[j], h),
        seg_wf(
            m2,
            new_cs,
            new_ks,
            h,
            child_lo(lo, ks, i),
            child_hi(hi, ks, i + a - 1),
            seg_after(m1, cs, after, i + a - 1, h),
        ),
        first_leaf(m2, new_cs[0], h) == first_leaf(m1, cs[i], h),
        forall|p: PageId| #[trigger]
            under_some(m2, new_cs, h, p) ==> under_some(m1, cs.subrange(i, i + a), h, p) || fresh <= p,
        forall|p: PageId| #[trigger] under_some(m1, cs, h, p) ==> p < fresh,
    ensures
        seg_wf(m2, cs.take(i) + new_cs + cs.skip(i + a), ks.take(i) + new_ks + ks.skip(i + a - 1), h, lo, hi, after),
        entries_list(m2, cs.take(i) + new_cs + cs.skip(i + a), h) == entries_list(m1, cs.take(i), h)
            + entries_list(m2, new_cs, h) + entries_list(m1, cs.skip(i + a), h),
        forall|p: PageId| #[trigger]
            under_some(m2, cs.take(i) + new_cs + cs.skip(i + a), h, p) ==> under_some(m1, cs, h, p) || fresh <= p,
        first_leaf(m2, (cs.take(i) + new_cs + cs.skip(i + a))[0], h) == first_leaf(m1, cs[0], h),
{
    let aa = cs.take(i);
    let w = cs.subrange(i, i + a);
    let b = cs.skip(i + a);
    let rest = cs.skip(i);
    let ks_r = ks.skip(i);
    let cs2 = aa + new_cs + b;
    let ks2 = ks.take(i) + new_ks + ks.skip(i + a - 1);
    assert(cs =~= aa + rest);
    assert(rest =~= w + b);
    assert(rest.skip(a) =~= b);
    assert(ks_r.skip(a - 1) =~= ks.skip(i + a - 1));
    // The new children share no page with the kept ones.
    assert forall|t: int, j: int, p: PageId| 0 <= t < new_cs.len() && 0 <= j < cs.len() && !(i <= j < i
        + a) implies !(#[trigger] under(m2, new_cs[t], h, p) && #[trigger] under(m1, cs[j], h, p)) by {
        if under(m2, new_cs[t], h, p) && under(m1, cs[j], h, p) {
            assert(under_some(m2, new_cs, h, p));
            assert(under_some(m1, cs, h, p));
            let u = choose|u: int| 0 <= u < w.len() && #[trigger] under(m1, w[u], h, p);
            assert(w[u] == cs[i + u]);
            if j < i + u {
                assert(!(under(m1, cs[j], h, p) && under(m1, cs[i + u], h, p)));
            } else {
                assert(!(under(m1, cs[i + u], h, p) && under(m1, cs[j], h, p)));
            }
        }
    }
    assert forall|t: int, j: int, p: PageId| 0 <= t < new_cs.len() && 0 <= j < b.len() implies !(
    #[trigger] under(m2, new_cs[t], h, p) && #[trigger] under(m1, b[j], h, p)) by {
        assert(b[j] == cs[i + a + j]);
    }
    assert forall|j: int| 0 <= j < b.len() implies #[trigger] agree_under(m1, m2, b[j], h) by {
        assert(b[j] == cs[i + a + j]);
    }
    if i > 0 {
        assert forall|j: int| 0 <= j < aa.len() implies #[trigger] agree_under(m1, m2, aa[j], h) by {
            assert(aa[j] == cs[j]);
        }
        assert(ks =~= ks.take(i - 1) + seq![ks[i - 1]] + ks_r);
        lemma_seg_concat(m1, aa, ks.take(i - 1), ks[i - 1], rest, ks_r, h, lo, hi, after);
        assert(rest[0] == cs[i]);
        assert(child_lo(lo, ks, i) == Some(ks[i - 1].rank()));
        assert(child_hi(hi, ks, i + a - 1) == child_hi(hi, ks_r, a - 1));
        assert(seg_after(m1, cs, after, i + a - 1, h) == seg_after(m1, rest, after, a - 1, h)) by {
            if i + a < cs.len() {
                assert(cs[i + a] == rest[a]);
            }
        }
        lemma_seg_replace_front(m1, m2, rest, ks_r, h, child_lo(lo, ks, i), hi, after, a, new_cs, new_ks);
        let rest2 = new_cs + b;
        let ks_r2 = new_ks + ks.skip(i + a - 1);
        lemma_seg_frame(m1, m2, aa, ks.take(i - 1), h, lo, Some(ks[i - 1].rank()), Some(first_leaf(m1, cs[i], h)));
        assert(rest2[0] == new_cs[0]);
        assert forall|t: int, j: int, p: PageId| 0 <= t < aa.len() && 0 <= j < rest2.len() implies !(
        #[trigger] under(m2, aa[t], h, p) && #[trigger] under(m2, rest2[j], h, p)) by {
            assert(aa[t] == cs[t]);
            assert(under(m2, aa[t], h, p) == under(m1, aa[t], h, p));
            if j < new_cs.len() {
                assert(rest2[j] == new_cs[j]);
            } else {
                let jb = j - new_cs.len();
                assert(rest2[j] == b[jb]);
                assert(b[jb] == cs[i + a + jb]);
                assert(agree_under(m1, m2, b[jb], h));
                lemma_frame(m1, m2, b[jb], h);
                assert(under(m2, b[jb], h, p) == under(m1, b[jb], h, p));
                assert(rest[a + jb] == cs[i + a + jb]);
                assert(!(under(m1, aa[t], h, p) && under(m1, rest[a + jb], h, p)));
            }
        }
        lemma_seg_concat(m2, aa, ks.take(i - 1), ks[i - 1], rest2, ks_r2, h, lo, hi, after);
        assert(ks.take(i) =~= ks.take(i - 1) + seq![ks[i - 1]]);
        assert(cs2 =~= aa + rest2);
        assert(ks2 =~= ks.take(i - 1) + seq![ks[i - 1]] + ks_r2);
        assert(cs2[0] == cs[0]);
        lemma_entries_list_concat(m2, aa, rest2, h);
    } else {
        assert(aa =~= Seq::<PageId>::empty());
        assert(ks.take(i) =~= Seq::<K>::empty());
        assert(cs2 =~= new_cs + b);
        assert(ks2 =~= new_ks + ks.skip(a - 1));
        assert(rest =~= cs);
        assert(ks_r =~= ks);
        lemma_seg_replace_front(m1, m2, cs, ks, h, lo, hi, after, a, new_cs, new_ks);
        assert(entries_list(m1, aa, h) =~= Seq::empty());
        assert(entries_list(m2, cs2, h) =~= entries_list(m1, aa, h) + entries_list(m2, new_cs, h) + entries_list(m1, b, h));
    }
    assert forall|p: PageId| #[trigger] under_some(m2, cs2, h, p) implies under_some(m1, cs, h, p) || fresh
        <= p by {
        lemma_under_some_concat(m2, aa + new_cs, b, h, p);
        lemma_under_some_concat(m2, aa, new_cs, h, p);
        lemma_under_some_concat(m1, aa, rest, h, p);
        lemma_under_some_concat(m1, w, b, h, p);
        if under_some(m2, aa, h, p) {
            let j = choose|j: int| 0 <= j < aa.len() && #[trigger] under(m2, aa[j], h, p);
            assert(aa[j] == cs[j]);
            assert(agree_under(m1, m2, cs[j], h));
            lemma_frame(m1, m2, cs[j], h);
            assert(under(m1, aa[j], h, p));
        }
        if under_some(m2, b, h, p) {
            let j = choose|j: int| 0 <= j < b.len() && #[trigger] under(m2, b[j], h, p);
            lemma_frame(m1, m2, b[j], h);
            assert(under(m1, b[j], h, p));
        }
    }
}

/// A window `cs[i..i + a]` of a well-formed run is a well-formed run in the
/// range its outer separators give it.
pub proof fn lemma_seg_window<K: Key>(
    m: Map<PageId, NodeModel<K>>,
    cs: Seq<PageId>,
    ks: Seq<K>,
    h: int,
    lo: Option<int>,
    hi: Option<int>,
    after: Option<PageId>,
    i: int,
    a: int,
)
    requires
        seg_wf(m, cs, ks, h, lo, hi, after),
        0 <= i,
        1 <= a,
        i + a <= cs.len(),
    ensures
        seg_wf(
            m,
            cs.subrange(i, i + a),
            ks.subrange(i, i + a - 1),
            h,
            child_lo(lo, ks, i),
            child_hi(hi, ks, i + a - 1),
            seg_after(m, cs, after, i + a - 1, h),
        ),
        entries_list(m, cs, h) == entries_list(m, cs.take(i), h) + entries_list(m, cs.subrange(i, i + a), h)
            + entries_list(m, cs.skip(i + a), h),
        forall|p: PageId| #[trigger] under_some(m, cs.subrange(i, i + a), h, p) ==> under_some(m, cs, h, p),
{
    let aa = cs.take(i);
    let w = cs.subrange(i, i + a);
    let b = cs.skip(i + a);
    let rest = cs.skip(i);
    let ks_r = ks.skip(i);
    let kw = ks.subrange(i, i + a - 1);
    let lo_r = child_lo(lo, ks, i);
    assert(cs =~= aa + rest);
    assert(rest =~= w + b);
    if i > 0 {
        assert(ks =~= ks.take(i - 1) + seq![ks[i - 1]] + ks_r);
        lemma_seg_concat(m, aa, ks.take(i - 1), ks[i - 1], rest, ks_r, h, lo, hi, after);
    } else {
        assert(rest =~= cs);
        assert(ks_r =~= ks);
    }
    if i + a < cs.len() {
        assert(ks_r =~= kw + seq![ks[i + a - 1]] + ks.skip(i + a));
        lemma_seg_concat(m, w, kw, ks[i + a - 1], b, ks.skip(i + a), h, lo_r, hi, after);
        assert(b[0] == cs[i + a]);
    } else {
        assert(w =~= rest);
        assert(kw =~= ks_r);
    }
    lemma_entries_list_concat(m, aa, rest, h);
    lemma_entries_list_concat(m, w, b, h);
    assert(entries_list(m, cs, h) =~= entries_list(m, aa, h) + entries_list(m, w, h) + entries_list(m, b, h));
    assert forall|p: PageId| #[trigger] under_some(m, w, h, p) implies under_some(m, cs, h, p) by {
        lemma_under_some_concat(m, aa, rest, h, p);
        lemma_under_some_concat(m, w, b, h, p);
    }
}

} // verus!
