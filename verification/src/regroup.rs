//! What borrowing between and merging of two adjacent children does to the
//! tree, at the level of the page map. Two adjacent internal siblings are
//! one run of grandchildren cut in two; borrowing cuts the same run at
//! another place, and merging does not cut it at all.

use vstd::prelude::*;

use crate::error::PageId;
use crate::key::Key;
use crate::node::NodeModel;
use crate::reshape::{changed_only_under, lemma_under_self};
use crate::seg::{
    apart, inner_ok, lemma_seg_concat, lemma_seg_frame, lemma_seg_replace, lemma_seg_single,
    lemma_seg_window, lemma_under_node, lemma_under_some_concat, lemma_under_some_one, lemma_wf_seg,
    seg_after, seg_child, seg_wf, under_some,
};
use crate::tree::{
    above, agree_under, at_most, below, child_hi, child_lo, entries, entries_list, first_leaf, leaf_entries,
    leaf_ok, lemma_entries_list_concat, lemma_under_child, lemma_wf_dom, under, wf,
};

verus! {

/// Two adjacent internal siblings `x` and `y`, split by `s`, hold one run:
/// `x`'s children, then `y`'s, with `s` between.
pub proof fn lemma_combined_run<K: Key>(
    m: Map<PageId, NodeModel<K>>,
    x: PageId,
    y: PageId,
    s: K,
    hc: int,
    lo: Option<int>,
    hi: Option<int>,
    after: Option<PageId>,
)
    requires
        hc > 0,
        seg_wf(m, seq![x, y], seq![s], hc, lo, hi, after),
    ensures
        seg_wf(m, m[x].children + m[y].children, m[x].keys + seq![s] + m[y].keys, hc - 1, lo, hi, after),
        entries_list(m, m[x].children + m[y].children, hc - 1) == entries_list(m, seq![x, y], hc),
        first_leaf(m, x, hc) == first_leaf(m, (m[x].children + m[y].children)[0], hc - 1),
        forall|p: PageId| #[trigger]
            under_some(m, m[x].children + m[y].children, hc - 1, p) ==> under(m, x, hc, p) || under(m, y, hc, p),
        !under_some(m, m[x].children + m[y].children, hc - 1, x),
        !under_some(m, m[x].children + m[y].children, hc - 1, y),
        inner_ok(m, x),
        inner_ok(m, y),
        x != y,
        m[x].children.len() == m[x].keys.len() + 1,
        m[y].children.len() == m[y].keys.len() + 1,
{
    let sx = seq![x];
    let sy = seq![y];
    let xc = m[x].children;
    let yc = m[y].children;
    let kr = Some(s.rank());
    assert(seq![x, y] =~= sx + sy);
    assert(seq![s] =~= Seq::<K>::empty() + seq![s] + Seq::<K>::empty());
    lemma_seg_concat(m, sx, Seq::<K>::empty(), s, sy, Seq::<K>::empty(), hc, lo, hi, after);
    assert(sy[0] == y);
    lemma_seg_single(m, x, hc, lo, kr, Some(first_leaf(m, y, hc)));
    lemma_seg_single(m, y, hc, kr, hi, after);
    lemma_wf_seg(m, x, hc, lo, kr, Some(first_leaf(m, y, hc)));
    lemma_wf_seg(m, y, hc, kr, hi, after);
    lemma_under_self(m, x, hc);
    lemma_under_self(m, y, hc);
    assert(sx[0] == x);
    assert(!(under(m, sx[0], hc, x) && under(m, sy[0], hc, x)));
    assert(x != y);
    assert(first_leaf(m, y, hc) == first_leaf(m, yc[0], hc - 1));
    assert forall|i: int, j: int, p: PageId| 0 <= i < xc.len() && 0 <= j < yc.len() implies !(#[trigger] under(
        m,
        xc[i],
        hc - 1,
        p,
    ) && #[trigger] under(m, yc[j], hc - 1, p)) by {
        if under(m, xc[i], hc - 1, p) && under(m, yc[j], hc - 1, p) {
            lemma_under_child(m, x, hc, i, p);
            lemma_under_child(m, y, hc, j, p);
            assert(!(under(m, sx[0], hc, p) && under(m, sy[0], hc, p)));
        }
    }
    lemma_seg_concat(m, xc, m[x].keys, s, yc, m[y].keys, hc - 1, lo, hi, after);
    lemma_entries_list_concat(m, sx, sy, hc);
    lemma_seg_single(m, x, hc, None, None, None);
    lemma_seg_single(m, y, hc, None, None, None);
    assert((xc + yc)[0] == xc[0]);
    assert forall|p: PageId| #[trigger] under_some(m, xc + yc, hc - 1, p) implies under(m, x, hc, p) || under(
        m,
        y,
        hc,
        p,
    ) by {
        lemma_under_some_concat(m, xc, yc, hc - 1, p);
        lemma_under_node(m, x, hc, p);
        lemma_under_node(m, y, hc, p);
    }
    assert(!under_some(m, xc + yc, hc - 1, x)) by {
        lemma_under_some_concat(m, xc, yc, hc - 1, x);
        lemma_under_node(m, y, hc, x);
        if under_some(m, yc, hc - 1, x) {
            assert(!(under(m, sx[0], hc, x) && under(m, sy[0], hc, x)));
        }
    }
    assert(!under_some(m, xc + yc, hc - 1, y)) by {
        lemma_under_some_concat(m, xc, yc, hc - 1, y);
        lemma_under_node(m, x, hc, y);
        if under_some(m, xc, hc - 1, y) {
            assert(!(under(m, sx[0], hc, y) && under(m, sy[0], hc, y)));
        }
    }
}

/// Two internal pages that hold the two parts of a run cut at `j` form a
/// well-formed pair split by the key at the cut.
pub proof fn lemma_pair_from_run<K: Key>(
    m: Map<PageId, NodeModel<K>>,
    x: PageId,
    y: PageId,
    cs: Seq<PageId>,
    ks: Seq<K>,
    j: int,
    hc: int,
    lo: Option<int>,
    hi: Option<int>,
    after: Option<PageId>,
)
    requires
        hc > 0,
        seg_wf(m, cs, ks, hc - 1, lo, hi, after),
        0 < j < cs.len(),
        inner_ok(m, x),
        m[x].children == cs.take(j),
        m[x].keys == ks.take(j - 1),
        inner_ok(m, y),
        m[y].children == cs.skip(j),
        m[y].keys == ks.skip(j),
        !under_some(m, cs, hc - 1, x),
        !under_some(m, cs, hc - 1, y),
        x != y,
    ensures
        seg_wf(m, seq![x, y], seq![ks[j - 1]], hc, lo, hi, after),
        entries_list(m, seq![x, y], hc) == entries_list(m, cs, hc - 1),
        first_leaf(m, x, hc) == first_leaf(m, cs[0], hc - 1),
        forall|p: PageId| #[trigger] under(m, x, hc, p) ==> p == x || under_some(m, cs, hc - 1, p),
        forall|p: PageId| #[trigger] under(m, y, hc, p) ==> p == y || under_some(m, cs, hc - 1, p),
{
    let a = cs.take(j);
    let b = cs.skip(j);
    let k = ks[j - 1];
    let kr = Some(k.rank());
    assert(cs =~= a + b);
    assert(ks =~= ks.take(j - 1) + seq![k] + ks.skip(j));
    lemma_seg_concat(m, a, ks.take(j - 1), k, b, ks.skip(j), hc - 1, lo, hi, after);
    assert(b[0] == cs[j]);
    assert(a[0] == cs[0]);
    assert(first_leaf(m, y, hc) == first_leaf(m, b[0], hc - 1));
    assert(!under_some(m, a, hc - 1, x)) by {
        lemma_under_some_concat(m, a, b, hc - 1, x);
    }
    assert(!under_some(m, b, hc - 1, y)) by {
        lemma_under_some_concat(m, a, b, hc - 1, y);
    }
    lemma_wf_seg(m, x, hc, lo, kr, Some(first_leaf(m, y, hc)));
    lemma_wf_seg(m, y, hc, kr, hi, after);
    let sx = seq![x];
    let sy = seq![y];
    assert(seq![x, y] =~= sx + sy);
    assert(seq![k] =~= Seq::<K>::empty() + seq![k] + Seq::<K>::empty());
    lemma_seg_single(m, x, hc, lo, kr, Some(first_leaf(m, y, hc)));
    lemma_seg_single(m, y, hc, kr, hi, after);
    assert forall|p: PageId| #[trigger] under(m, x, hc, p) implies p == x || under_some(m, cs, hc - 1, p) by {
        lemma_under_node(m, x, hc, p);
        lemma_under_some_concat(m, a, b, hc - 1, p);
    }
    assert forall|p: PageId| #[trigger] under(m, y, hc, p) implies p == y || under_some(m, cs, hc - 1, p) by {
        lemma_under_node(m, y, hc, p);
        lemma_under_some_concat(m, a, b, hc - 1, p);
    }
    assert forall|u: int, v: int, p: PageId| 0 <= u < sx.len() && 0 <= v < sy.len() implies !(#[trigger] under(
        m,
        sx[u],
        hc,
        p,
    ) && #[trigger] under(m, sy[v], hc, p)) by {
        assert(sx[u] == x && sy[v] == y);
        if under(m, x, hc, p) && under(m, y, hc, p) {
            lemma_under_node(m, x, hc, p);
            lemma_under_node(m, y, hc, p);
            lemma_under_some_concat(m, a, b, hc - 1, p);
            if p != x && p != y {
                let u1 = choose|u1: int| 0 <= u1 < a.len() && #[trigger] under(m, a[u1], hc - 1, p);
                let v1 = choose|v1: int| 0 <= v1 < b.len() && #[trigger] under(m, b[v1], hc - 1, p);
                assert(!(under(m, a[u1], hc - 1, p) && under(m, b[v1], hc - 1, p)));
            }
        }
    }
    lemma_seg_concat(m, sx, Seq::<K>::empty(), k, sy, Seq::<K>::empty(), hc, lo, hi, after);
    lemma_entries_list_concat(m, sx, sy, hc);
    lemma_seg_single(m, x, hc, None, None, None);
    lemma_seg_single(m, y, hc, None, None, None);
    lemma_entries_list_concat(m, a, b, hc - 1);
}

/// An internal page holding a whole run is a well-formed run of one.
pub proof fn lemma_single_from_run<K: Key>(
    m: Map<PageId, NodeModel<K>>,
    x: PageId,
    cs: Seq<PageId>,
    ks: Seq<K>,
    hc: int,
    lo: Option<int>,
    hi: Option<int>,
    after: Option<PageId>,
)
    requires
        hc > 0,
        seg_wf(m, cs, ks, hc - 1, lo, hi, after),
        inner_ok(m, x),
        m[x].children == cs,
        m[x].keys == ks,
        !under_some(m, cs, hc - 1, x),
    ensures
        seg_wf(m, seq![x], Seq::<K>::empty(), hc, lo, hi, after),
        entries_list(m, seq![x], hc) == entries_list(m, cs, hc - 1),
        first_leaf(m, x, hc) == first_leaf(m, cs[0], hc - 1),
        forall|p: PageId| #[trigger] under(m, x, hc, p) ==> p == x || under_some(m, cs, hc - 1, p),
{
    lemma_wf_seg(m, x, hc, lo, hi, after);
    lemma_seg_single(m, x, hc, lo, hi, after);
    assert forall|p: PageId| #[trigger] under(m, x, hc, p) implies p == x || under_some(m, cs, hc - 1, p) by {
        lemma_under_node(m, x, hc, p);
    }
}

/// Two leaves split by `k` are a well-formed run exactly when each is a
/// well-formed leaf on its side of `k`, the first pointing to the second.
pub proof fn lemma_leaf_pair<K: Key>(
    m: Map<PageId, NodeModel<K>>,
    x: PageId,
    y: PageId,
    k: K,
    lo: Option<int>,
    hi: Option<int>,
    after: Option<PageId>,
)
    ensures
        seg_wf(m, seq![x, y], seq![k], 0, lo, hi, after) == (leaf_ok(m, x, lo, Some(k.rank()), Some(y))
            && leaf_ok(m, y, Some(k.rank()), hi, after) && above(lo, k.rank()) && at_most(hi, k.rank())
            && x != y),
        entries_list(m, seq![x, y], 0) == leaf_entries(m[x]) + leaf_entries(m[y]),
{
    let sx = seq![x];
    let sy = seq![y];
    assert(seq![x, y] =~= sx + sy);
    assert(seq![k] =~= Seq::<K>::empty() + seq![k] + Seq::<K>::empty());
    lemma_seg_concat(m, sx, Seq::<K>::empty(), k, sy, Seq::<K>::empty(), 0, lo, hi, after);
    assert(sy[0] == y && sx[0] == x);
    assert(first_leaf(m, y, 0) == y);
    lemma_seg_single(m, x, 0, lo, Some(k.rank()), Some(y));
    lemma_seg_single(m, y, 0, Some(k.rank()), hi, after);
    lemma_entries_list_concat(m, sx, sy, 0);
    lemma_seg_single(m, x, 0, None, None, None);
    lemma_seg_single(m, y, 0, None, None, None);
    if x != y {
        assert forall|u: int, v: int, p: PageId| 0 <= u < sx.len() && 0 <= v < sy.len() implies !(#[trigger] under(
            m,
            sx[u],
            0,
            p,
        ) && #[trigger] under(m, sy[v], 0, p)) by {}
    } else {
        if seg_wf(m, seq![x, y], seq![k], 0, lo, hi, after) {
            assert(under(m, sx[0], 0, x) && under(m, sy[0], 0, x));
        }
    }
}

/// Two adjacent internal siblings, regrouped as the run of their children
/// cut at `j`, stay a well-formed pair with the same entries and first leaf.
pub proof fn lemma_recut<K: Key>(
    m1: Map<PageId, NodeModel<K>>,
    m2: Map<PageId, NodeModel<K>>,
    x: PageId,
    y: PageId,
    s: K,
    hc: int,
    lo: Option<int>,
    hi: Option<int>,
    after: Option<PageId>,
    pid: PageId,
    cs: Seq<PageId>,
    ks: Seq<K>,
    j: int,
)
    requires
        hc > 0,
        seg_wf(m1, seq![x, y], seq![s], hc, lo, hi, after),
        !under(m1, x, hc, pid),
        !under(m1, y, hc, pid),
        forall|p: PageId| #[trigger]
            m1.contains_key(p) && p != x && p != y && p != pid ==> m2.contains_key(p) && m2[p] == m1[p],
        cs == m1[x].children + m1[y].children,
        ks == m1[x].keys + seq![s] + m1[y].keys,
        0 < j < cs.len(),
        inner_ok(m2, x),
        inner_ok(m2, y),
        m2[x].children == cs.take(j),
        m2[x].keys == ks.take(j - 1),
        m2[y].children == cs.skip(j),
        m2[y].keys == ks.skip(j),
    ensures
        seg_wf(m2, seq![x, y], seq![ks[j - 1]], hc, lo, hi, after),
        entries_list(m2, seq![x, y], hc) == entries_list(m1, seq![x, y], hc),
        first_leaf(m2, x, hc) == first_leaf(m1, x, hc),
        forall|p: PageId| #[trigger] under(m2, x, hc, p) ==> under(m1, x, hc, p) || under(m1, y, hc, p),
        forall|p: PageId| #[trigger] under(m2, y, hc, p) ==> under(m1, x, hc, p) || under(m1, y, hc, p),
{
    lemma_combined_run(m1, x, y, s, hc, lo, hi, after);
    lemma_grandchildren_frame(m1, m2, x, y, s, hc, lo, hi, after, pid, cs, ks);
    lemma_pair_from_run(m2, x, y, cs, ks, j, hc, lo, hi, after);
    lemma_under_self(m1, x, hc);
    lemma_under_self(m1, y, hc);
}

/// The grandchildren under two adjacent siblings are untouched when only the
/// siblings and their parent change.
proof fn lemma_grandchildren_frame<K: Key>(
    m1: Map<PageId, NodeModel<K>>,
    m2: Map<PageId, NodeModel<K>>,
    x: PageId,
    y: PageId,
    s: K,
    hc: int,
    lo: Option<int>,
    hi: Option<int>,
    after: Option<PageId>,
    pid: PageId,
    cs: Seq<PageId>,
    ks: Seq<K>,
)
    requires
        hc > 0,
        seg_wf(m1, cs, ks, hc - 1, lo, hi, after),
        !under_some(m1, cs, hc - 1, x),
        !under_some(m1, cs, hc - 1, y),
        forall|p: PageId| #[trigger] under_some(m1, cs, hc - 1, p) ==> under(m1, x, hc, p) || under(m1, y, hc, p),
        !under(m1, x, hc, pid),
        !under(m1, y, hc, pid),
        forall|p: PageId| #[trigger]
            m1.contains_key(p) && p != x && p != y && p != pid ==> m2.contains_key(p) && m2[p] == m1[p],
    ensures
        seg_wf(m2, cs, ks, hc - 1, lo, hi, after),
        entries_list(m2, cs, hc - 1) == entries_list(m1, cs, hc - 1),
        forall|p: PageId| #[trigger] under_some(m2, cs, hc - 1, p) == under_some(m1, cs, hc - 1, p),
        forall|j: int| 0 <= j < cs.len() ==> #[trigger] first_leaf(m2, cs[j], hc - 1) == first_leaf(m1, cs[j], hc - 1),
{
    assert forall|j: int| 0 <= j < cs.len() implies #[trigger] agree_under(m1, m2, cs[j], hc - 1) by {
        assert(seg_child(m1, cs, ks, hc - 1, lo, hi, after, j));
        lemma_wf_dom(m1, cs[j], hc - 1, child_lo(lo, ks, j), child_hi(hi, ks, j), seg_after(m1, cs, after, j, hc - 1));
        assert forall|p: PageId| #[trigger] under(m1, cs[j], hc - 1, p) implies m1.contains_key(p) == m2.contains_key(p)
            && m1[p] == m2[p] by {
            assert(under_some(m1, cs, hc - 1, p));
            if p == pid {
                assert(under(m1, x, hc, pid) || under(m1, y, hc, pid));
            }
        }
    }
    lemma_seg_frame(m1, m2, cs, ks, hc - 1, lo, hi, after);
}

/// Two adjacent internal siblings merged into the first stay a
/// well-formed run of one, with the same entries and first leaf.
pub proof fn lemma_merge_internal<K: Key>(
    m1: Map<PageId, NodeModel<K>>,
    m2: Map<PageId, NodeModel<K>>,
    x: PageId,
    y: PageId,
    s: K,
    hc: int,
    lo: Option<int>,
    hi: Option<int>,
    after: Option<PageId>,
    pid: PageId,
    cs: Seq<PageId>,
    ks: Seq<K>,
)
    requires
        hc > 0,
        seg_wf(m1, seq![x, y], seq![s], hc, lo, hi, after),
        !under(m1, x, hc, pid),
        !under(m1, y, hc, pid),
        forall|p: PageId| #[trigger]
            m1.contains_key(p) && p != x && p != y && p != pid ==> m2.contains_key(p) && m2[p] == m1[p],
        cs == m1[x].children + m1[y].children,
        ks == m1[x].keys + seq![s] + m1[y].keys,
        inner_ok(m2, x),
        m2[x].children == cs,
        m2[x].keys == ks,
    ensures
        seg_wf(m2, seq![x], Seq::<K>::empty(), hc, lo, hi, after),
        entries_list(m2, seq![x], hc) == entries_list(m1, seq![x, y], hc),
        first_leaf(m2, x, hc) == first_leaf(m1, x, hc),
        forall|p: PageId| #[trigger] under(m2, x, hc, p) ==> under(m1, x, hc, p) || under(m1, y, hc, p),
{
    lemma_combined_run(m1, x, y, s, hc, lo, hi, after);
    lemma_grandchildren_frame(m1, m2, x, y, s, hc, lo, hi, after, pid, cs, ks);
    lemma_single_from_run(m2, x, cs, ks, hc, lo, hi, after);
    lemma_under_self(m1, x, hc);
}

/// A leaf handing its last entry to the leaf after it keeps the pair well
/// formed, split by the entry moved.
pub proof fn lemma_borrow_prev_leaf<K: Key>(
    m1: Map<PageId, NodeModel<K>>,
    m2: Map<PageId, NodeModel<K>>,
    x: PageId,
    y: PageId,
    s: K,
    lo: Option<int>,
    hi: Option<int>,
    after: Option<PageId>,
)
    requires
        seg_wf(m1, seq![x, y], seq![s], 0, lo, hi, after),
        m1[x].keys.len() > 0,
        m2.contains_key(x),
        m2.contains_key(y),
        m2[x] == (NodeModel {
            keys: m1[x].keys.drop_last(),
            values: m1[x].values.drop_last(),
            children: m1[x].children,
            next: m1[x].next,
            is_leaf: m1[x].is_leaf,
        }),
        m2[y] == (NodeModel {
            keys: seq![m1[x].keys.last()] + m1[y].keys,
            values: seq![m1[x].values.last()] + m1[y].values,
            children: m1[y].children,
            next: m1[y].next,
            is_leaf: m1[y].is_leaf,
        }),
    ensures
        seg_wf(m2, seq![x, y], seq![m1[x].keys.last()], 0, lo, hi, after),
        entries_list(m2, seq![x, y], 0) == entries_list(m1, seq![x, y], 0),
{
    let l = m1[x];
    let c = m1[y];
    let k = l.keys.last();
    let kr = Some(k.rank());
    lemma_leaf_pair(m1, x, y, s, lo, hi, after);
    lemma_leaf_pair(m2, x, y, k, lo, hi, after);
    let n = l.keys.len() - 1;
    assert(l.keys[n].rank() < s.rank());
    let lk = m2[x].keys;
    assert forall|a: int, b: int| 0 <= a < b < lk.len() implies #[trigger] lk[a].rank() < #[trigger] lk[b].rank() by {
        assert(lk[a] == l.keys[a] && lk[b] == l.keys[b]);
    }
    assert forall|a: int| 0 <= a < lk.len() implies above(lo, #[trigger] lk[a].rank()) && below(kr, lk[a].rank()) by {
        assert(lk[a] == l.keys[a]);
        assert(l.keys[a].rank() < l.keys[n].rank());
    }
    let ck = m2[y].keys;
    assert forall|a: int, b: int| 0 <= a < b < ck.len() implies #[trigger] ck[a].rank() < #[trigger] ck[b].rank() by {
        if a == 0 {
            assert(ck[a] == k);
            assert(ck[b] == c.keys[b - 1]);
        } else {
            assert(ck[a] == c.keys[a - 1] && ck[b] == c.keys[b - 1]);
        }
    }
    assert forall|a: int| 0 <= a < ck.len() implies above(kr, #[trigger] ck[a].rank()) && below(hi, ck[a].rank()) by {
        if a > 0 {
            assert(ck[a] == c.keys[a - 1]);
        } else {
            assert(ck[a] == k);
        }
    }
    assert(leaf_ok(m2, x, lo, kr, Some(y)));
    assert(leaf_ok(m2, y, kr, hi, after));
    assert(leaf_entries(m2[x]) + leaf_entries(m2[y]) =~= leaf_entries(l) + leaf_entries(c));
}

/// A leaf taking the first entry of the leaf after it keeps the pair well
/// formed, split by the second leaf's new first key.
pub proof fn lemma_borrow_next_leaf<K: Key>(
    m1: Map<PageId, NodeModel<K>>,
    m2: Map<PageId, NodeModel<K>>,
    x: PageId,
    y: PageId,
    s: K,
    lo: Option<int>,
    hi: Option<int>,
    after: Option<PageId>,
)
    requires
        seg_wf(m1, seq![x, y], seq![s], 0, lo, hi, after),
        m1[y].keys.len() >= 2,
        m2.contains_key(x),
        m2.contains_key(y),
        m2[x] == (NodeModel {
            keys: m1[x].keys.push(m1[y].keys[0]),
            values: m1[x].values.push(m1[y].values[0]),
            children: m1[x].children,
            next: m1[x].next,
            is_leaf: m1[x].is_leaf,
        }),
        m2[y] == (NodeModel {
            keys: m1[y].keys.drop_first(),
            values: m1[y].values.drop_first(),
            children: m1[y].children,
            next: m1[y].next,
            is_leaf: m1[y].is_leaf,
        }),
    ensures
        seg_wf(m2, seq![x, y], seq![m1[y].keys[1]], 0, lo, hi, after),
        entries_list(m2, seq![x, y], 0) == entries_list(m1, seq![x, y], 0),
{
    let c = m1[x];
    let r = m1[y];
    let k = r.keys[1];
    let kr = Some(k.rank());
    lemma_leaf_pair(m1, x, y, s, lo, hi, after);
    lemma_leaf_pair(m2, x, y, k, lo, hi, after);
    assert(r.keys[0].rank() < r.keys[1].rank());
    let xk = m2[x].keys;
    assert forall|a: int, b: int| 0 <= a < b < xk.len() implies #[trigger] xk[a].rank() < #[trigger] xk[b].rank() by {
        assert(xk[a] == c.keys[a]);
        if b < c.keys.len() {
            assert(xk[b] == c.keys[b]);
        } else {
            assert(xk[b] == r.keys[0]);
        }
    }
    assert forall|a: int| 0 <= a < xk.len() implies above(lo, #[trigger] xk[a].rank()) && below(kr, xk[a].rank()) by {
        if a < c.keys.len() {
            assert(xk[a] == c.keys[a]);
        } else {
            assert(xk[a] == r.keys[0]);
        }
    }
    let yk = m2[y].keys;
    assert forall|a: int, b: int| 0 <= a < b < yk.len() implies #[trigger] yk[a].rank() < #[trigger] yk[b].rank() by {
        assert(yk[a] == r.keys[a + 1] && yk[b] == r.keys[b + 1]);
    }
    assert forall|a: int| 0 <= a < yk.len() implies above(kr, #[trigger] yk[a].rank()) && below(hi, yk[a].rank()) by {
        assert(yk[a] == r.keys[a + 1]);
        if a > 0 {
            assert(r.keys[1].rank() < r.keys[a + 1].rank());
        }
    }
    assert(leaf_ok(m2, x, lo, kr, Some(y)));
    assert(leaf_ok(m2, y, kr, hi, after));
    assert(leaf_entries(m2[x]) + leaf_entries(m2[y]) =~= leaf_entries(c) + leaf_entries(r));
}

/// Two adjacent leaves merged into the first make one well-formed leaf
/// holding the entries of both.
pub proof fn lemma_merge_leaf<K: Key>(
    m1: Map<PageId, NodeModel<K>>,
    m2: Map<PageId, NodeModel<K>>,
    x: PageId,
    y: PageId,
    s: K,
    lo: Option<int>,
    hi: Option<int>,
    after: Option<PageId>,
)
    requires
        seg_wf(m1, seq![x, y], seq![s], 0, lo, hi, after),
        m2.contains_key(x),
        m2[x] == (NodeModel {
            keys: m1[x].keys + m1[y].keys,
            values: m1[x].values + m1[y].values,
            children: m1[x].children,
            next: m1[y].next,
            is_leaf: m1[x].is_leaf,
        }),
    ensures
        seg_wf(m2, seq![x], Seq::<K>::empty(), 0, lo, hi, after),
        entries_list(m2, seq![x], 0) == entries_list(m1, seq![x, y], 0),
{
    let l = m1[x];
    let r = m1[y];
    lemma_leaf_pair(m1, x, y, s, lo, hi, after);
    lemma_seg_single(m2, x, 0, lo, hi, after);
    let xk = m2[x].keys;
    let n = l.keys.len();
    assert forall|a: int, b: int| 0 <= a < b < xk.len() implies #[trigger] xk[a].rank() < #[trigger] xk[b].rank() by {
        if b < n {
            assert(xk[a] == l.keys[a] && xk[b] == l.keys[b]);
        } else if a >= n {
            assert(xk[a] == r.keys[a - n] && xk[b] == r.keys[b - n]);
        } else {
            assert(xk[a] == l.keys[a] && xk[b] == r.keys[b - n]);
        }
    }
    assert forall|a: int| 0 <= a < xk.len() implies above(lo, #[trigger] xk[a].rank()) && below(hi, xk[a].rank()) by {
        if a < n {
            assert(xk[a] == l.keys[a]);
        } else {
            assert(xk[a] == r.keys[a - n]);
        }
    }
    assert(leaf_ok(m2, x, lo, hi, after));
    lemma_seg_single(m2, x, 0, None, None, None);
    assert(leaf_entries(m2[x]) =~= leaf_entries(l) + leaf_entries(r));
}

/// Replacing two adjacent children `i` and `i + 1` of `pid` by a well-formed
/// run of one or two covering the same range, entries and first leaf, and
/// reaching only their pages, keeps the tree under `pid` well formed.
pub proof fn lemma_regroup_parent<K: Key>(
    m1: Map<PageId, NodeModel<K>>,
    m2: Map<PageId, NodeModel<K>>,
    pid: PageId,
    hp: int,
    lo: Option<int>,
    hi: Option<int>,
    after: Option<PageId>,
    i: int,
    new_cs: Seq<PageId>,
    new_ks: Seq<K>,
    fresh: PageId,
)
    requires
        hp > 0,
        wf(m1, pid, hp, lo, hi, after),
        0 <= i,
        i + 2 <= m1[pid].children.len(),
        crate::reshape::below_fresh(m1, fresh),
        forall|p: PageId| #[trigger]
            m1.contains_key(p) && p != pid && p != m1[pid].children[i] && p != m1[pid].children[i + 1]
                ==> m2.contains_key(p) && m2[p] == m1[p],
        new_cs.len() == new_ks.len() + 1,
        seg_wf(
            m2,
            new_cs,
            new_ks,
            hp - 1,
            child_lo(lo, m1[pid].keys, i),
            child_hi(hi, m1[pid].keys, i + 1),
            seg_after(m1, m1[pid].children, after, i + 1, hp - 1),
        ),
        first_leaf(m2, new_cs[0], hp - 1) == first_leaf(m1, m1[pid].children[i], hp - 1),
        forall|p: PageId| #[trigger]
            under_some(m2, new_cs, hp - 1, p) ==> under_some(m1, m1[pid].children.subrange(i, i + 2), hp - 1, p),
        entries_list(m2, new_cs, hp - 1) == entries_list(m1, m1[pid].children.subrange(i, i + 2), hp - 1),
        m2.contains_key(pid),
        inner_ok(m2, pid),
        m2[pid].children == m1[pid].children.take(i) + new_cs + m1[pid].children.skip(i + 2),
        m2[pid].keys == m1[pid].keys.take(i) + new_ks + m1[pid].keys.skip(i + 1),
    ensures
        wf(m2, pid, hp, lo, hi, after),
        entries(m2, pid, hp) == entries(m1, pid, hp),
        first_leaf(m2, pid, hp) == first_leaf(m1, pid, hp),
        changed_only_under(m1, m2, pid, hp, fresh),
{
    let cs = m1[pid].children;
    let ks = m1[pid].keys;
    let hc = hp - 1;
    lemma_wf_seg(m1, pid, hp, lo, hi, after);
    assert forall|j: int, p: PageId| 0 <= j < cs.len() && #[trigger] under(m1, cs[j], hc, p) implies m1.contains_key(
        p,
    ) && p != pid by {
        assert(seg_child(m1, cs, ks, hc, lo, hi, after, j));
        lemma_wf_dom(m1, cs[j], hc, child_lo(lo, ks, j), child_hi(hi, ks, j), seg_after(m1, cs, after, j, hc));
        if p == pid {
            assert(under_some(m1, cs, hc, pid));
        }
    }
    lemma_under_self(m1, cs[i], hc);
    lemma_under_self(m1, cs[i + 1], hc);
    assert forall|j: int| 0 <= j < cs.len() && !(i <= j < i + 2) implies #[trigger] agree_under(m1, m2, cs[j], hc) by {
        assert forall|p: PageId| #[trigger] under(m1, cs[j], hc, p) implies m1.contains_key(p) == m2.contains_key(p)
            && m1[p] == m2[p] by {
            assert(m1.contains_key(p) && p != pid);
            if p == cs[i] {
                if j < i {
                    assert(!(under(m1, cs[j], hc, p) && under(m1, cs[i], hc, p)));
                } else {
                    assert(!(under(m1, cs[i], hc, p) && under(m1, cs[j], hc, p)));
                }
            }
            if p == cs[i + 1] {
                if j < i + 1 {
                    assert(!(under(m1, cs[j], hc, p) && under(m1, cs[i + 1], hc, p)));
                } else {
                    assert(!(under(m1, cs[i + 1], hc, p) && under(m1, cs[j], hc, p)));
                }
            }
        }
    }
    assert forall|p: PageId| #[trigger] under_some(m1, cs, hc, p) implies p < fresh by {
        let j = choose|j: int| 0 <= j < cs.len() && #[trigger] under(m1, cs[j], hc, p);
    }
    lemma_seg_replace(m1, m2, cs, ks, hc, lo, hi, after, i, 2, new_cs, new_ks, fresh);
    lemma_seg_window(m1, cs, ks, hc, lo, hi, after, i, 2);
    let cs2 = cs.take(i) + new_cs + cs.skip(i + 2);
    lemma_wf_seg(m2, pid, hp, lo, hi, after);
    assert(entries(m2, pid, hp) == entries_list(m2, cs2, hc));
    assert(entries(m2, pid, hp) =~= entries(m1, pid, hp));
    assert(first_leaf(m2, pid, hp) == first_leaf(m2, cs2[0], hc));
    lemma_under_self(m1, pid, hp);
    assert forall|p: PageId| #[trigger] m1.contains_key(p) && !under(m1, pid, hp, p) implies m2.contains_key(p)
        && m2[p] == m1[p] by {
        lemma_under_child(m1, pid, hp, i, cs[i]);
        lemma_under_child(m1, pid, hp, i + 1, cs[i + 1]);
    }
    assert forall|p: PageId| #[trigger] under(m2, pid, hp, p) implies under(m1, pid, hp, p) || fresh <= p by {
        lemma_under_node(m2, pid, hp, p);
        lemma_under_node(m1, pid, hp, p);
    }
}

/// The left sibling after handing its last entry or child to its right neighbour.
pub open spec fn prev_left<K>(l: NodeModel<K>) -> NodeModel<K> {
    if l.is_leaf {
        NodeModel {
            keys: l.keys.drop_last(),
            values: l.values.drop_last(),
            children: l.children,
            next: l.next,
            is_leaf: l.is_leaf,
        }
    } else {
        NodeModel {
            keys: l.keys.drop_last(),
            values: l.values,
            children: l.children.drop_last(),
            next: l.next,
            is_leaf: l.is_leaf,
        }
    }
}

/// A child after taking its left sibling's last entry, or its last child
/// with the separator `s` coming down from the parent.
pub open spec fn prev_child<K>(l: NodeModel<K>, c: NodeModel<K>, s: K) -> NodeModel<K> {
    if c.is_leaf {
        NodeModel {
            keys: seq![l.keys.last()] + c.keys,
            values: seq![l.values.last()] + c.values,
            children: c.children,
            next: c.next,
            is_leaf: c.is_leaf,
        }
    } else {
        NodeModel {
            keys: seq![s] + c.keys,
            values: c.values,
            children: seq![l.children.last()] + c.children,
            next: c.next,
            is_leaf: c.is_leaf,
        }
    }
}

/// A child after taking its right sibling's first entry, or its first child
/// with the separator `s` coming down from the parent.
pub open spec fn next_child<K>(c: NodeModel<K>, r: NodeModel<K>, s: K) -> NodeModel<K> {
    if c.is_leaf {
        NodeModel {
            keys: c.keys.push(r.keys[0]),
            values: c.values.push(r.values[0]),
            children: c.children,
            next: c.next,
            is_leaf: c.is_leaf,
        }
    } else {
        NodeModel {
            keys: c.keys.push(s),
            values: c.values,
            children: c.children.push(r.children[0]),
            next: c.next,
            is_leaf: c.is_leaf,
        }
    }
}

/// The right sibling after handing its first entry or child to its left neighbour.
pub open spec fn next_right<K>(r: NodeModel<K>) -> NodeModel<K> {
    if r.is_leaf {
        NodeModel {
            keys: r.keys.drop_first(),
            values: r.values.drop_first(),
            children: r.children,
            next: r.next,
            is_leaf: r.is_leaf,
        }
    } else {
        NodeModel {
            keys: r.keys.drop_first(),
            values: r.values,
            children: r.children.drop_first(),
            next: r.next,
            is_leaf: r.is_leaf,
        }
    }
}

/// The separator that goes up to the parent when a child takes from its right sibling.
pub open spec fn next_sep<K>(r: NodeModel<K>) -> K {
    if r.is_leaf {
        r.keys[1]
    } else {
        r.keys[0]
    }
}

/// Two adjacent siblings merged into the first, with the separator `s`
/// between them coming down from the parent when they are internal.
pub open spec fn merged<K>(l: NodeModel<K>, r: NodeModel<K>, s: K) -> NodeModel<K> {
    if l.is_leaf {
        NodeModel {
            keys: l.keys + r.keys,
            values: l.values + r.values,
            children: l.children,
            next: r.next,
            is_leaf: l.is_leaf,
        }
    } else {
        NodeModel {
            keys: l.keys + seq![s] + r.keys,
            values: l.values,
            children: l.children + r.children,
            next: l.next,
            is_leaf: l.is_leaf,
        }
    }
}

/// A parent with separator `i` replaced.
pub open spec fn with_key<K>(p: NodeModel<K>, i: int, k: K) -> NodeModel<K> {
    NodeModel { keys: p.keys.update(i, k), values: p.values, children: p.children, next: p.next, is_leaf: p.is_leaf }
}

/// A parent after its children `i` and `i + 1` merged.
pub open spec fn without_child<K>(p: NodeModel<K>, i: int) -> NodeModel<K> {
    NodeModel {
        keys: p.keys.remove(i),
        values: p.values,
        children: p.children.remove(i + 1),
        next: p.next,
        is_leaf: p.is_leaf,
    }
}

/// The window of children `i` and `i + 1` of `pid`, and the facts every
/// regrouping of it starts from.
pub proof fn lemma_window_start<K: Key>(
    m1: Map<PageId, NodeModel<K>>,
    pid: PageId,
    hp: int,
    lo: Option<int>,
    hi: Option<int>,
    after: Option<PageId>,
    i: int,
)
    requires
        hp > 0,
        wf(m1, pid, hp, lo, hi, after),
        0 <= i,
        i + 2 <= m1[pid].children.len(),
    ensures
        ({
            let cs = m1[pid].children;
            let ks = m1[pid].keys;
            &&& seg_wf(
                m1,
                seq![cs[i], cs[i + 1]],
                seq![ks[i]],
                hp - 1,
                child_lo(lo, ks, i),
                child_hi(hi, ks, i + 1),
                seg_after(m1, cs, after, i + 1, hp - 1),
            )
            &&& cs.subrange(i, i + 2) == seq![cs[i], cs[i + 1]]
            &&& !under(m1, cs[i], hp - 1, pid)
            &&& !under(m1, cs[i + 1], hp - 1, pid)
            &&& m1.contains_key(cs[i]) && m1.contains_key(cs[i + 1]) && m1.contains_key(pid)
            &&& m1[cs[i]].is_leaf == (hp - 1 == 0)
            &&& m1[cs[i + 1]].is_leaf == (hp - 1 == 0)
            &&& inner_ok(m1, pid)
            &&& cs.len() == ks.len() + 1
            &&& cs[i] != cs[i + 1]
            &&& hp - 1 > 0 ==> inner_ok(m1, cs[i]) && inner_ok(m1, cs[i + 1])
            &&& hp - 1 > 0 ==> m1[cs[i]].children.len() == m1[cs[i]].keys.len() + 1
                && m1[cs[i + 1]].children.len() == m1[cs[i + 1]].keys.len() + 1
            &&& hp - 1 == 0 ==> m1[cs[i]].values.len() == m1[cs[i]].keys.len()
                && m1[cs[i + 1]].values.len() == m1[cs[i + 1]].keys.len()
        }),
{
    let cs = m1[pid].children;
    let ks = m1[pid].keys;
    let hc = hp - 1;
    lemma_wf_seg(m1, pid, hp, lo, hi, after);
    lemma_seg_window(m1, cs, ks, hc, lo, hi, after, i, 2);
    assert(cs.subrange(i, i + 2) =~= seq![cs[i], cs[i + 1]]);
    assert(ks.subrange(i, i + 1) =~= seq![ks[i]]);
    assert(!under(m1, cs[i], hc, pid)) by {
        if under(m1, cs[i], hc, pid) {
            assert(under_some(m1, cs, hc, pid));
        }
    }
    assert(!under(m1, cs[i + 1], hc, pid)) by {
        if under(m1, cs[i + 1], hc, pid) {
            assert(under_some(m1, cs, hc, pid));
        }
    }
    assert(seg_child(m1, cs, ks, hc, lo, hi, after, i));
    assert(seg_child(m1, cs, ks, hc, lo, hi, after, i + 1));
    lemma_wf_dom(m1, cs[i], hc, child_lo(lo, ks, i), child_hi(hi, ks, i), seg_after(m1, cs, after, i, hc));
    lemma_wf_dom(m1, cs[i + 1], hc, child_lo(lo, ks, i + 1), child_hi(hi, ks, i + 1), seg_after(m1, cs, after, i + 1, hc));
    lemma_under_self(m1, cs[i], hc);
    lemma_under_self(m1, cs[i + 1], hc);
    assert(cs[i] != cs[i + 1]) by {
        assert(!(under(m1, cs[i], hc, cs[i]) && under(m1, cs[i + 1], hc, cs[i])));
    }
    if hc == 0 {
        assert(leaf_ok(m1, cs[i], child_lo(lo, ks, i), child_hi(hi, ks, i), seg_after(m1, cs, after, i, hc)));
        assert(leaf_ok(m1, cs[i + 1], child_lo(lo, ks, i + 1), child_hi(hi, ks, i + 1), seg_after(m1, cs, after, i + 1, hc)));
    } else {
        lemma_wf_seg(m1, cs[i], hc, child_lo(lo, ks, i), child_hi(hi, ks, i), seg_after(m1, cs, after, i, hc));
        lemma_wf_seg(m1, cs[i + 1], hc, child_lo(lo, ks, i + 1), child_hi(hi, ks, i + 1), seg_after(m1, cs, after, i + 1, hc));
    }
}

/// Child `idx` of `pid` taking from its left sibling keeps the tree under
/// `pid` well formed with the same entries; only the separator between the
/// two moves, and it moves down.
pub proof fn lemma_borrow_prev<K: Key>(
    m1: Map<PageId, NodeModel<K>>,
    m2: Map<PageId, NodeModel<K>>,
    pid: PageId,
    hp: int,
    lo: Option<int>,
    hi: Option<int>,
    after: Option<PageId>,
    idx: int,
    fresh: PageId,
)
    requires
        hp > 0,
        wf(m1, pid, hp, lo, hi, after),
        0 < idx < m1[pid].children.len(),
        m1[m1[pid].children[idx - 1]].keys.len() > 0,
        crate::reshape::below_fresh(m1, fresh),
        m2 == m1.insert(
            m1[pid].children[idx],
            prev_child(m1[m1[pid].children[idx - 1]], m1[m1[pid].children[idx]], m1[pid].keys[idx - 1]),
        ).insert(m1[pid].children[idx - 1], prev_left(m1[m1[pid].children[idx - 1]])).insert(
            pid,
            with_key(m1[pid], idx - 1, m1[m1[pid].children[idx - 1]].keys.last()),
        ),
    ensures
        wf(m2, pid, hp, lo, hi, after),
        entries(m2, pid, hp) == entries(m1, pid, hp),
        first_leaf(m2, pid, hp) == first_leaf(m1, pid, hp),
        changed_only_under(m1, m2, pid, hp, fresh),
        m2[pid].children == m1[pid].children,
        m2[pid].keys == m1[pid].keys.update(idx - 1, m2[pid].keys[idx - 1]),
        m2[pid].keys[idx - 1].rank() <= m1[pid].keys[idx - 1].rank(),
{
    let cs = m1[pid].children;
    let ks = m1[pid].keys;
    let hc = hp - 1;
    let i = idx - 1;
    let x = cs[i];
    let y = cs[idx];
    let s = ks[i];
    let l = m1[x];
    let c = m1[y];
    let k = l.keys.last();
    let lo_w = child_lo(lo, ks, i);
    let hi_w = child_hi(hi, ks, i + 1);
    let after_w = seg_after(m1, cs, after, i + 1, hc);
    lemma_window_start(m1, pid, hp, lo, hi, after, i);
    assert(x != pid && y != pid);
    let new_cs = seq![x, y];
    let new_ks = seq![k];
    if hc == 0 {
        lemma_leaf_pair(m1, x, y, s, lo_w, hi_w, after_w);
        lemma_borrow_prev_leaf(m1, m2, x, y, s, lo_w, hi_w, after_w);
        assert forall|p: PageId| #[trigger] under_some(m2, new_cs, hc, p) implies under_some(m1, cs.subrange(i, i + 2), hc, p) by {
            let j = choose|j: int| 0 <= j < new_cs.len() && #[trigger] under(m2, new_cs[j], hc, p);
            assert(under(m1, cs.subrange(i, i + 2)[j], hc, p));
        }
    } else {
        let comb = l.children + c.children;
        let kcomb = l.keys + seq![s] + c.keys;
        let j = l.keys.len() as int;
        lemma_combined_run(m1, x, y, s, hc, lo_w, hi_w, after_w);
        assert(m2[x].children =~= comb.take(j));
        assert(m2[x].keys =~= kcomb.take(j - 1));
        assert(m2[y].children =~= comb.skip(j));
        assert(m2[y].keys =~= kcomb.skip(j));
        assert(kcomb[j - 1] == k);
        lemma_recut(m1, m2, x, y, s, hc, lo_w, hi_w, after_w, pid, comb, kcomb, j);
        assert forall|p: PageId| #[trigger] under_some(m2, new_cs, hc, p) implies under_some(m1, cs.subrange(i, i + 2), hc, p) by {
            let jj = choose|jj: int| 0 <= jj < new_cs.len() && #[trigger] under(m2, new_cs[jj], hc, p);
            if under(m1, x, hc, p) {
                assert(under(m1, cs.subrange(i, i + 2)[0], hc, p));
            } else {
                assert(under(m1, cs.subrange(i, i + 2)[1], hc, p));
            }
        }
    }
    assert(m2[pid].children =~= cs.take(i) + new_cs + cs.skip(i + 2));
    assert(m2[pid].keys =~= ks.take(i) + new_ks + ks.skip(i + 1));
    lemma_regroup_parent(m1, m2, pid, hp, lo, hi, after, i, new_cs, new_ks, fresh);
    assert(k.rank() <= s.rank()) by {
        if hc == 0 {
            assert(leaf_ok(m1, x, lo_w, Some(s.rank()), Some(y)));
            assert(below(Some(s.rank()), l.keys[l.keys.len() - 1].rank()));
        } else {
            lemma_combined_run(m1, x, y, s, hc, lo_w, hi_w, after_w);
            let kcomb = l.keys + seq![s] + c.keys;
            let j = l.keys.len() as int;
            assert(kcomb[j - 1] == k && kcomb[j] == s);
        }
    }
}

/// Child `idx` of `pid` taking from its right sibling keeps the tree under
/// `pid` well formed with the same entries; only the separator between the
/// two moves, and it moves up.
pub proof fn lemma_borrow_next<K: Key>(
    m1: Map<PageId, NodeModel<K>>,
    m2: Map<PageId, NodeModel<K>>,
    pid: PageId,
    hp: int,
    lo: Option<int>,
    hi: Option<int>,
    after: Option<PageId>,
    idx: int,
    fresh: PageId,
)
    requires
        hp > 0,
        wf(m1, pid, hp, lo, hi, after),
        0 <= idx,
        idx + 1 < m1[pid].children.len(),
        m1[m1[pid].children[idx + 1]].keys.len() >= 2,
        crate::reshape::below_fresh(m1, fresh),
        m2 == m1.insert(
            m1[pid].children[idx],
            next_child(m1[m1[pid].children[idx]], m1[m1[pid].children[idx + 1]], m1[pid].keys[idx]),
        ).insert(m1[pid].children[idx + 1], next_right(m1[m1[pid].children[idx + 1]])).insert(
            pid,
            with_key(m1[pid], idx, next_sep(m1[m1[pid].children[idx + 1]])),
        ),
    ensures
        wf(m2, pid, hp, lo, hi, after),
        entries(m2, pid, hp) == entries(m1, pid, hp),
        first_leaf(m2, pid, hp) == first_leaf(m1, pid, hp),
        changed_only_under(m1, m2, pid, hp, fresh),
        m2[pid].children == m1[pid].children,
        m2[pid].keys == m1[pid].keys.update(idx, m2[pid].keys[idx]),
        m2[pid].keys[idx].rank() >= m1[pid].keys[idx].rank(),
{
    let cs = m1[pid].children;
    let ks = m1[pid].keys;
    let hc = hp - 1;
    let i = idx;
    let x = cs[i];
    let y = cs[i + 1];
    let s = ks[i];
    let c = m1[x];
    let r = m1[y];
    let k = next_sep(r);
    let lo_w = child_lo(lo, ks, i);
    let hi_w = child_hi(hi, ks, i + 1);
    let after_w = seg_after(m1, cs, after, i + 1, hc);
    lemma_window_start(m1, pid, hp, lo, hi, after, i);
    let new_cs = seq![x, y];
    let new_ks = seq![k];
    if hc == 0 {
        lemma_leaf_pair(m1, x, y, s, lo_w, hi_w, after_w);
        lemma_borrow_next_leaf(m1, m2, x, y, s, lo_w, hi_w, after_w);
        assert forall|p: PageId| #[trigger] under_some(m2, new_cs, hc, p) implies under_some(m1, cs.subrange(i, i + 2), hc, p) by {
            let j = choose|j: int| 0 <= j < new_cs.len() && #[trigger] under(m2, new_cs[j], hc, p);
            assert(under(m1, cs.subrange(i, i + 2)[j], hc, p));
        }
        assert(leaf_ok(m1, y, Some(s.rank()), hi_w, after_w));
        assert(above(Some(s.rank()), r.keys[0].rank()));
        assert(r.keys[0].rank() < r.keys[1].rank());
    } else {
        let comb = c.children + r.children;
        let kcomb = c.keys + seq![s] + r.keys;
        let j = c.children.len() as int + 1;
        lemma_combined_run(m1, x, y, s, hc, lo_w, hi_w, after_w);
        assert(m2[x].children =~= comb.take(j));
        assert(m2[x].keys =~= kcomb.take(j - 1));
        assert(m2[y].children =~= comb.skip(j));
        assert(m2[y].keys =~= kcomb.skip(j));
        assert(kcomb[j - 1] == k);
        assert(kcomb[j - 2] == s);
        lemma_recut(m1, m2, x, y, s, hc, lo_w, hi_w, after_w, pid, comb, kcomb, j);
        assert forall|p: PageId| #[trigger] under_some(m2, new_cs, hc, p) implies under_some(m1, cs.subrange(i, i + 2), hc, p) by {
            let jj = choose|jj: int| 0 <= jj < new_cs.len() && #[trigger] under(m2, new_cs[jj], hc, p);
            if under(m1, x, hc, p) {
                assert(under(m1, cs.subrange(i, i + 2)[0], hc, p));
            } else {
                assert(under(m1, cs.subrange(i, i + 2)[1], hc, p));
            }
        }
    }
    assert(m2[pid].children =~= cs.take(i) + new_cs + cs.skip(i + 2));
    assert(m2[pid].keys =~= ks.take(i) + new_ks + ks.skip(i + 1));
    lemma_regroup_parent(m1, m2, pid, hp, lo, hi, after, i, new_cs, new_ks, fresh);
}

/// Children `idx` and `idx + 1` of `pid` merged into the first keep the tree
/// under `pid` well formed with the same entries.
pub proof fn lemma_merge<K: Key>(
    m1: Map<PageId, NodeModel<K>>,
    m2: Map<PageId, NodeModel<K>>,
    pid: PageId,
    hp: int,
    lo: Option<int>,
    hi: Option<int>,
    after: Option<PageId>,
    idx: int,
    fresh: PageId,
)
    requires
        hp > 0,
        wf(m1, pid, hp, lo, hi, after),
        0 <= idx,
        idx + 1 < m1[pid].children.len(),
        crate::reshape::below_fresh(m1, fresh),
        m2 == m1.insert(
            m1[pid].children[idx],
            merged(m1[m1[pid].children[idx]], m1[m1[pid].children[idx + 1]], m1[pid].keys[idx]),
        ).insert(pid, without_child(m1[pid], idx)),
    ensures
        wf(m2, pid, hp, lo, hi, after),
        entries(m2, pid, hp) == entries(m1, pid, hp),
        first_leaf(m2, pid, hp) == first_leaf(m1, pid, hp),
        changed_only_under(m1, m2, pid, hp, fresh),
        m2[pid].children == m1[pid].children.remove(idx + 1),
        m2[pid].keys == m1[pid].keys.remove(idx),
{
    let cs = m1[pid].children;
    let ks = m1[pid].keys;
    let hc = hp - 1;
    let i = idx;
    let x = cs[i];
    let y = cs[i + 1];
    let s = ks[i];
    let lo_w = child_lo(lo, ks, i);
    let hi_w = child_hi(hi, ks, i + 1);
    let after_w = seg_after(m1, cs, after, i + 1, hc);
    lemma_window_start(m1, pid, hp, lo, hi, after, i);
    let new_cs = seq![x];
    let new_ks = Seq::<K>::empty();
    if hc == 0 {
        lemma_merge_leaf(m1, m2, x, y, s, lo_w, hi_w, after_w);
    } else {
        let comb = m1[x].children + m1[y].children;
        let kcomb = m1[x].keys + seq![s] + m1[y].keys;
        lemma_merge_internal(m1, m2, x, y, s, hc, lo_w, hi_w, after_w, pid, comb, kcomb);
    }
    assert forall|p: PageId| #[trigger] under_some(m2, new_cs, hc, p) implies under_some(m1, cs.subrange(i, i + 2), hc, p) by {
        lemma_under_some_one(m2, x, hc, p);
        if under(m1, x, hc, p) {
            assert(under(m1, cs.subrange(i, i + 2)[0], hc, p));
        } else {
            assert(under(m1, cs.subrange(i, i + 2)[1], hc, p));
        }
    }
    assert(m2[pid].children =~= cs.take(i) + new_cs + cs.skip(i + 2));
    assert(m2[pid].keys =~= ks.take(i) + new_ks + ks.skip(i + 1));
    lemma_regroup_parent(m1, m2, pid, hp, lo, hi, after, i, new_cs, new_ks, fresh);
}

} // verus!
