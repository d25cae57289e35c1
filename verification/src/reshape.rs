//! What splitting a full child does to the tree, at the level of the page
//! map: the tree stays well formed, holds the same entries, starts at the
//! same leaf, and reaches only its old pages and the one new page.

use vstd::prelude::*;

use crate::error::PageId;
use crate::key::Key;
use crate::node::{NodeModel, MAX_KEYS, MIN_DEGREE};
use crate::seg::{
    apart, inner_ok, lemma_seg_concat, lemma_seg_frame, lemma_seg_replace, lemma_seg_single,
    lemma_under_node, lemma_under_some_concat, lemma_under_some_one, lemma_wf_seg, pairwise_apart,
    seg_after, seg_child, seg_wf, under_some,
};
use crate::entries::{all_above, all_below};
use crate::tree::{
    above, agree_under, at_most, below, child_hi, child_lo, entries, entries_list, first_leaf,
    leaf_entries, leaf_ok, lemma_entries_list_concat, lemma_entries_list_split, lemma_under_unfold,
    lemma_wf_dom, sorted_strict, under, wf,
};

verus! {

/// Nothing `m1` holds outside the tree under `id` changed in `m2`, and every
/// page under `id` in `m2` was under it in `m1` or is at least `fresh`.
pub open spec fn changed_only_under<K>(
    m1: Map<PageId, NodeModel<K>>,
    m2: Map<PageId, NodeModel<K>>,
    id: PageId,
    h: int,
    fresh: PageId,
) -> bool {
    &&& forall|p: PageId| #[trigger]
        m1.contains_key(p) && !under(m1, id, h, p) ==> m2.contains_key(p) && m2[p] == m1[p]
    &&& forall|p: PageId| #[trigger] under(m2, id, h, p) ==> under(m1, id, h, p) || fresh <= p
}

/// Every page `m` holds is below `fresh`.
pub open spec fn below_fresh<K>(m: Map<PageId, NodeModel<K>>, fresh: PageId) -> bool {
    forall|p: PageId| #[trigger] m.contains_key(p) ==> p < fresh
}

/// The left half a full node keeps when it splits; a leaf half points to the right half.
pub open spec fn split_left<K>(c: NodeModel<K>, right: PageId) -> NodeModel<K> {
    if c.is_leaf {
        NodeModel {
            keys: c.keys.take(MIN_DEGREE - 1),
            values: c.values.take(MIN_DEGREE - 1),
            children: c.children,
            next: Some(right),
            is_leaf: true,
        }
    } else {
        NodeModel {
            keys: c.keys.take(MIN_DEGREE - 1),
            values: c.values,
            children: c.children.take(MIN_DEGREE as int),
            next: c.next,
            is_leaf: false,
        }
    }
}

/// The right half a full node hands to a new page when it splits.
pub open spec fn split_right<K>(c: NodeModel<K>) -> NodeModel<K> {
    if c.is_leaf {
        NodeModel {
            keys: c.keys.skip(MIN_DEGREE - 1),
            values: c.values.skip(MIN_DEGREE - 1),
            children: Seq::empty(),
            next: c.next,
            is_leaf: true,
        }
    } else {
        NodeModel {
            keys: c.keys.skip(MIN_DEGREE as int),
            values: Seq::empty(),
            children: c.children.skip(MIN_DEGREE as int),
            next: None,
            is_leaf: false,
        }
    }
}

/// The parent after its child `i` split around `sep` into itself and `right`.
pub open spec fn split_parent<K>(p: NodeModel<K>, i: int, sep: K, right: PageId) -> NodeModel<K> {
    NodeModel {
        keys: p.keys.insert(i, sep),
        values: p.values,
        children: p.children.insert(i + 1, right),
        next: p.next,
        is_leaf: p.is_leaf,
    }
}

/// Every page is under itself.
pub proof fn lemma_under_self<K>(m: Map<PageId, NodeModel<K>>, id: PageId, h: int)
    ensures
        under(m, id, h, id),
{
    if h > 0 {
        lemma_under_unfold(m, id, h, id);
    }
}

/// The two halves of a split child form a well-formed run covering the
/// child's range and entries.
proof fn lemma_split_pair<K: Key>(
    m1: Map<PageId, NodeModel<K>>,
    m2: Map<PageId, NodeModel<K>>,
    c: PageId,
    h: int,
    lo: Option<int>,
    hi: Option<int>,
    after: Option<PageId>,
    rid: PageId,
    pid: PageId,
)
    requires
        wf(m1, c, h, lo, hi, after),
        m1[c].keys.len() == MAX_KEYS,
        !m1.contains_key(rid),
        !under(m1, c, h, pid),
        m2.contains_key(c) && m2[c] == split_left(m1[c], rid),
        m2.contains_key(rid) && m2[rid] == split_right(m1[c]),
        forall|p: PageId| #[trigger] m1.contains_key(p) && p != c && p != pid ==> m2.contains_key(p) && m2[p] == m1[p],
    ensures
        seg_wf(m2, seq![c, rid], seq![m1[c].keys[MIN_DEGREE - 1]], h, lo, hi, after),
        entries_list(m2, seq![c, rid], h) == entries(m1, c, h),
        first_leaf(m2, c, h) == first_leaf(m1, c, h),
        forall|p: PageId| #[trigger] under(m2, c, h, p) ==> under(m1, c, h, p),
        forall|p: PageId| #[trigger] under(m2, rid, h, p) ==> under(m1, c, h, p) || p == rid,
{
    let cn = m1[c];
    let sep = cn.keys[4];
    let kr = Some(sep.rank());
    let ln = m2[c];
    let rn = m2[rid];
    let sc = seq![c];
    let sr = seq![rid];
    lemma_wf_dom(m1, c, h, lo, hi, after);
    lemma_under_self(m1, c, h);
    assert(seq![c, rid] =~= sc + sr);
    assert(seq![sep] =~= Seq::<K>::empty() + seq![sep] + Seq::<K>::empty());
    lemma_seg_concat(m2, seq![c], Seq::<K>::empty(), sep, seq![rid], Seq::<K>::empty(), h, lo, hi, after);
    lemma_seg_single(m2, c, h, lo, kr, Some(first_leaf(m2, rid, h)));
    lemma_seg_single(m2, rid, h, kr, hi, after);
    lemma_entries_list_concat(m2, seq![c], seq![rid], h);
    if h <= 0 {
        // Two leaves.
        assert(leaf_ok(m1, c, lo, hi, after));
        assert(first_leaf(m2, rid, h) == rid);
        assert forall|a: int, b: int| 0 <= a < b < ln.keys.len() implies #[trigger] ln.keys[a].rank() < #[trigger] ln.keys[b].rank() by {
            assert(ln.keys[a] == cn.keys[a] && ln.keys[b] == cn.keys[b]);
        }
        assert forall|a: int| 0 <= a < ln.keys.len() implies above(lo, #[trigger] ln.keys[a].rank()) && below(
            kr,
            ln.keys[a].rank(),
        ) by {
            assert(ln.keys[a] == cn.keys[a]);
            assert(cn.keys[a].rank() < cn.keys[4].rank());
        }
        assert(leaf_ok(m2, c, lo, kr, Some(rid)));
        assert forall|a: int, b: int| 0 <= a < b < rn.keys.len() implies #[trigger] rn.keys[a].rank() < #[trigger] rn.keys[b].rank() by {
            assert(rn.keys[a] == cn.keys[a + 4] && rn.keys[b] == cn.keys[b + 4]);
        }
        assert forall|a: int| 0 <= a < rn.keys.len() implies above(kr, #[trigger] rn.keys[a].rank()) && below(
            hi,
            rn.keys[a].rank(),
        ) by {
            assert(rn.keys[a] == cn.keys[a + 4]);
            if a > 0 {
                assert(cn.keys[4].rank() < cn.keys[a + 4].rank());
            }
        }
        assert(leaf_ok(m2, rid, kr, hi, after));
        assert(wf(m2, c, h, lo, kr, Some(first_leaf(m2, rid, h))));
        assert(wf(m2, rid, h, kr, hi, after));
        assert(above(lo, sep.rank()) && below(hi, sep.rank()));
        assert forall|x: int, y: int, p: PageId| 0 <= x < sc.len() && 0 <= y < sr.len() implies !(
        #[trigger] under(m2, sc[x], h, p) && #[trigger] under(m2, sr[y], h, p)) by {}
        assert(leaf_entries(ln) + leaf_entries(rn) =~= leaf_entries(cn));
    } else {
        // Two internal nodes: the child's run of children split around its middle key.
        let hc = h - 1;
        let gcs = cn.children;
        let gks = cn.keys;
        lemma_wf_seg(m1, c, h, lo, hi, after);
        let lcs = gcs.take(5);
        let lks = gks.take(4);
        let rcs = gcs.skip(5);
        let rks = gks.skip(5);
        assert(gcs =~= lcs + rcs);
        assert(gks =~= lks + seq![sep] + rks);
        lemma_seg_concat(m1, lcs, lks, sep, rcs, rks, hc, lo, hi, after);
        // The grandchildren's subtrees are untouched.
        assert forall|j: int| 0 <= j < gcs.len() implies #[trigger] agree_under(m1, m2, gcs[j], hc) by {
            assert forall|p: PageId| #[trigger] under(m1, gcs[j], hc, p) implies m1.contains_key(p)
                == m2.contains_key(p) && m1[p] == m2[p] by {
                crate::tree::lemma_under_child(m1, c, h, j, p);
                assert(under_some(m1, gcs, hc, p));
                assert(p != c);
                assert(p != pid);
            }
        }
        assert forall|j: int| 0 <= j < lcs.len() implies #[trigger] agree_under(m1, m2, lcs[j], hc) by {
            assert(lcs[j] == gcs[j]);
        }
        assert forall|j: int| 0 <= j < rcs.len() implies #[trigger] agree_under(m1, m2, rcs[j], hc) by {
            assert(rcs[j] == gcs[j + 5]);
        }
        lemma_seg_frame(m1, m2, lcs, lks, hc, lo, kr, Some(first_leaf(m1, rcs[0], hc)));
        lemma_seg_frame(m1, m2, rcs, rks, hc, kr, hi, after);
        lemma_seg_frame(m1, m2, gcs, gks, hc, lo, hi, after);
        assert(ln.children == lcs && ln.keys == lks);
        assert(rn.children == rcs && rn.keys == rks);
        assert(first_leaf(m2, rid, h) == first_leaf(m2, rcs[0], hc));
        assert(first_leaf(m2, c, h) == first_leaf(m2, lcs[0], hc));
        assert(lcs[0] == gcs[0]);
        // Neither half's page is under its own children.
        assert(!under_some(m2, lcs, hc, c)) by {
            if under_some(m2, lcs, hc, c) {
                lemma_under_some_concat(m1, lcs, rcs, hc, c);
            }
        }
        assert(!under_some(m2, rcs, hc, rid)) by {
            if under_some(m2, rcs, hc, rid) {
                let j = choose|j: int| 0 <= j < rcs.len() && #[trigger] under(m1, rcs[j], hc, rid);
                assert(rcs[j] == gcs[j + 5]);
                lemma_wf_dom(m1, c, h, lo, hi, after);
                crate::tree::lemma_under_child(m1, c, h, j + 5, rid);
            }
        }
        lemma_wf_seg(m2, c, h, lo, kr, Some(first_leaf(m2, rid, h)));
        lemma_wf_seg(m2, rid, h, kr, hi, after);
        assert(wf(m2, c, h, lo, kr, Some(first_leaf(m2, rid, h))));
        assert(wf(m2, rid, h, kr, hi, after));
        // The halves share no page.
        assert forall|p: PageId| #[trigger] under(m2, c, h, p) implies p == c || under_some(m1, lcs, hc, p) by {
            lemma_under_node(m2, c, h, p);
        }
        assert forall|p: PageId| #[trigger] under(m2, rid, h, p) implies p == rid || under_some(m1, rcs, hc, p) by {
            lemma_under_node(m2, rid, h, p);
        }
        assert forall|x: int, y: int, p: PageId| 0 <= x < sc.len() && 0 <= y < sr.len() implies !(
        #[trigger] under(m2, sc[x], h, p) && #[trigger] under(m2, sr[y], h, p)) by {
            assert(sc[x] == c && sr[y] == rid);
            if under(m2, c, h, p) && under(m2, rid, h, p) {
                lemma_under_some_concat(m1, lcs, rcs, hc, p);
                if p == c {
                    assert(!under_some(m1, gcs, hc, c));
                } else if p == rid {
                    assert(under_some(m1, gcs, hc, rid));
                    let j = choose|j: int| 0 <= j < gcs.len() && #[trigger] under(m1, gcs[j], hc, rid);
                    crate::tree::lemma_under_child(m1, c, h, j, rid);
                } else {
                    let x1 = choose|j: int| 0 <= j < lcs.len() && #[trigger] under(m1, lcs[j], hc, p);
                    let y1 = choose|j: int| 0 <= j < rcs.len() && #[trigger] under(m1, rcs[j], hc, p);
                    assert(!(under(m1, lcs[x1], hc, p) && under(m1, rcs[y1], hc, p)));
                }
            }
        }
        lemma_entries_list_concat(m1, lcs, rcs, hc);
        assert(entries(m2, c, h) == entries_list(m2, lcs, hc));
        assert(entries(m2, rid, h) == entries_list(m2, rcs, hc));
        assert forall|p: PageId| #[trigger] under(m2, c, h, p) implies under(m1, c, h, p) by {
            lemma_under_some_concat(m1, lcs, rcs, hc, p);
            lemma_under_node(m1, c, h, p);
        }
        assert forall|p: PageId| #[trigger] under(m2, rid, h, p) implies under(m1, c, h, p) || p == rid by {
            lemma_under_some_concat(m1, lcs, rcs, hc, p);
            lemma_under_node(m1, c, h, p);
        }
    }
}

/// Splitting the full child `c`, the `i`-th of `pid`, into itself and the
/// fresh page `rid` keeps the tree under `pid` well formed, with the same
/// entries and first leaf, reaching only its old pages and `rid`.
pub proof fn lemma_split<K: Key>(
    m1: Map<PageId, NodeModel<K>>,
    m2: Map<PageId, NodeModel<K>>,
    pid: PageId,
    hp: int,
    lo: Option<int>,
    hi: Option<int>,
    after: Option<PageId>,
    i: int,
    c: PageId,
    rid: PageId,
    fresh: PageId,
)
    requires
        hp > 0,
        wf(m1, pid, hp, lo, hi, after),
        0 <= i < m1[pid].children.len(),
        c == m1[pid].children[i],
        m1[c].keys.len() == MAX_KEYS,
        below_fresh(m1, fresh),
        fresh <= rid,
        m2 == m1.insert(rid, split_right(m1[c])).insert(c, split_left(m1[c], rid)).insert(
            pid,
            split_parent(m1[pid], i, m1[c].keys[MIN_DEGREE - 1], rid),
        ),
    ensures
        wf(m2, pid, hp, lo, hi, after),
        entries(m2, pid, hp) == entries(m1, pid, hp),
        first_leaf(m2, pid, hp) == first_leaf(m1, pid, hp),
        changed_only_under(m1, m2, pid, hp, fresh),
{
    let cs = m1[pid].children;
    let ks = m1[pid].keys;
    let hc = hp - 1;
    let cn = m1[c];
    let sep = cn.keys[4];
    lemma_wf_seg(m1, pid, hp, lo, hi, after);
    assert(seg_child(m1, cs, ks, hc, lo, hi, after, i));
    let lo_i = child_lo(lo, ks, i);
    let hi_i = child_hi(hi, ks, i);
    let after_i = seg_after(m1, cs, after, i, hc);
    assert(!under(m1, c, hc, pid)) by {
        if under(m1, c, hc, pid) {
            assert(under_some(m1, cs, hc, pid));
        }
    }
    lemma_under_self(m1, c, hc);
    lemma_wf_dom(m1, c, hc, lo_i, hi_i, after_i);
    assert(c != pid);
    assert(!m1.contains_key(rid));
    lemma_split_pair(m1, m2, c, hc, lo_i, hi_i, after_i, rid, pid);
    // Every page under a child of `pid` is one `m1` holds.
    assert forall|j: int, p: PageId| 0 <= j < cs.len() && #[trigger] under(m1, cs[j], hc, p) implies m1.contains_key(
        p,
    ) by {
        assert(seg_child(m1, cs, ks, hc, lo, hi, after, j));
        lemma_wf_dom(m1, cs[j], hc, child_lo(lo, ks, j), child_hi(hi, ks, j), seg_after(m1, cs, after, j, hc));
    }
    assert forall|j: int| 0 <= j < cs.len() && !(i <= j < i + 1) implies #[trigger] agree_under(m1, m2, cs[j], hc) by {
        assert forall|p: PageId| #[trigger] under(m1, cs[j], hc, p) implies m1.contains_key(p) == m2.contains_key(p)
            && m1[p] == m2[p] by {
            assert(m1.contains_key(p));
            assert(p != pid) by {
                if p == pid {
                    assert(under_some(m1, cs, hc, pid));
                }
            }
            assert(p != c) by {
                if p == c {
                    if j < i {
                        assert(!(under(m1, cs[j], hc, c) && under(m1, cs[i], hc, c)));
                    } else {
                        assert(!(under(m1, cs[i], hc, c) && under(m1, cs[j], hc, c)));
                    }
                }
            }
        }
    }
    let new_cs = seq![c, rid];
    let new_ks = seq![sep];
    assert(cs.subrange(i, i + 1)[0] == c);
    assert forall|p: PageId| #[trigger] under_some(m2, new_cs, hc, p) implies under_some(
        m1,
        cs.subrange(i, i + 1),
        hc,
        p,
    ) || fresh <= p by {
        let j = choose|j: int| 0 <= j < new_cs.len() && #[trigger] under(m2, new_cs[j], hc, p);
        if under(m1, c, hc, p) {
            assert(under(m1, cs.subrange(i, i + 1)[0], hc, p));
        }
    }
    assert forall|p: PageId| #[trigger] under_some(m1, cs, hc, p) implies p < fresh by {
        let j = choose|j: int| 0 <= j < cs.len() && #[trigger] under(m1, cs[j], hc, p);
    }
    assert(first_leaf(m2, new_cs[0], hc) == first_leaf(m1, cs[i], hc));
    lemma_seg_replace(m1, m2, cs, ks, hc, lo, hi, after, i, 1, new_cs, new_ks, fresh);
    let cs2 = cs.take(i) + new_cs + cs.skip(i + 1);
    let ks2 = ks.take(i) + new_ks + ks.skip(i);
    assert(m2[pid].children =~= cs2);
    assert(m2[pid].keys =~= ks2);
    assert(inner_ok(m2, pid));
    lemma_wf_seg(m2, pid, hp, lo, hi, after);
    lemma_entries_list_split(m1, cs, i, hc);
    assert(entries(m2, pid, hp) == entries_list(m2, cs2, hc));
    assert(entries(m2, pid, hp) =~= entries(m1, pid, hp));
    assert(first_leaf(m2, pid, hp) == first_leaf(m2, cs2[0], hc));
    lemma_under_self(m1, pid, hp);
    assert forall|p: PageId| #[trigger] m1.contains_key(p) && !under(m1, pid, hp, p) implies m2.contains_key(p)
        && m2[p] == m1[p] by {
        crate::tree::lemma_under_child(m1, pid, hp, i, c);
    }
    assert forall|p: PageId| #[trigger] under(m2, pid, hp, p) implies under(m1, pid, hp, p) || fresh <= p by {
        lemma_under_node(m2, pid, hp, p);
        lemma_under_node(m1, pid, hp, p);
    }
}

/// Changes confined under `id` compose.
pub proof fn lemma_changed_trans<K>(
    m1: Map<PageId, NodeModel<K>>,
    m2: Map<PageId, NodeModel<K>>,
    m3: Map<PageId, NodeModel<K>>,
    id: PageId,
    h: int,
    f1: PageId,
    f2: PageId,
)
    requires
        below_fresh(m1, f1),
        f1 <= f2,
        changed_only_under(m1, m2, id, h, f1),
        changed_only_under(m2, m3, id, h, f2),
    ensures
        changed_only_under(m1, m3, id, h, f1),
{
    assert forall|p: PageId| #[trigger] m1.contains_key(p) && !under(m1, id, h, p) implies m3.contains_key(p)
        && m3[p] == m1[p] by {
        assert(m2.contains_key(p));
        assert(!under(m2, id, h, p));
    }
}

/// The entries of the children before child `i` rank below any key in
/// child `i`'s range, and those after it above.
pub proof fn lemma_child_entries_bounds<K: Key>(
    m: Map<PageId, NodeModel<K>>,
    id: PageId,
    h: int,
    lo: Option<int>,
    hi: Option<int>,
    after: Option<PageId>,
    i: int,
    r: int,
)
    requires
        h > 0,
        wf(m, id, h, lo, hi, after),
        0 <= i < m[id].children.len(),
        above(child_lo(lo, m[id].keys, i), r),
        below(child_hi(hi, m[id].keys, i), r),
    ensures
        all_below(entries_list(m, m[id].children.take(i), h - 1), r),
        all_above(entries_list(m, m[id].children.skip(i + 1), h - 1), r),
        entries(m, id, h) == entries_list(m, m[id].children.take(i), h - 1) + entries(
            m,
            m[id].children[i],
            h - 1,
        ) + entries_list(m, m[id].children.skip(i + 1), h - 1),
{
    let keys = m[id].keys;
    let cs = m[id].children;
    crate::tree::lemma_wf_unfold(m, id, h, lo, hi, after);
    lemma_entries_list_split(m, cs, i, h - 1);
    assert forall|j: int| 0 <= j < cs.take(i).len() implies #[trigger] crate::tree::within(
        entries(m, cs.take(i)[j], h - 1),
        None,
        Some(r),
    ) by {
        assert(cs.take(i)[j] == cs[j]);
        assert(crate::tree::wf_child(m, id, j, h, lo, hi, after));
        crate::tree::lemma_entries_ordered(
            m,
            cs[j],
            h - 1,
            child_lo(lo, keys, j),
            child_hi(hi, keys, j),
            crate::tree::child_after(m, m[id], after, j, h - 1),
        );
        assert(keys[j].rank() <= keys[i - 1].rank());
        crate::tree::lemma_within_weaken(
            entries(m, cs[j], h - 1),
            child_lo(lo, keys, j),
            child_hi(hi, keys, j),
            None,
            Some(r),
        );
    }
    crate::tree::lemma_entries_list_within(m, cs.take(i), h - 1, None, Some(r));
    assert forall|j: int| 0 <= j < cs.skip(i + 1).len() implies #[trigger] crate::tree::within(
        entries(m, cs.skip(i + 1)[j], h - 1),
        Some(r + 1),
        None,
    ) by {
        let jj = j + i + 1;
        assert(cs.skip(i + 1)[j] == cs[jj]);
        assert(crate::tree::wf_child(m, id, jj, h, lo, hi, after));
        crate::tree::lemma_entries_ordered(
            m,
            cs[jj],
            h - 1,
            child_lo(lo, keys, jj),
            child_hi(hi, keys, jj),
            crate::tree::child_after(m, m[id], after, jj, h - 1),
        );
        assert(keys[i].rank() <= keys[jj - 1].rank());
        crate::tree::lemma_within_weaken(
            entries(m, cs[jj], h - 1),
            child_lo(lo, keys, jj),
            child_hi(hi, keys, jj),
            Some(r + 1),
            None,
        );
    }
    crate::tree::lemma_entries_list_within(m, cs.skip(i + 1), h - 1, Some(r + 1), None);
    let pre = entries_list(m, cs.take(i), h - 1);
    let suf = entries_list(m, cs.skip(i + 1), h - 1);
    assert forall|j: int| 0 <= j < pre.len() implies #[trigger] pre[j].0.rank() < r by {
        assert(below(Some(r), pre[j].0.rank()));
    }
    assert forall|j: int| 0 <= j < suf.len() implies #[trigger] suf[j].0.rank() > r by {
        assert(above(Some(r + 1), suf[j].0.rank()));
    }
}

/// Rebuilding the subtree of child `i` of `pid` in place, within the same
/// range, from the same first leaf, and reaching only its old pages and
/// fresh ones, keeps the tree under `pid` well formed.
pub proof fn lemma_replace_child<K: Key>(
    m1: Map<PageId, NodeModel<K>>,
    m2: Map<PageId, NodeModel<K>>,
    pid: PageId,
    hp: int,
    lo: Option<int>,
    hi: Option<int>,
    after: Option<PageId>,
    i: int,
    fresh: PageId,
)
    requires
        hp > 0,
        wf(m1, pid, hp, lo, hi, after),
        0 <= i < m1[pid].children.len(),
        below_fresh(m1, fresh),
        changed_only_under(m1, m2, m1[pid].children[i], hp - 1, fresh),
        wf(
            m2,
            m1[pid].children[i],
            hp - 1,
            child_lo(lo, m1[pid].keys, i),
            child_hi(hi, m1[pid].keys, i),
            seg_after(m1, m1[pid].children, after, i, hp - 1),
        ),
        first_leaf(m2, m1[pid].children[i], hp - 1) == first_leaf(m1, m1[pid].children[i], hp - 1),
    ensures
        m2.contains_key(pid) && m2[pid] == m1[pid],
        wf(m2, pid, hp, lo, hi, after),
        entries(m2, pid, hp) == entries_list(m1, m1[pid].children.take(i), hp - 1) + entries(
            m2,
            m1[pid].children[i],
            hp - 1,
        ) + entries_list(m1, m1[pid].children.skip(i + 1), hp - 1),
        first_leaf(m2, pid, hp) == first_leaf(m1, pid, hp),
        changed_only_under(m1, m2, pid, hp, fresh),
{
    let cs = m1[pid].children;
    let ks = m1[pid].keys;
    let hc = hp - 1;
    let c = cs[i];
    lemma_wf_seg(m1, pid, hp, lo, hi, after);
    assert(!under(m1, c, hc, pid)) by {
        if under(m1, c, hc, pid) {
            assert(under_some(m1, cs, hc, pid));
        }
    }
    assert(m2.contains_key(pid) && m2[pid] == m1[pid]);
    assert forall|j: int, p: PageId| 0 <= j < cs.len() && #[trigger] under(m1, cs[j], hc, p) implies m1.contains_key(
        p,
    ) by {
        assert(seg_child(m1, cs, ks, hc, lo, hi, after, j));
        lemma_wf_dom(m1, cs[j], hc, child_lo(lo, ks, j), child_hi(hi, ks, j), seg_after(m1, cs, after, j, hc));
    }
    assert forall|j: int| 0 <= j < cs.len() && !(i <= j < i + 1) implies #[trigger] agree_under(m1, m2, cs[j], hc) by {
        assert forall|p: PageId| #[trigger] under(m1, cs[j], hc, p) implies m1.contains_key(p) == m2.contains_key(p)
            && m1[p] == m2[p] by {
            assert(m1.contains_key(p));
            if under(m1, c, hc, p) {
                if j < i {
                    assert(!(under(m1, cs[j], hc, p) && under(m1, cs[i], hc, p)));
                } else {
                    assert(!(under(m1, cs[i], hc, p) && under(m1, cs[j], hc, p)));
                }
            }
        }
    }
    let new_cs = seq![c];
    let new_ks = Seq::<K>::empty();
    lemma_seg_single(m2, c, hc, child_lo(lo, ks, i), child_hi(hi, ks, i + 1 - 1), seg_after(m1, cs, after, i + 1 - 1, hc));
    assert(cs.subrange(i, i + 1)[0] == c);
    assert forall|p: PageId| #[trigger] under_some(m2, new_cs, hc, p) implies under_some(
        m1,
        cs.subrange(i, i + 1),
        hc,
        p,
    ) || fresh <= p by {
        lemma_under_some_one(m2, c, hc, p);
        if under(m1, c, hc, p) {
            assert(under(m1, cs.subrange(i, i + 1)[0], hc, p));
        }
    }
    assert forall|p: PageId| #[trigger] under_some(m1, cs, hc, p) implies p < fresh by {
        let j = choose|j: int| 0 <= j < cs.len() && #[trigger] under(m1, cs[j], hc, p);
    }
    lemma_seg_replace(m1, m2, cs, ks, hc, lo, hi, after, i, 1, new_cs, new_ks, fresh);
    let cs2 = cs.take(i) + new_cs + cs.skip(i + 1);
    let ks2 = ks.take(i) + new_ks + ks.skip(i);
    assert(cs2 =~= cs);
    assert(ks2 =~= ks);
    lemma_wf_seg(m2, pid, hp, lo, hi, after);
    lemma_seg_single(m2, c, hc, None, None, None);
    assert(entries(m2, pid, hp) == entries_list(m2, cs2, hc));
    lemma_under_self(m1, pid, hp);
    assert forall|p: PageId| #[trigger] m1.contains_key(p) && !under(m1, pid, hp, p) implies m2.contains_key(p)
        && m2[p] == m1[p] by {
        if under(m1, c, hc, p) {
            crate::tree::lemma_under_child(m1, pid, hp, i, p);
        }
    }
    assert forall|p: PageId| #[trigger] under(m2, pid, hp, p) implies under(m1, pid, hp, p) || fresh <= p by {
        lemma_under_node(m2, pid, hp, p);
        lemma_under_node(m1, pid, hp, p);
    }
}

/// A fresh internal page whose one child is the old root is a well-formed
/// tree one level taller, with the same entries.
pub proof fn lemma_new_root<K: Key>(
    m1: Map<PageId, NodeModel<K>>,
    m2: Map<PageId, NodeModel<K>>,
    root: PageId,
    h: int,
    nid: PageId,
)
    requires
        wf(m1, root, h, None, None, None),
        !m1.contains_key(nid),
        m2 == m1.insert(
            nid,
            NodeModel {
                keys: Seq::empty(),
                values: Seq::empty(),
                children: seq![root],
                next: None,
                is_leaf: false,
            },
        ),
    ensures
        wf(m2, nid, h + 1, None, None, None),
        entries(m2, nid, h + 1) == entries(m1, root, h),
{
    lemma_wf_dom(m1, root, h, None, None, None);
    assert(agree_under(m1, m2, root, h));
    crate::tree::lemma_frame(m1, m2, root, h);
    assert(h + 1 > 0);
    lemma_seg_single(m2, root, h, None, None, None);
    assert(m2[nid].children == seq![root]);
    assert(!under_some(m2, seq![root], h, nid)) by {
        lemma_under_some_one(m2, root, h, nid);
    }
    lemma_wf_seg(m2, nid, h + 1, None, None, None);
}

/// A lookup in a node comes down to a lookup in any child whose range holds the key.
pub proof fn lemma_get_in_child<K: Key>(
    m: Map<PageId, NodeModel<K>>,
    id: PageId,
    h: int,
    lo: Option<int>,
    hi: Option<int>,
    after: Option<PageId>,
    i: int,
    r: int,
)
    requires
        h > 0,
        wf(m, id, h, lo, hi, after),
        0 <= i < m[id].children.len(),
        above(child_lo(lo, m[id].keys, i), r),
        below(child_hi(hi, m[id].keys, i), r),
    ensures
        crate::tree::seq_get(entries(m, id, h), r) == crate::tree::seq_get(entries(m, m[id].children[i], h - 1), r),
{
    lemma_child_entries_bounds(m, id, h, lo, hi, after, i, r);
    let cs = m[id].children;
    let pre = entries_list(m, cs.take(i), h - 1);
    let mid = entries(m, cs[i], h - 1);
    let suf = entries_list(m, cs.skip(i + 1), h - 1);
    assert forall|j: int| 0 <= j < pre.len() implies #[trigger] pre[j].0.rank() != r by {
        assert(pre[j].0.rank() < r);
    }
    assert forall|j: int| 0 <= j < suf.len() implies #[trigger] suf[j].0.rank() != r by {
        assert(suf[j].0.rank() > r);
    }
    crate::tree::lemma_seq_get_absent(pre, r);
    crate::tree::lemma_seq_get_absent(suf, r);
    crate::tree::lemma_seq_get_concat(pre + mid, suf, r);
    crate::tree::lemma_seq_get_concat(pre, mid, r);
}

/// An internal root with no separators has one child, which is the whole tree.
pub proof fn lemma_root_shrink<K: Key>(m: Map<PageId, NodeModel<K>>, root: PageId, h: int)
    requires
        h > 0,
        wf(m, root, h, None, None, None),
        m[root].keys.len() == 0,
    ensures
        m[root].children.len() == 1,
        wf(m, m[root].children[0], h - 1, None, None, None),
        entries(m, m[root].children[0], h - 1) == entries(m, root, h),
{
    let cs = m[root].children;
    let ks = m[root].keys;
    lemma_wf_seg(m, root, h, None, None, None);
    assert(seg_child(m, cs, ks, h - 1, None, None, None, 0));
    assert(cs =~= seq![cs[0]]);
    crate::tree::lemma_entries_list_one(m, cs[0], h - 1);
}

} // verus!
