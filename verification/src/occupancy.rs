//! How full the tree keeps its pages: at most `MAX_KEYS` keys in every page,
//! and at least `MIN_KEYS` in every page but the root. Splitting before an
//! insert descends and refilling before a delete descends keep it so.

use vstd::prelude::*;

use crate::error::PageId;
use crate::key::Key;
use crate::node::{NodeModel, MAX_KEYS, MIN_DEGREE, MIN_KEYS};
use crate::reshape::{below_fresh, changed_only_under, split_left, split_parent, split_right};
use crate::regroup::{merged, next_child, next_right, next_sep, prev_child, prev_left, with_key, without_child};
use crate::tree::{agree_under, lemma_frame, lemma_under_child, lemma_wf_dom, lemma_wf_unfold, under, wf, wf_child};

verus! {

/// Page `id`, a tree of height `h`, holds between `min` and `MAX_KEYS` keys,
/// and every other page it reaches between `MIN_KEYS` and `MAX_KEYS`.
pub open spec fn occupied<K>(m: Map<PageId, NodeModel<K>>, id: PageId, h: int, min: int) -> bool {
    &&& min <= m[id].keys.len() <= MAX_KEYS
    &&& forall|p: PageId| #[trigger] under(m, id, h, p) && p != id ==> MIN_KEYS <= m[p].keys.len() <= MAX_KEYS
}

/// The least number of keys the root of a tree of height `h` holds: an
/// internal root keeps at least one separator.
pub open spec fn root_min(h: int) -> int {
    if h > 0 {
        1
    } else {
        0
    }
}

/// A page is occupied when it holds between `min` and `MAX_KEYS` keys and
/// each of its children is occupied.
pub proof fn lemma_occ_unfold<K>(m: Map<PageId, NodeModel<K>>, id: PageId, h: int, min: int)
    requires
        h > 0,
        forall|i: int| 0 <= i < m[id].children.len() ==> !#[trigger] under(m, m[id].children[i], h - 1, id),
    ensures
        occupied(m, id, h, min) <==> (min <= m[id].keys.len() <= MAX_KEYS && forall|i: int|
            0 <= i < m[id].children.len() ==> #[trigger] occupied(m, m[id].children[i], h - 1, MIN_KEYS as int)),
{
    let cs = m[id].children;
    if occupied(m, id, h, min) {
        assert forall|i: int| 0 <= i < cs.len() implies #[trigger] occupied(m, cs[i], h - 1, MIN_KEYS as int) by {
            crate::reshape::lemma_under_self(m, cs[i], h - 1);
            lemma_under_child(m, id, h, i, cs[i]);
            assert(!under(m, cs[i], h - 1, id));
            assert forall|p: PageId| #[trigger] under(m, cs[i], h - 1, p) && p != cs[i] implies MIN_KEYS
                <= m[p].keys.len() <= MAX_KEYS by {
                lemma_under_child(m, id, h, i, p);
            }
        }
    }
    if min <= m[id].keys.len() <= MAX_KEYS && forall|i: int|
        0 <= i < cs.len() ==> #[trigger] occupied(m, cs[i], h - 1, MIN_KEYS as int) {
        assert forall|p: PageId| #[trigger] under(m, id, h, p) && p != id implies MIN_KEYS <= m[p].keys.len()
            <= MAX_KEYS by {
            crate::tree::lemma_under_unfold(m, id, h, p);
            let i = choose|i: int| 0 <= i < cs.len() && #[trigger] under(m, cs[i], h - 1, p);
            assert(occupied(m, cs[i], h - 1, MIN_KEYS as int));
        }
    }
}

/// Occupancy reads only the pages under `id`.
pub proof fn lemma_occ_frame<K: Key>(
    m1: Map<PageId, NodeModel<K>>,
    m2: Map<PageId, NodeModel<K>>,
    id: PageId,
    h: int,
    min: int,
)
    requires
        agree_under(m1, m2, id, h),
    ensures
        occupied(m2, id, h, min) == occupied(m1, id, h, min),
{
    lemma_frame(m1, m2, id, h);
    crate::reshape::lemma_under_self(m1, id, h);
    assert(m2[id] == m1[id]);
    assert forall|p: PageId| #[trigger] under(m2, id, h, p) && p != id implies (MIN_KEYS <= m2[p].keys.len()
        <= MAX_KEYS) == (MIN_KEYS <= m1[p].keys.len() <= MAX_KEYS) by {
        assert(under(m1, id, h, p));
    }
    if occupied(m1, id, h, min) {
        assert forall|p: PageId| #[trigger] under(m2, id, h, p) && p != id implies MIN_KEYS <= m2[p].keys.len()
            <= MAX_KEYS by {
            assert(under(m1, id, h, p));
        }
    }
    if occupied(m2, id, h, min) {
        assert forall|p: PageId| #[trigger] under(m1, id, h, p) && p != id implies MIN_KEYS <= m1[p].keys.len()
            <= MAX_KEYS by {
            assert(under(m2, id, h, p));
        }
    }
}

/// Child `k` of a well-formed internal page reaches neither the page nor any
/// other child.
pub proof fn lemma_child_excludes<K: Key>(
    m: Map<PageId, NodeModel<K>>,
    id: PageId,
    h: int,
    lo: Option<int>,
    hi: Option<int>,
    after: Option<PageId>,
    k: int,
)
    requires
        h > 0,
        wf(m, id, h, lo, hi, after),
        0 <= k < m[id].children.len(),
    ensures
        !under(m, m[id].children[k], h - 1, id),
        forall|j: int|
            0 <= j < m[id].children.len() && j != k ==> !#[trigger] under(
                m,
                m[id].children[k],
                h - 1,
                m[id].children[j],
            ),
{
    lemma_wf_unfold(m, id, h, lo, hi, after);
    let cs = m[id].children;
    assert forall|j: int| 0 <= j < cs.len() && j != k implies !#[trigger] under(m, cs[k], h - 1, cs[j]) by {
        crate::reshape::lemma_under_self(m, cs[j], h - 1);
        if j < k {
            assert(!(under(m, cs[j], h - 1, cs[j]) && under(m, cs[k], h - 1, cs[j])));
        } else {
            assert(!(under(m, cs[k], h - 1, cs[j]) && under(m, cs[j], h - 1, cs[j])));
        }
    }
}

/// Every page a well-formed tree reaches is older than `fresh`, when all its
/// pages are.
pub proof fn lemma_fresh_excluded<K: Key>(
    m: Map<PageId, NodeModel<K>>,
    id: PageId,
    h: int,
    lo: Option<int>,
    hi: Option<int>,
    after: Option<PageId>,
    fresh: PageId,
)
    requires
        wf(m, id, h, lo, hi, after),
        below_fresh(m, fresh),
    ensures
        !under(m, id, h, fresh),
{
    lemma_wf_dom(m, id, h, lo, hi, after);
}

/// A grandchild of a well-formed page reaches neither the page, nor its own
/// parent, nor any other child of the page.
pub proof fn lemma_grandchild_excludes<K: Key>(
    m: Map<PageId, NodeModel<K>>,
    id: PageId,
    h: int,
    lo: Option<int>,
    hi: Option<int>,
    after: Option<PageId>,
    k: int,
    t: int,
)
    requires
        h > 1,
        wf(m, id, h, lo, hi, after),
        0 <= k < m[id].children.len(),
        0 <= t < m[m[id].children[k]].children.len(),
    ensures
        !under(m, m[m[id].children[k]].children[t], h - 2, id),
        !under(m, m[m[id].children[k]].children[t], h - 2, m[id].children[k]),
        forall|j: int|
            0 <= j < m[id].children.len() && j != k ==> !#[trigger] under(
                m,
                m[m[id].children[k]].children[t],
                h - 2,
                m[id].children[j],
            ),
{
    let c = m[id].children[k];
    let g = m[c].children[t];
    lemma_child_excludes(m, id, h, lo, hi, after, k);
    lemma_wf_unfold(m, id, h, lo, hi, after);
    assert(wf_child(m, id, k, h, lo, hi, after));
    lemma_child_excludes(
        m,
        c,
        h - 1,
        crate::tree::child_lo(lo, m[id].keys, k),
        crate::tree::child_hi(hi, m[id].keys, k),
        crate::tree::child_after(m, m[id], after, k, h - 1),
        t,
    );
    if under(m, g, h - 2, id) {
        lemma_under_child(m, c, h - 1, t, id);
    }
    assert forall|j: int| 0 <= j < m[id].children.len() && j != k implies !#[trigger] under(
        m,
        g,
        h - 2,
        m[id].children[j],
    ) by {
        if under(m, g, h - 2, m[id].children[j]) {
            lemma_under_child(m, c, h - 1, t, m[id].children[j]);
        }
    }
}

/// A subtree none of whose pages changed is as occupied as it was.
pub proof fn lemma_occ_untouched<K: Key>(
    m1: Map<PageId, NodeModel<K>>,
    m2: Map<PageId, NodeModel<K>>,
    g: PageId,
    h: int,
    lo: Option<int>,
    hi: Option<int>,
    after: Option<PageId>,
    min: int,
)
    requires
        wf(m1, g, h, lo, hi, after),
        forall|p: PageId| #[trigger] under(m1, g, h, p) ==> m2.contains_key(p) && m2[p] == m1[p],
    ensures
        occupied(m2, g, h, min) == occupied(m1, g, h, min),
{
    lemma_wf_dom(m1, g, h, lo, hi, after);
    assert(agree_under(m1, m2, g, h));
    lemma_occ_frame(m1, m2, g, h, min);
}

/// Splitting a full child of an occupied page that has room for one more
/// separator leaves the page occupied, one separator fuller.
pub proof fn lemma_occ_split<K: Key>(
    m1: Map<PageId, NodeModel<K>>,
    m2: Map<PageId, NodeModel<K>>,
    pid: PageId,
    hp: int,
    lo: Option<int>,
    hi: Option<int>,
    after: Option<PageId>,
    i: int,
    c: PageId,
    rid: PageId,
    fresh: PageId,
)
    requires
        hp > 0,
        wf(m1, pid, hp, lo, hi, after),
        wf(m2, pid, hp, lo, hi, after),
        0 <= i < m1[pid].children.len(),
        c == m1[pid].children[i],
        m1[c].keys.len() == MAX_KEYS,
        below_fresh(m1, fresh),
        fresh <= rid,
        m2 == m1.insert(rid, split_right(m1[c])).insert(c, split_left(m1[c], rid)).insert(
            pid,
            split_parent(m1[pid], i, m1[c].keys[MIN_DEGREE - 1], rid),
        ),
        occupied(m1, pid, hp, 0),
        m1[pid].keys.len() < MAX_KEYS,
    ensures
        occupied(m2, pid, hp, m1[pid].keys.len() + 1 as int),
{
    let cs = m1[pid].children;
    let cs2 = m2[pid].children;
    let cn = m1[c];
    lemma_wf_unfold(m1, pid, hp, lo, hi, after);
    lemma_wf_unfold(m2, pid, hp, lo, hi, after);
    lemma_occ_unfold(m1, pid, hp, 0);
    lemma_occ_unfold(m2, pid, hp, m1[pid].keys.len() + 1 as int);
    lemma_child_excludes(m1, pid, hp, lo, hi, after, i);
    assert(occupied(m1, c, hp - 1, MIN_KEYS as int));
    assert(!m1.contains_key(rid));
    crate::reshape::lemma_under_self(m1, c, hp - 1);
    assert(wf_child(m1, pid, i, hp, lo, hi, after));
    lemma_wf_dom(
        m1,
        c,
        hp - 1,
        crate::tree::child_lo(lo, m1[pid].keys, i),
        crate::tree::child_hi(hi, m1[pid].keys, i),
        crate::tree::child_after(m1, m1[pid], after, i, hp - 1),
    );
    assert(c != pid && rid != pid && rid != c);
    assert(cs2 == cs.insert(i + 1, rid));
    assert forall|j: int| 0 <= j < cs2.len() implies #[trigger] occupied(m2, cs2[j], hp - 1, MIN_KEYS as int) by {
        if j < i || j > i + 1 {
            let k = if j < i { j } else { j - 1 };
            assert(cs2[j] == cs[k]);
            assert(wf_child(m1, pid, k, hp, lo, hi, after));
            let lo_k = crate::tree::child_lo(lo, m1[pid].keys, k);
            let hi_k = crate::tree::child_hi(hi, m1[pid].keys, k);
            let after_k = crate::tree::child_after(m1, m1[pid], after, k, hp - 1);
            lemma_child_excludes(m1, pid, hp, lo, hi, after, k);
            lemma_fresh_excluded(m1, cs[k], hp - 1, lo_k, hi_k, after_k, fresh);
            lemma_wf_dom(m1, cs[k], hp - 1, lo_k, hi_k, after_k);
            assert forall|p: PageId| #[trigger] under(m1, cs[k], hp - 1, p) implies m2.contains_key(p) && m2[p]
                == m1[p] by {
                assert(p != rid);
            }
            lemma_occ_untouched(m1, m2, cs[k], hp - 1, lo_k, hi_k, after_k, MIN_KEYS as int);
            assert(occupied(m1, cs[k], hp - 1, MIN_KEYS as int));
        } else {
            let half = if j == i { c } else { rid };
            let hn = m2[half];
            assert(hn == if j == i { split_left(cn, rid) } else { split_right(cn) });
            assert(wf_child(m2, pid, j, hp, lo, hi, after));
            if hp - 1 > 0 {
                lemma_wf_unfold(
                    m2,
                    half,
                    hp - 1,
                    crate::tree::child_lo(lo, m2[pid].keys, j),
                    crate::tree::child_hi(hi, m2[pid].keys, j),
                    crate::tree::child_after(m2, m2[pid], after, j, hp - 1),
                );
                lemma_occ_unfold(m2, half, hp - 1, MIN_KEYS as int);
                assert(wf_child(m1, pid, i, hp, lo, hi, after));
                let lo_c = crate::tree::child_lo(lo, m1[pid].keys, i);
                let hi_c = crate::tree::child_hi(hi, m1[pid].keys, i);
                let after_c = crate::tree::child_after(m1, m1[pid], after, i, hp - 1);
                lemma_wf_unfold(m1, c, hp - 1, lo_c, hi_c, after_c);
                lemma_occ_unfold(m1, c, hp - 1, MIN_KEYS as int);
                assert forall|t: int| 0 <= t < hn.children.len() implies #[trigger] occupied(
                    m2,
                    hn.children[t],
                    hp - 2,
                    MIN_KEYS as int,
                ) by {
                    let u = if j == i { t } else { t + MIN_DEGREE };
                    assert(hn.children[t] == cn.children[u]);
                    let g = cn.children[u];
                    lemma_grandchild_excludes(m1, pid, hp, lo, hi, after, i, u);
                    assert(wf_child(m1, c, u, hp - 1, lo_c, hi_c, after_c));
                    let lo_g = crate::tree::child_lo(lo_c, cn.keys, u);
                    let hi_g = crate::tree::child_hi(hi_c, cn.keys, u);
                    let after_g = crate::tree::child_after(m1, cn, after_c, u, hp - 2);
                    lemma_fresh_excluded(m1, g, hp - 2, lo_g, hi_g, after_g, fresh);
                    lemma_wf_dom(m1, g, hp - 2, lo_g, hi_g, after_g);
                    assert forall|p: PageId| #[trigger] under(m1, g, hp - 2, p) implies m2.contains_key(p) && m2[p]
                        == m1[p] by {
                        assert(p != rid);
                    }
                    lemma_occ_untouched(m1, m2, g, hp - 2, lo_g, hi_g, after_g, MIN_KEYS as int);
                    assert(occupied(m1, g, hp - 2, MIN_KEYS as int));
                }
            } else {
                assert forall|p: PageId| #[trigger] under(m2, half, hp - 1, p) && p != half implies MIN_KEYS
                    <= m2[p].keys.len() <= MAX_KEYS by {}
            }
        }
    }
}

/// Every page `m1` holds is still in `m2`, and unchanged unless it is `pid`
/// or one of its children.
pub open spec fn only_family_changed<K>(
    m1: Map<PageId, NodeModel<K>>,
    m2: Map<PageId, NodeModel<K>>,
    pid: PageId,
) -> bool {
    forall|p: PageId| #[trigger]
        m1.contains_key(p) ==> m2.contains_key(p) && (p == pid || m1[pid].children.contains(p) || m2[p]
            == m1[p])
}

/// An unchanged child of a regrouped page is as occupied as before.
pub proof fn lemma_occ_kept_child<K: Key>(
    m1: Map<PageId, NodeModel<K>>,
    m2: Map<PageId, NodeModel<K>>,
    pid: PageId,
    hp: int,
    lo: Option<int>,
    hi: Option<int>,
    after: Option<PageId>,
    k: int,
)
    requires
        hp > 0,
        wf(m1, pid, hp, lo, hi, after),
        0 <= k < m1[pid].children.len(),
        only_family_changed(m1, m2, pid),
        m2[m1[pid].children[k]] == m1[m1[pid].children[k]],
        occupied(m1, pid, hp, 0),
    ensures
        occupied(m2, m1[pid].children[k], hp - 1, MIN_KEYS as int),
{
    let cs = m1[pid].children;
    lemma_wf_unfold(m1, pid, hp, lo, hi, after);
    lemma_occ_unfold(m1, pid, hp, 0);
    assert(occupied(m1, cs[k], hp - 1, MIN_KEYS as int));
    assert(wf_child(m1, pid, k, hp, lo, hi, after));
    let lo_k = crate::tree::child_lo(lo, m1[pid].keys, k);
    let hi_k = crate::tree::child_hi(hi, m1[pid].keys, k);
    let after_k = crate::tree::child_after(m1, m1[pid], after, k, hp - 1);
    lemma_child_excludes(m1, pid, hp, lo, hi, after, k);
    lemma_wf_dom(m1, cs[k], hp - 1, lo_k, hi_k, after_k);
    assert forall|p: PageId| #[trigger] under(m1, cs[k], hp - 1, p) implies m2.contains_key(p) && m2[p] == m1[p] by {
        if p != cs[k] && cs.contains(p) {
            let j = choose|j: int| 0 <= j < cs.len() && cs[j] == p;
            assert(j != k);
        }
    }
    lemma_occ_untouched(m1, m2, cs[k], hp - 1, lo_k, hi_k, after_k, MIN_KEYS as int);
}

/// A page of a regrouped family whose children are all grandchildren of
/// `pid`, and which holds between `MIN_KEYS` and `MAX_KEYS` keys, is occupied.
pub proof fn lemma_occ_regrouped_child<K: Key>(
    m1: Map<PageId, NodeModel<K>>,
    m2: Map<PageId, NodeModel<K>>,
    pid: PageId,
    hp: int,
    lo: Option<int>,
    hi: Option<int>,
    after: Option<PageId>,
    x: PageId,
    lo_x: Option<int>,
    hi_x: Option<int>,
    after_x: Option<PageId>,
)
    requires
        hp > 0,
        wf(m1, pid, hp, lo, hi, after),
        wf(m2, x, hp - 1, lo_x, hi_x, after_x),
        only_family_changed(m1, m2, pid),
        occupied(m1, pid, hp, 0),
        MIN_KEYS <= m2[x].keys.len() <= MAX_KEYS,
        hp > 1 ==> forall|t: int|
            0 <= t < m2[x].children.len() ==> exists|k: int, u: int|
                0 <= k < m1[pid].children.len() && 0 <= u < m1[m1[pid].children[k]].children.len()
                    && #[trigger] m2[x].children[t] == m1[m1[pid].children[k]].children[u],
    ensures
        occupied(m2, x, hp - 1, MIN_KEYS as int),
{
    let cs = m1[pid].children;
    if hp > 1 {
        lemma_wf_unfold(m2, x, hp - 1, lo_x, hi_x, after_x);
        lemma_occ_unfold(m2, x, hp - 1, MIN_KEYS as int);
        lemma_wf_unfold(m1, pid, hp, lo, hi, after);
        lemma_occ_unfold(m1, pid, hp, 0);
        assert forall|t: int| 0 <= t < m2[x].children.len() implies #[trigger] occupied(
            m2,
            m2[x].children[t],
            hp - 2,
            MIN_KEYS as int,
        ) by {
            let (k, u) = choose|k: int, u: int|
                0 <= k < cs.len() && 0 <= u < m1[cs[k]].children.len() && #[trigger] m2[x].children[t]
                    == m1[cs[k]].children[u];
            let c = cs[k];
            let g = m1[c].children[u];
            assert(wf_child(m1, pid, k, hp, lo, hi, after));
            let lo_c = crate::tree::child_lo(lo, m1[pid].keys, k);
            let hi_c = crate::tree::child_hi(hi, m1[pid].keys, k);
            let after_c = crate::tree::child_after(m1, m1[pid], after, k, hp - 1);
            lemma_wf_unfold(m1, c, hp - 1, lo_c, hi_c, after_c);
            assert(occupied(m1, c, hp - 1, MIN_KEYS as int));
            lemma_occ_unfold(m1, c, hp - 1, MIN_KEYS as int);
            assert(occupied(m1, g, hp - 2, MIN_KEYS as int));
            assert(wf_child(m1, c, u, hp - 1, lo_c, hi_c, after_c));
            let lo_g = crate::tree::child_lo(lo_c, m1[c].keys, u);
            let hi_g = crate::tree::child_hi(hi_c, m1[c].keys, u);
            let after_g = crate::tree::child_after(m1, m1[c], after_c, u, hp - 2);
            lemma_grandchild_excludes(m1, pid, hp, lo, hi, after, k, u);
            lemma_wf_dom(m1, g, hp - 2, lo_g, hi_g, after_g);
            assert forall|p: PageId| #[trigger] under(m1, g, hp - 2, p) implies m2.contains_key(p) && m2[p]
                == m1[p] by {
                if cs.contains(p) {
                    let j = choose|j: int| 0 <= j < cs.len() && cs[j] == p;
                    if j != k {
                        assert(!under(m1, g, hp - 2, cs[j]));
                    }
                }
            }
            lemma_occ_untouched(m1, m2, g, hp - 2, lo_g, hi_g, after_g, MIN_KEYS as int);
        }
    } else {
        assert forall|p: PageId| #[trigger] under(m2, x, hp - 1, p) && p != x implies MIN_KEYS <= m2[p].keys.len()
            <= MAX_KEYS by {}
    }
}

/// Moving one key from a left sibling with a key to spare into a child with
/// none to spare leaves the family occupied, the child one key fuller.
pub proof fn lemma_occ_borrow_prev<K: Key>(
    m1: Map<PageId, NodeModel<K>>,
    m2: Map<PageId, NodeModel<K>>,
    pid: PageId,
    hp: int,
    lo: Option<int>,
    hi: Option<int>,
    after: Option<PageId>,
    idx: int,
    min: int,
)
    requires
        hp > 0,
        wf(m1, pid, hp, lo, hi, after),
        wf(m2, pid, hp, lo, hi, after),
        occupied(m1, pid, hp, min),
        0 < idx < m1[pid].children.len(),
        m1[m1[pid].children[idx - 1]].keys.len() > MIN_KEYS,
        m1[m1[pid].children[idx]].keys.len() <= MIN_KEYS,
        m2 == m1.insert(
            m1[pid].children[idx],
            prev_child(m1[m1[pid].children[idx - 1]], m1[m1[pid].children[idx]], m1[pid].keys[idx - 1]),
        ).insert(m1[pid].children[idx - 1], prev_left(m1[m1[pid].children[idx - 1]])).insert(
            pid,
            with_key(m1[pid], idx - 1, m1[m1[pid].children[idx - 1]].keys.last()),
        ),
    ensures
        occupied(m2, pid, hp, min),
        m2[m1[pid].children[idx]].keys.len() > MIN_KEYS,
{
    let cs = m1[pid].children;
    let (l, c) = (cs[idx - 1], cs[idx]);
    lemma_wf_unfold(m1, pid, hp, lo, hi, after);
    lemma_wf_unfold(m2, pid, hp, lo, hi, after);
    lemma_occ_unfold(m1, pid, hp, min);
    lemma_occ_unfold(m2, pid, hp, min);
    lemma_child_excludes(m1, pid, hp, lo, hi, after, idx);
    crate::reshape::lemma_under_self(m1, c, hp - 1);
    lemma_child_excludes(m1, pid, hp, lo, hi, after, idx - 1);
    crate::reshape::lemma_under_self(m1, l, hp - 1);
    assert(l != c && c != pid && l != pid);
    assert(occupied(m1, c, hp - 1, MIN_KEYS as int));
    assert(occupied(m1, l, hp - 1, MIN_KEYS as int));
    assert(m2[pid].children == cs);
    assert(cs.contains(c) && cs.contains(l));
    assert(only_family_changed(m1, m2, pid));
    assert forall|j: int| 0 <= j < cs.len() implies #[trigger] occupied(m2, cs[j], hp - 1, MIN_KEYS as int) by {
        assert(wf_child(m2, pid, j, hp, lo, hi, after));
        let lo_j = crate::tree::child_lo(lo, m2[pid].keys, j);
        let hi_j = crate::tree::child_hi(hi, m2[pid].keys, j);
        let after_j = crate::tree::child_after(m2, m2[pid], after, j, hp - 1);
        if j == idx || j == idx - 1 {
            if hp > 1 {
                assert(wf_child(m1, pid, idx, hp, lo, hi, after));
                assert(wf_child(m1, pid, idx - 1, hp, lo, hi, after));
                lemma_wf_unfold(m1, c, hp - 1, crate::tree::child_lo(lo, m1[pid].keys, idx),
                    crate::tree::child_hi(hi, m1[pid].keys, idx), crate::tree::child_after(m1, m1[pid], after, idx, hp - 1));
                lemma_wf_unfold(m1, l, hp - 1, crate::tree::child_lo(lo, m1[pid].keys, idx - 1),
                    crate::tree::child_hi(hi, m1[pid].keys, idx - 1), crate::tree::child_after(m1, m1[pid], after, idx - 1, hp - 1));
                assert forall|t: int| 0 <= t < m2[cs[j]].children.len() implies exists|k: int, u: int|
                    0 <= k < cs.len() && 0 <= u < m1[cs[k]].children.len() && #[trigger] m2[cs[j]].children[t]
                        == m1[cs[k]].children[u] by {
                    if j == idx {
                        if t == 0 {
                            assert(m2[cs[j]].children[t] == m1[l].children[m1[l].children.len() - 1]);
                        } else {
                            assert(m2[cs[j]].children[t] == m1[c].children[t - 1]);
                        }
                    } else {
                        assert(m2[cs[j]].children[t] == m1[l].children[t]);
                    }
                }
            }
            lemma_occ_regrouped_child(m1, m2, pid, hp, lo, hi, after, cs[j], lo_j, hi_j, after_j);
        } else {
            lemma_child_excludes(m1, pid, hp, lo, hi, after, j);
            crate::reshape::lemma_under_self(m1, cs[j], hp - 1);
            assert(cs[j] != c && cs[j] != l && cs[j] != pid);
            lemma_occ_kept_child(m1, m2, pid, hp, lo, hi, after, j);
        }
    }
}

/// Moving one key from a right sibling with a key to spare into a child with
/// none to spare leaves the family occupied, the child one key fuller.
pub proof fn lemma_occ_borrow_next<K: Key>(
    m1: Map<PageId, NodeModel<K>>,
    m2: Map<PageId, NodeModel<K>>,
    pid: PageId,
    hp: int,
    lo: Option<int>,
    hi: Option<int>,
    after: Option<PageId>,
    idx: int,
    min: int,
)
    requires
        hp > 0,
        wf(m1, pid, hp, lo, hi, after),
        wf(m2, pid, hp, lo, hi, after),
        occupied(m1, pid, hp, min),
        0 <= idx && idx + 1 < m1[pid].children.len(),
        m1[m1[pid].children[idx + 1]].keys.len() > MIN_KEYS,
        m1[m1[pid].children[idx]].keys.len() <= MIN_KEYS,
        m2 == m1.insert(
            m1[pid].children[idx],
            next_child(m1[m1[pid].children[idx]], m1[m1[pid].children[idx + 1]], m1[pid].keys[idx]),
        ).insert(m1[pid].children[idx + 1], next_right(m1[m1[pid].children[idx + 1]])).insert(
            pid,
            with_key(m1[pid], idx, next_sep(m1[m1[pid].children[idx + 1]])),
        ),
    ensures
        occupied(m2, pid, hp, min),
        m2[m1[pid].children[idx]].keys.len() > MIN_KEYS,
{
    let cs = m1[pid].children;
    let (c, r) = (cs[idx], cs[idx + 1]);
    lemma_wf_unfold(m1, pid, hp, lo, hi, after);
    lemma_wf_unfold(m2, pid, hp, lo, hi, after);
    lemma_occ_unfold(m1, pid, hp, min);
    lemma_occ_unfold(m2, pid, hp, min);
    lemma_child_excludes(m1, pid, hp, lo, hi, after, idx);
    crate::reshape::lemma_under_self(m1, c, hp - 1);
    lemma_child_excludes(m1, pid, hp, lo, hi, after, idx + 1);
    crate::reshape::lemma_under_self(m1, r, hp - 1);
    assert(r != c && c != pid && r != pid);
    assert(occupied(m1, c, hp - 1, MIN_KEYS as int));
    assert(occupied(m1, r, hp - 1, MIN_KEYS as int));
    assert(m2[pid].children == cs);
    assert(cs.contains(c) && cs.contains(r));
    assert(only_family_changed(m1, m2, pid));
    assert forall|j: int| 0 <= j < cs.len() implies #[trigger] occupied(m2, cs[j], hp - 1, MIN_KEYS as int) by {
        assert(wf_child(m2, pid, j, hp, lo, hi, after));
        let lo_j = crate::tree::child_lo(lo, m2[pid].keys, j);
        let hi_j = crate::tree::child_hi(hi, m2[pid].keys, j);
        let after_j = crate::tree::child_after(m2, m2[pid], after, j, hp - 1);
        if j == idx || j == idx + 1 {
            if hp > 1 {
                assert(wf_child(m1, pid, idx, hp, lo, hi, after));
                assert(wf_child(m1, pid, idx + 1, hp, lo, hi, after));
                lemma_wf_unfold(m1, c, hp - 1, crate::tree::child_lo(lo, m1[pid].keys, idx),
                    crate::tree::child_hi(hi, m1[pid].keys, idx), crate::tree::child_after(m1, m1[pid], after, idx, hp - 1));
                lemma_wf_unfold(m1, r, hp - 1, crate::tree::child_lo(lo, m1[pid].keys, idx + 1),
                    crate::tree::child_hi(hi, m1[pid].keys, idx + 1), crate::tree::child_after(m1, m1[pid], after, idx + 1, hp - 1));
                assert forall|t: int| 0 <= t < m2[cs[j]].children.len() implies exists|k: int, u: int|
                    0 <= k < cs.len() && 0 <= u < m1[cs[k]].children.len() && #[trigger] m2[cs[j]].children[t]
                        == m1[cs[k]].children[u] by {
                    if j == idx {
                        if t < m1[c].children.len() {
                            assert(m2[cs[j]].children[t] == m1[c].children[t]);
                        } else {
                            assert(m2[cs[j]].children[t] == m1[r].children[0]);
                        }
                    } else {
                        assert(m2[cs[j]].children[t] == m1[r].children[t + 1]);
                    }
                }
            }
            lemma_occ_regrouped_child(m1, m2, pid, hp, lo, hi, after, cs[j], lo_j, hi_j, after_j);
        } else {
            lemma_child_excludes(m1, pid, hp, lo, hi, after, j);
            crate::reshape::lemma_under_self(m1, cs[j], hp - 1);
            assert(cs[j] != c && cs[j] != r && cs[j] != pid);
            lemma_occ_kept_child(m1, m2, pid, hp, lo, hi, after, j);
        }
    }
}

/// Merging a child with no key to spare into a left sibling with none to
/// spare leaves the family occupied, the parent one separator emptier and the
/// merged page with keys to spare.
pub proof fn lemma_occ_merge<K: Key>(
    m1: Map<PageId, NodeModel<K>>,
    m2: Map<PageId, NodeModel<K>>,
    pid: PageId,
    hp: int,
    lo: Option<int>,
    hi: Option<int>,
    after: Option<PageId>,
    idx: int,
    min: int,
)
    requires
        hp > 0,
        wf(m1, pid, hp, lo, hi, after),
        wf(m2, pid, hp, lo, hi, after),
        occupied(m1, pid, hp, min),
        0 <= idx && idx + 1 < m1[pid].children.len(),
        m1[m1[pid].children[idx]].keys.len() <= MIN_KEYS,
        m1[m1[pid].children[idx + 1]].keys.len() <= MIN_KEYS,
        m2 == m1.insert(
            m1[pid].children[idx],
            merged(m1[m1[pid].children[idx]], m1[m1[pid].children[idx + 1]], m1[pid].keys[idx]),
        ).insert(pid, without_child(m1[pid], idx)),
    ensures
        occupied(m2, pid, hp, min - 1),
        m2[m1[pid].children[idx]].keys.len() > MIN_KEYS,
{
    let cs = m1[pid].children;
    let cs2 = m2[pid].children;
    let (c, r) = (cs[idx], cs[idx + 1]);
    lemma_wf_unfold(m1, pid, hp, lo, hi, after);
    lemma_wf_unfold(m2, pid, hp, lo, hi, after);
    lemma_occ_unfold(m1, pid, hp, min);
    lemma_occ_unfold(m2, pid, hp, min - 1);
    lemma_child_excludes(m1, pid, hp, lo, hi, after, idx);
    crate::reshape::lemma_under_self(m1, c, hp - 1);
    assert(r != c && c != pid);
    assert(occupied(m1, c, hp - 1, MIN_KEYS as int));
    assert(occupied(m1, r, hp - 1, MIN_KEYS as int));
    assert(cs2 == cs.remove(idx + 1));
    assert(cs.contains(c));
    assert(only_family_changed(m1, m2, pid));
    assert forall|j: int| 0 <= j < cs2.len() implies #[trigger] occupied(m2, cs2[j], hp - 1, MIN_KEYS as int) by {
        assert(wf_child(m2, pid, j, hp, lo, hi, after));
        let lo_j = crate::tree::child_lo(lo, m2[pid].keys, j);
        let hi_j = crate::tree::child_hi(hi, m2[pid].keys, j);
        let after_j = crate::tree::child_after(m2, m2[pid], after, j, hp - 1);
        if j == idx {
            if hp > 1 {
                assert(wf_child(m1, pid, idx, hp, lo, hi, after));
                assert(wf_child(m1, pid, idx + 1, hp, lo, hi, after));
                lemma_wf_unfold(m1, c, hp - 1, crate::tree::child_lo(lo, m1[pid].keys, idx),
                    crate::tree::child_hi(hi, m1[pid].keys, idx), crate::tree::child_after(m1, m1[pid], after, idx, hp - 1));
                lemma_wf_unfold(m1, r, hp - 1, crate::tree::child_lo(lo, m1[pid].keys, idx + 1),
                    crate::tree::child_hi(hi, m1[pid].keys, idx + 1), crate::tree::child_after(m1, m1[pid], after, idx + 1, hp - 1));
                assert forall|t: int| 0 <= t < m2[c].children.len() implies exists|k: int, u: int|
                    0 <= k < cs.len() && 0 <= u < m1[cs[k]].children.len() && #[trigger] m2[c].children[t]
                        == m1[cs[k]].children[u] by {
                    if t < m1[c].children.len() {
                        assert(m2[c].children[t] == m1[c].children[t]);
                    } else {
                        assert(m2[c].children[t] == m1[r].children[t - m1[c].children.len()]);
                    }
                }
            }
            assert(cs2[j] == c);
            lemma_occ_regrouped_child(m1, m2, pid, hp, lo, hi, after, c, lo_j, hi_j, after_j);
        } else {
            let k = if j < idx { j } else { j + 1 };
            assert(cs2[j] == cs[k]);
            lemma_child_excludes(m1, pid, hp, lo, hi, after, k);
            crate::reshape::lemma_under_self(m1, cs[k], hp - 1);
            assert(cs[k] != c && cs[k] != pid);
            lemma_occ_kept_child(m1, m2, pid, hp, lo, hi, after, k);
        }
    }
}

/// Replacing child `i` of an occupied page by an occupied subtree, while no
/// page outside it changes, leaves the page occupied.
pub proof fn lemma_occ_replace_child<K: Key>(
    m1: Map<PageId, NodeModel<K>>,
    m2: Map<PageId, NodeModel<K>>,
    pid: PageId,
    hp: int,
    lo: Option<int>,
    hi: Option<int>,
    after: Option<PageId>,
    i: int,
    fresh: PageId,
    min: int,
)
    requires
        hp > 0,
        wf(m1, pid, hp, lo, hi, after),
        wf(m2, pid, hp, lo, hi, after),
        0 <= i < m1[pid].children.len(),
        m2[pid] == m1[pid],
        changed_only_under(m1, m2, m1[pid].children[i], hp - 1, fresh),
        occupied(m1, pid, hp, min),
        occupied(m2, m1[pid].children[i], hp - 1, MIN_KEYS as int),
    ensures
        occupied(m2, pid, hp, min),
{
    let cs = m1[pid].children;
    lemma_wf_unfold(m1, pid, hp, lo, hi, after);
    lemma_wf_unfold(m2, pid, hp, lo, hi, after);
    lemma_occ_unfold(m1, pid, hp, min);
    lemma_occ_unfold(m2, pid, hp, min);
    assert forall|k: int| 0 <= k < cs.len() implies #[trigger] occupied(m2, cs[k], hp - 1, MIN_KEYS as int) by {
        if k != i {
            assert(wf_child(m1, pid, k, hp, lo, hi, after));
            let lo_k = crate::tree::child_lo(lo, m1[pid].keys, k);
            let hi_k = crate::tree::child_hi(hi, m1[pid].keys, k);
            let after_k = crate::tree::child_after(m1, m1[pid], after, k, hp - 1);
            lemma_wf_dom(m1, cs[k], hp - 1, lo_k, hi_k, after_k);
            assert forall|p: PageId| #[trigger] under(m1, cs[k], hp - 1, p) implies m2.contains_key(p) && m2[p]
                == m1[p] by {
                if k < i {
                    assert(!(under(m1, cs[k], hp - 1, p) && under(m1, cs[i], hp - 1, p)));
                } else {
                    assert(!(under(m1, cs[i], hp - 1, p) && under(m1, cs[k], hp - 1, p)));
                }
            }
            lemma_occ_untouched(m1, m2, cs[k], hp - 1, lo_k, hi_k, after_k, MIN_KEYS as int);
        }
    }
}

} // verus!
