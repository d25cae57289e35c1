//! The leaf chain: the leaves of a well-formed tree, left to right, each
//! pointing to the next, holding between them every entry in key order.

use vstd::prelude::*;

use crate::error::PageId;
use crate::key::Key;
use crate::node::NodeModel;
use crate::seg::{lemma_seg_concat, lemma_seg_single, lemma_wf_seg, seg_wf, under_some};
use crate::tree::{
    entries, entries_list, first_leaf, leaf_entries, leaf_ok, leaves, leaves_list,
    lemma_entries_list_concat, lemma_entries_list_one, lemma_under_child, under, wf, Entry,
};

verus! {

/// The leaves `ls`, in order, each a leaf with a value per key, each
/// pointing to the next, and the last pointing to `after`.
pub open spec fn chained<K>(m: Map<PageId, NodeModel<K>>, ls: Seq<PageId>, after: Option<PageId>) -> bool {
    &&& forall|k: int|
        0 <= k < ls.len() ==> #[trigger] m.contains_key(ls[k]) && m[ls[k]].is_leaf && m[ls[k]].values.len()
            == m[ls[k]].keys.len()
    &&& forall|k: int|
        0 <= k < ls.len() ==> #[trigger] m[ls[k]].next == (if k + 1 < ls.len() {
            Some(ls[k + 1])
        } else {
            after
        })
}

/// The entries of the leaves `ls`, one leaf after another.
pub open spec fn chain_entries<K>(m: Map<PageId, NodeModel<K>>, ls: Seq<PageId>) -> Seq<Entry<K>>
    decreases ls.len(),
{
    if ls.len() == 0 {
        Seq::empty()
    } else {
        chain_entries(m, ls.drop_last()) + leaf_entries(m[ls.last()])
    }
}

/// The entries of two runs of leaves joined are the two runs of entries joined.
pub proof fn lemma_chain_entries_concat<K>(m: Map<PageId, NodeModel<K>>, a: Seq<PageId>, b: Seq<PageId>)
    ensures
        chain_entries(m, a + b) == chain_entries(m, a) + chain_entries(m, b),
    decreases b.len(),
{
    if b.len() == 0 {
        assert(a + b =~= a);
        assert(chain_entries(m, a) + chain_entries(m, b) =~= chain_entries(m, a));
    } else {
        lemma_chain_entries_concat(m, a, b.drop_last());
        assert((a + b).drop_last() =~= a + b.drop_last());
        assert((a + b).last() == b.last());
        assert(chain_entries(m, a + b) =~= chain_entries(m, a) + chain_entries(m, b));
    }
}

/// One more leaf of a run adds its entries at the end.
pub proof fn lemma_chain_entries_step<K>(m: Map<PageId, NodeModel<K>>, ls: Seq<PageId>, k: int)
    requires
        0 <= k < ls.len(),
    ensures
        chain_entries(m, ls.take(k + 1)) == chain_entries(m, ls.take(k)) + leaf_entries(m[ls[k]]),
{
    assert(ls.take(k + 1).drop_last() =~= ls.take(k));
}

/// A prefix of a run of leaves holds no more entries than the whole run.
pub proof fn lemma_chain_entries_prefix<K>(m: Map<PageId, NodeModel<K>>, ls: Seq<PageId>, k: int)
    requires
        0 <= k <= ls.len(),
    ensures
        chain_entries(m, ls.take(k)).len() <= chain_entries(m, ls).len(),
    decreases ls.len() - k,
{
    if k < ls.len() {
        lemma_chain_entries_step(m, ls, k);
        lemma_chain_entries_prefix(m, ls, k + 1);
    } else {
        assert(ls.take(k) =~= ls);
    }
}

/// A tree's entries are the entries of its leaves, left to right.
pub proof fn lemma_entries_chain<K>(m: Map<PageId, NodeModel<K>>, id: PageId, h: int)
    ensures
        entries(m, id, h) == chain_entries(m, leaves(m, id, h)),
    decreases h, 0int,
{
    if h <= 0 {
        assert(seq![id].drop_last() =~= Seq::<PageId>::empty());
        assert(chain_entries(m, Seq::<PageId>::empty()) =~= Seq::<Entry<K>>::empty());
        assert(seq![id].last() == id);
        assert(chain_entries(m, seq![id]) =~= leaf_entries(m[id]));
    } else {
        lemma_entries_chain_list(m, m[id].children, h - 1);
    }
}

proof fn lemma_entries_chain_list<K>(m: Map<PageId, NodeModel<K>>, cs: Seq<PageId>, h: int)
    ensures
        entries_list(m, cs, h) == chain_entries(m, leaves_list(m, cs, h)),
    decreases h, cs.len() + 1,
{
    if cs.len() > 0 {
        lemma_entries_chain_list(m, cs.drop_last(), h);
        lemma_entries_chain(m, cs.last(), h);
        lemma_chain_entries_concat(m, leaves_list(m, cs.drop_last(), h), leaves(m, cs.last(), h));
    }
}

/// Every leaf of a tree is a page under it.
pub proof fn lemma_leaves_under<K>(m: Map<PageId, NodeModel<K>>, id: PageId, h: int)
    ensures
        forall|k: int| 0 <= k < leaves(m, id, h).len() ==> #[trigger] under(m, id, h, leaves(m, id, h)[k]),
    decreases h, 0int,
{
    if h > 0 {
        lemma_leaves_under_list(m, m[id].children, h - 1);
        let ls = leaves(m, id, h);
        assert(ls == leaves_list(m, m[id].children, h - 1));
        assert forall|k: int| 0 <= k < ls.len() implies #[trigger] under(m, id, h, ls[k]) by {
            assert(under_some(m, m[id].children, h - 1, ls[k]));
            let j = choose|j: int| 0 <= j < m[id].children.len() && #[trigger] under(m, m[id].children[j], h - 1, ls[k]);
            lemma_under_child(m, id, h, j, ls[k]);
        }
    } else {
        assert(leaves(m, id, h) =~= seq![id]);
    }
}

proof fn lemma_leaves_under_list<K>(m: Map<PageId, NodeModel<K>>, cs: Seq<PageId>, h: int)
    ensures
        forall|k: int|
            0 <= k < leaves_list(m, cs, h).len() ==> #[trigger] under_some(m, cs, h, leaves_list(m, cs, h)[k]),
    decreases h, cs.len() + 1,
{
    if cs.len() > 0 {
        let init = cs.drop_last();
        lemma_leaves_under_list(m, init, h);
        lemma_leaves_under(m, cs.last(), h);
        let a = leaves_list(m, init, h);
        let b = leaves(m, cs.last(), h);
        assert(leaves_list(m, cs, h) == a + b);
        assert forall|k: int| 0 <= k < (a + b).len() implies #[trigger] under_some(m, cs, h, (a + b)[k]) by {
            if k < a.len() {
                assert((a + b)[k] == a[k]);
                assert(under_some(m, init, h, a[k]));
                let j = choose|j: int| 0 <= j < init.len() && #[trigger] under(m, init[j], h, a[k]);
                assert(init[j] == cs[j]);
                assert(under(m, cs[j], h, a[k]));
            } else {
                assert((a + b)[k] == b[k - a.len()]);
                assert(under(m, cs[cs.len() - 1], h, b[k - a.len()]));
            }
        }
    }
}

/// The leaves of a well-formed run are chained, distinct, and start at the
/// run's first leaf.
pub proof fn lemma_chain_seg<K: Key>(
    m: Map<PageId, NodeModel<K>>,
    cs: Seq<PageId>,
    ks: Seq<K>,
    h: int,
    lo: Option<int>,
    hi: Option<int>,
    after: Option<PageId>,
)
    requires
        seg_wf(m, cs, ks, h, lo, hi, after),
    ensures
        chained(m, leaves_list(m, cs, h), after),
        leaves_list(m, cs, h).no_duplicates(),
        leaves_list(m, cs, h).len() > 0,
        leaves_list(m, cs, h)[0] == first_leaf(m, cs[0], h),
    decreases h, cs.len() + 1,
{
    let n = cs.len();
    if n == 1 {
        assert(cs =~= seq![cs[0]]);
        assert(ks =~= Seq::<K>::empty());
        lemma_seg_single(m, cs[0], h, lo, hi, after);
        crate::tree::lemma_entries_list_one(m, cs[0], h);
        lemma_chain_wf(m, cs[0], h, lo, hi, after);
    } else {
        let init = cs.drop_last();
        let kinit = ks.drop_last();
        let k = ks.last();
        let c = cs.last();
        assert(cs =~= init + seq![c]);
        assert(ks =~= kinit + seq![k] + Seq::<K>::empty());
        lemma_seg_concat(m, init, kinit, k, seq![c], Seq::<K>::empty(), h, lo, hi, after);
        assert(seq![c][0] == c);
        lemma_chain_seg(m, init, kinit, h, lo, Some(k.rank()), Some(first_leaf(m, c, h)));
        lemma_seg_single(m, c, h, Some(k.rank()), hi, after);
        lemma_chain_wf(m, c, h, Some(k.rank()), hi, after);
        let a = leaves_list(m, init, h);
        let b = leaves(m, c, h);
        assert(leaves_list(m, cs, h) == a + b);
        assert forall|t: int| 0 <= t < (a + b).len() implies #[trigger] m.contains_key((a + b)[t]) && m[(a
            + b)[t]].is_leaf && m[(a + b)[t]].values.len() == m[(a + b)[t]].keys.len() by {
            if t < a.len() {
                assert((a + b)[t] == a[t]);
            } else {
                assert((a + b)[t] == b[t - a.len()]);
            }
        }
        assert forall|t: int| 0 <= t < (a + b).len() implies #[trigger] m[(a + b)[t]].next == (if t + 1 < (a
            + b).len() {
            Some((a + b)[t + 1])
        } else {
            after
        }) by {
            if t < a.len() {
                assert((a + b)[t] == a[t]);
                if t + 1 < a.len() {
                    assert((a + b)[t + 1] == a[t + 1]);
                } else {
                    assert((a + b)[t + 1] == b[0]);
                }
            } else {
                assert((a + b)[t] == b[t - a.len()]);
                if t + 1 < (a + b).len() {
                    assert((a + b)[t + 1] == b[t + 1 - a.len()]);
                }
            }
        }
        lemma_leaves_under_list(m, init, h);
        lemma_leaves_under(m, c, h);
        assert forall|u: int, v: int| 0 <= u < a.len() && 0 <= v < b.len() implies a[u] != b[v] by {
            assert(under_some(m, init, h, a[u]));
            let j = choose|j: int| 0 <= j < init.len() && #[trigger] under(m, init[j], h, a[u]);
            assert(init[j] == cs[j]);
            assert(!(under(m, cs[j], h, a[u]) && under(m, cs[n - 1], h, a[u])));
        }
        vstd::seq_lib::lemma_no_dup_in_concat(a, b);
        assert((a + b)[0] == a[0]);
        assert(init[0] == cs[0]);
    }
}

/// The leaves of a well-formed tree are chained, distinct, and start at its
/// first leaf.
pub proof fn lemma_chain_wf<K: Key>(
    m: Map<PageId, NodeModel<K>>,
    id: PageId,
    h: int,
    lo: Option<int>,
    hi: Option<int>,
    after: Option<PageId>,
)
    requires
        wf(m, id, h, lo, hi, after),
    ensures
        chained(m, leaves(m, id, h), after),
        leaves(m, id, h).no_duplicates(),
        leaves(m, id, h).len() > 0,
        leaves(m, id, h)[0] == first_leaf(m, id, h),
    decreases h, 1int,
{
    if h <= 0 {
        assert(leaf_ok(m, id, lo, hi, after));
        assert(leaves(m, id, h) =~= seq![id]);
    } else {
        lemma_wf_seg(m, id, h, lo, hi, after);
        lemma_chain_seg(m, m[id].children, m[id].keys, h - 1, lo, hi, after);
    }
}

/// A run of distinct page ids all below `n` has at most `n` of them.
pub proof fn lemma_distinct_bound(ls: Seq<PageId>, n: PageId)
    requires
        ls.no_duplicates(),
        forall|k: int| 0 <= k < ls.len() ==> #[trigger] ls[k] < n,
    ensures
        ls.len() <= n,
    decreases n,
{
    if n > 0 {
        let top = (n - 1) as PageId;
        if exists|p: int| 0 <= p < ls.len() && ls[p] == top {
            let p = choose|p: int| 0 <= p < ls.len() && ls[p] == top;
            let rest = ls.remove(p);
            assert forall|k: int| 0 <= k < rest.len() implies #[trigger] rest[k] < top by {
                if k < p {
                    assert(rest[k] == ls[k]);
                } else {
                    assert(rest[k] == ls[k + 1]);
                }
            }
            assert(rest.no_duplicates()) by {
                assert forall|a: int, b: int| 0 <= a < rest.len() && 0 <= b < rest.len() && a != b implies rest[a]
                    != rest[b] by {
                    let a1 = if a < p { a } else { a + 1 };
                    let b1 = if b < p { b } else { b + 1 };
                    assert(rest[a] == ls[a1] && rest[b] == ls[b1]);
                }
            }
            lemma_distinct_bound(rest, top);
        } else {
            assert forall|k: int| 0 <= k < ls.len() implies #[trigger] ls[k] < top by {
                assert(ls[k] != top);
            }
            lemma_distinct_bound(ls, top);
        }
    } else {
        if ls.len() > 0 {
            assert(ls[0] < n);
        }
    }
}

/// What a chain says of its `k`-th leaf.
pub proof fn lemma_chain_at<K>(m: Map<PageId, NodeModel<K>>, ls: Seq<PageId>, after: Option<PageId>, k: int)
    requires
        chained(m, ls, after),
        0 <= k < ls.len(),
    ensures
        m.contains_key(ls[k]),
        m[ls[k]].is_leaf,
        m[ls[k]].values.len() == m[ls[k]].keys.len(),
        m[ls[k]].next == (if k + 1 < ls.len() {
            Some(ls[k + 1])
        } else {
            after
        }),
{
}

} // verus!
