//! The in-memory B-tree the store began as, before pages: every node holds
//! keys together with their values, so a key lives in exactly one node,
//! leaf or internal, and an internal node's children sit between its keys.
//!
//! Inserting splits full nodes on the way down, so a node never overflows;
//! a `put` of a key that is already present replaces its value. Deleting
//! takes a key out wherever it lives: a key in an internal node gives way to
//! the greatest key below it, or goes together with its subtree when that
//! subtree holds nothing.

use vstd::prelude::*;

use crate::entries::{all_above, all_below, lemma_put_at, lemma_put_concat, lemma_put_new, lemma_remove_at};
use crate::key::Key;
use crate::tree::{lemma_seq_get_absent, lemma_seq_get_concat, ordered, seq_get, seq_remove, seq_set, sorted_strict, Entry};
use std::marker::PhantomData;

use crate::btree::{pairs_view, Initialized, Locked, Uninitialized, Unlocked};
use crate::value::{Value, ValueModel};

verus! {

/// The minimum degree of the tree.
pub const MIN_DEGREE: usize = 4;

/// The most keys a node holds; a node with this many is full.
pub const MAX_KEYS: usize = 7;

/// One node: its keys in order, the value of each key, and, in an internal
/// node, one more child than keys.
pub struct Node<K> {
    /// This node's keys, sorted.
    pub keys: Vec<K>,
    /// The value of each key.
    pub values: Vec<Value>,
    /// The subtrees: empty in a leaf, one more than the keys otherwise,
    /// child `i` holding the keys between `keys[i - 1]` and `keys[i]`.
    pub children: Vec<Node<K>>,
    /// Whether this node is a leaf.
    pub is_leaf: bool,
}

/// A node's own entries, key by key.
pub open spec fn own<K>(n: Node<K>) -> Seq<Entry<K>> {
    Seq::new(n.keys@.len(), |i: int| (n.keys@[i], n.values@[i]@))
}

/// Subtree walks interleaved with the entries between them:
/// `ws[0] + [es[0]] + ws[1] + ... + [es[m - 1]] + ws[m]`.
pub open spec fn weave<K>(ws: Seq<Seq<Entry<K>>>, es: Seq<Entry<K>>) -> Seq<Entry<K>>
    decreases es.len(),
{
    if ws.len() == 0 {
        Seq::empty()
    } else if es.len() == 0 {
        ws[0]
    } else {
        weave(ws.drop_last(), es.drop_last()) + seq![es.last()] + ws.last()
    }
}

/// Every entry below `n`, in key order.
pub open spec fn walk<K>(n: Node<K>) -> Seq<Entry<K>>
    decreases n,
{
    if n.is_leaf {
        own(n)
    } else {
        weave(walks(n.children@), own(n))
    }
}

/// The walks of a sequence of subtrees.
pub open spec fn walks<K>(cs: Seq<Node<K>>) -> Seq<Seq<Entry<K>>>
    decreases cs,
{
    if cs.len() == 0 {
        Seq::empty()
    } else {
        walks(cs.drop_last()).push(walk(cs.last()))
    }
}

/// Is `r` strictly between the bounds that are there?
pub open spec fn between(lo: Option<int>, hi: Option<int>, r: int) -> bool {
    (lo is None || lo->0 < r) && (hi is None || r < hi->0)
}

/// The lower bound on the keys under child `i`.
pub open spec fn kid_lo<K: Key>(keys: Seq<K>, lo: Option<int>, i: int) -> Option<int> {
    if i == 0 {
        lo
    } else {
        Some(keys[i - 1].rank())
    }
}

/// The upper bound on the keys under child `i`.
pub open spec fn kid_hi<K: Key>(keys: Seq<K>, hi: Option<int>, i: int) -> Option<int> {
    if i < keys.len() {
        Some(keys[i].rank())
    } else {
        hi
    }
}

/// `n` is a B-tree of height `h` whose keys lie strictly between `lo` and
/// `hi`: keys sorted, a value per key, at most `MAX_KEYS` keys, leaves
/// exactly at height 0, and each child between the keys around it.
pub open spec fn wf_node<K: Key>(n: Node<K>, h: nat, lo: Option<int>, hi: Option<int>) -> bool
    decreases n,
{
    &&& n.values@.len() == n.keys@.len()
    &&& n.keys@.len() <= MAX_KEYS
    &&& sorted_strict(n.keys@)
    &&& forall|i: int| 0 <= i < n.keys@.len() ==> between(lo, hi, #[trigger] n.keys@[i].rank())
    &&& n.is_leaf == (h == 0)
    &&& if h == 0 {
        n.children@.len() == 0
    } else {
        &&& n.children@.len() == n.keys@.len() + 1
        &&& wf_kids(n.children@, n.keys@, (h - 1) as nat, lo, hi)
    }
}

/// Every child is a B-tree of height `h` between the keys around it.
pub open spec fn wf_kids<K: Key>(cs: Seq<Node<K>>, keys: Seq<K>, h: nat, lo: Option<int>, hi: Option<int>) -> bool
    decreases cs,
{
    cs.len() == 0 || (wf_kids(cs.drop_last(), keys, h, lo, hi) && wf_node(
        cs.last(),
        h,
        kid_lo(keys, lo, cs.len() - 1),
        kid_hi(keys, hi, cs.len() - 1),
    ))
}

pub proof fn lemma_walks<K>(cs: Seq<Node<K>>)
    ensures
        walks(cs).len() == cs.len(),
        forall|i: int| 0 <= i < cs.len() ==> #[trigger] walks(cs)[i] == walk(cs[i]),
    decreases cs.len(),
{
    if cs.len() > 0 {
        lemma_walks(cs.drop_last());
        assert(walks(cs) == walks(cs.drop_last()).push(walk(cs.last())));
        assert forall|i: int| 0 <= i < cs.len() implies #[trigger] walks(cs)[i] == walk(cs[i]) by {
            if i < cs.len() - 1 {
                assert(cs.drop_last()[i] == cs[i]);
            }
        }
    }
}

pub proof fn lemma_wf_kids<K: Key>(cs: Seq<Node<K>>, keys: Seq<K>, h: nat, lo: Option<int>, hi: Option<int>)
    ensures
        wf_kids(cs, keys, h, lo, hi) <==> forall|i: int|
            0 <= i < cs.len() ==> #[trigger] wf_node(cs[i], h, kid_lo(keys, lo, i), kid_hi(keys, hi, i)),
    decreases cs.len(),
{
    if cs.len() > 0 {
        lemma_wf_kids(cs.drop_last(), keys, h, lo, hi);
        if forall|i: int| 0 <= i < cs.len() ==> #[trigger] wf_node(cs[i], h, kid_lo(keys, lo, i), kid_hi(keys, hi, i)) {
            assert forall|i: int| 0 <= i < cs.drop_last().len() implies #[trigger] wf_node(
                cs.drop_last()[i],
                h,
                kid_lo(keys, lo, i),
                kid_hi(keys, hi, i),
            ) by {
                assert(cs.drop_last()[i] == cs[i]);
            }
            assert(wf_node(cs[cs.len() - 1], h, kid_lo(keys, lo, cs.len() - 1), kid_hi(keys, hi, cs.len() - 1)));
        }
        if wf_kids(cs, keys, h, lo, hi) {
            assert forall|i: int| 0 <= i < cs.len() implies #[trigger] wf_node(cs[i], h, kid_lo(keys, lo, i), kid_hi(keys, hi, i)) by {
                if i < cs.len() - 1 {
                    assert(cs.drop_last()[i] == cs[i]);
                }
            }
        }
    }
}

/// Weaving splits at any separator: the walks and entries before it, the
/// separator, and the walks and entries after it.
pub proof fn lemma_weave_split<K>(ws: Seq<Seq<Entry<K>>>, es: Seq<Entry<K>>, j: int)
    requires
        ws.len() == es.len() + 1,
        0 <= j < es.len(),
    ensures
        weave(ws, es) == weave(ws.take(j + 1), es.take(j)) + seq![es[j]] + weave(ws.skip(j + 1), es.skip(j + 1)),
    decreases es.len(),
{
    let n = es.len() as int;
    if j == n - 1 {
        assert(ws.take(j + 1) == ws.drop_last());
        assert(es.take(j) == es.drop_last());
        assert(ws.skip(j + 1) =~= seq![ws.last()]);
        assert(es.skip(j + 1) =~= Seq::<Entry<K>>::empty());
        assert(weave(ws.skip(j + 1), es.skip(j + 1)) == ws.last());
    } else {
        lemma_weave_split(ws.drop_last(), es.drop_last(), j);
        assert(ws.drop_last().take(j + 1) == ws.take(j + 1));
        assert(es.drop_last().take(j) == es.take(j));
        let ws2 = ws.skip(j + 1);
        let es2 = es.skip(j + 1);
        assert(ws2.drop_last() == ws.drop_last().skip(j + 1));
        assert(es2.drop_last() == es.drop_last().skip(j + 1));
        assert(es2.last() == es.last());
        assert(ws2.last() == ws.last());
        assert(es2.len() > 0);
        assert(weave(ws2, es2) == weave(ws2.drop_last(), es2.drop_last()) + seq![es2.last()] + ws2.last());
    }
}

/// Weaving puts every walk between the separators around it.
pub proof fn lemma_weave_at<K>(ws: Seq<Seq<Entry<K>>>, es: Seq<Entry<K>>, i: int)
    requires
        ws.len() == es.len() + 1,
        0 <= i < ws.len(),
    ensures
        weave(ws, es) == (if i == 0 {
            Seq::empty()
        } else {
            weave(ws.take(i), es.take(i - 1)) + seq![es[i - 1]]
        }) + ws[i] + (if i == es.len() {
            Seq::empty()
        } else {
            seq![es[i]] + weave(ws.skip(i + 1), es.skip(i + 1))
        }),
{
    let n = es.len() as int;
    if i > 0 {
        lemma_weave_split(ws, es, i - 1);
        assert(ws.take(i).len() == i);
        let ws2 = ws.skip(i);
        let es2 = es.skip(i);
        if i < n {
            lemma_weave_split(ws2, es2, 0);
            assert(ws2.take(1) =~= seq![ws[i]]);
            assert(es2.take(0) =~= Seq::<Entry<K>>::empty());
            assert(weave(ws2.take(1), es2.take(0)) == ws[i]);
            assert(es2[0] == es[i]);
            assert(ws2.skip(1) == ws.skip(i + 1));
            assert(es2.skip(1) == es.skip(i + 1));
            assert(weave(ws.take(i), es.take(i - 1)) + seq![es[i - 1]] + (ws[i] + seq![es[i]] + weave(
                ws.skip(i + 1),
                es.skip(i + 1),
            )) =~= weave(ws.take(i), es.take(i - 1)) + seq![es[i - 1]] + ws[i] + (seq![es[i]] + weave(
                ws.skip(i + 1),
                es.skip(i + 1),
            )));
        } else {
            assert(ws2 =~= seq![ws[i]]);
            assert(es2 =~= Seq::<Entry<K>>::empty());
            assert(weave(ws2, es2) == ws[i]);
            assert(weave(ws.take(i), es.take(i - 1)) + seq![es[i - 1]] + ws[i] + Seq::<Entry<K>>::empty()
                =~= weave(ws.take(i), es.take(i - 1)) + seq![es[i - 1]] + ws[i]);
        }
    } else {
        if n == 0 {
            assert(weave(ws, es) == ws[0]);
            assert(Seq::<Entry<K>>::empty() + ws[0] + Seq::<Entry<K>>::empty() =~= ws[0]);
        } else {
            lemma_weave_split(ws, es, 0);
            assert(ws.take(1) =~= seq![ws[0]]);
            assert(es.take(0) =~= Seq::<Entry<K>>::empty());
            assert(weave(ws.take(1), es.take(0)) == ws[0]);
            assert(Seq::<Entry<K>>::empty() + ws[0] + (seq![es[0]] + weave(ws.skip(1), es.skip(1))) =~= ws[0]
                + seq![es[0]] + weave(ws.skip(1), es.skip(1)));
        }
    }
}


/// Every entry's key lies strictly between the bounds.
pub open spec fn all_between<K: Key>(s: Seq<Entry<K>>, lo: Option<int>, hi: Option<int>) -> bool {
    forall|i: int| 0 <= i < s.len() ==> between(lo, hi, #[trigger] s[i].0.rank())
}

/// The lower bound on the walk before separator `i`.
pub open spec fn sep_lo<K: Key>(es: Seq<Entry<K>>, lo: Option<int>, i: int) -> Option<int> {
    if i == 0 {
        lo
    } else {
        Some(es[i - 1].0.rank())
    }
}

/// The upper bound on the walk before separator `i`.
pub open spec fn sep_hi<K: Key>(es: Seq<Entry<K>>, hi: Option<int>, i: int) -> Option<int> {
    if i < es.len() {
        Some(es[i].0.rank())
    } else {
        hi
    }
}

/// Joining an ordered run, an entry above it, and an ordered run above
/// that gives an ordered run.
proof fn lemma_ordered_join<K: Key>(a: Seq<Entry<K>>, e: Entry<K>, b: Seq<Entry<K>>)
    requires
        ordered(a),
        ordered(b),
        all_below(a, e.0.rank()),
        all_above(b, e.0.rank()),
    ensures
        ordered(a + seq![e] + b),
{
    let s = a + seq![e] + b;
    assert forall|i: int, j: int| 0 <= i < j < s.len() implies #[trigger] s[i].0.rank() < #[trigger] s[j].0.rank() by {
        let n = a.len() as int;
        if j < n {
            assert(s[i] == a[i] && s[j] == a[j]);
        } else if j == n {
            assert(s[j] == e && s[i] == a[i]);
        } else if i < n {
            assert(s[i] == a[i] && s[j] == b[j - n - 1]);
        } else if i == n {
            assert(s[i] == e && s[j] == b[j - n - 1]);
        } else {
            assert(s[i] == b[i - n - 1] && s[j] == b[j - n - 1]);
        }
    }
}

/// A weave of ordered walks, each between the separators around it, is
/// ordered and lies between the outer bounds.
pub proof fn lemma_weave_ordered<K: Key>(
    ws: Seq<Seq<Entry<K>>>,
    es: Seq<Entry<K>>,
    lo: Option<int>,
    hi: Option<int>,
)
    requires
        ws.len() == es.len() + 1,
        forall|i: int, j: int| 0 <= i < j < es.len() ==> #[trigger] es[i].0.rank() < #[trigger] es[j].0.rank(),
        all_between(es, lo, hi),
        forall|i: int| 0 <= i < ws.len() ==> #[trigger] ordered(ws[i]),
        forall|i: int|
            0 <= i < ws.len() ==> #[trigger] all_between(
                ws[i],
                sep_lo(es, lo, i),
                sep_hi(es, hi, i),
            ),
    ensures
        ordered(weave(ws, es)),
        all_between(weave(ws, es), lo, hi),
    decreases es.len(),
{
    let m = es.len() as int;
    if m == 0 {
        assert(weave(ws, es) == ws[0]);
        assert(ordered(ws[0]));
        assert(all_between(ws[0], sep_lo(es, lo, 0), sep_hi(es, hi, 0)));
    } else {
        let ws1 = ws.drop_last();
        let es1 = es.drop_last();
        let e = es.last();
        let hi1 = Some(e.0.rank());
        assert forall|i: int| 0 <= i < es1.len() implies between(lo, hi1, #[trigger] es1[i].0.rank()) by {
            assert(es1[i] == es[i]);
            assert(es[i].0.rank() < es[m - 1].0.rank());
            assert(between(lo, hi, es[i].0.rank()));
        }
        assert forall|i: int| 0 <= i < ws1.len() implies #[trigger] ordered(ws1[i]) by {
            assert(ws1[i] == ws[i]);
        }
        assert forall|i: int|
            0 <= i < ws1.len() implies #[trigger] all_between(
                ws1[i],
                sep_lo(es1, lo, i),
                sep_hi(es1, hi1, i),
            ) by {
            assert(ws1[i] == ws[i]);
            assert(all_between(
                ws[i],
                sep_lo(es, lo, i),
                sep_hi(es, hi, i),
            ));
            if i > 0 {
                assert(es1[i - 1] == es[i - 1]);
            }
            if i < es1.len() {
                assert(es1[i] == es[i]);
            }
        }
        lemma_weave_ordered(ws1, es1, lo, hi1);
        let a = weave(ws1, es1);
        let b = ws.last();
        assert(ordered(ws[m]));
        assert(all_between(ws[m], sep_lo(es, lo, m), sep_hi(es, hi, m)));
        assert(all_between(b, Some(e.0.rank()), hi));
        assert(all_below(a, e.0.rank()));
        assert(all_above(b, e.0.rank()));
        lemma_ordered_join(a, e, b);
        assert(weave(ws, es) == a + seq![e] + b);
        let s = a + seq![e] + b;
        assert(between(lo, hi, e.0.rank()));
        assert forall|i: int| 0 <= i < s.len() implies between(lo, hi, #[trigger] s[i].0.rank()) by {
            let n = a.len() as int;
            if i < n {
                assert(s[i] == a[i]);
                assert(between(lo, hi1, a[i].0.rank()));
            } else if i == n {
                assert(s[i] == e);
            } else {
                assert(s[i] == b[i - n - 1]);
                assert(between(Some(e.0.rank()), hi, b[i - n - 1].0.rank()));
            }
        }
    }
}

/// A node's own entries are its keys in order, each with its value.
proof fn lemma_own<K: Key>(n: Node<K>, h: nat, lo: Option<int>, hi: Option<int>)
    requires
        wf_node(n, h, lo, hi),
    ensures
        own(n).len() == n.keys@.len(),
        ordered(own(n)),
        all_between(own(n), lo, hi),
        forall|i: int, j: int| 0 <= i < j < own(n).len() ==> #[trigger] own(n)[i].0.rank() < #[trigger] own(n)[j].0.rank(),
{
}

/// The walk of a B-tree is in key order, between the tree's bounds.
pub proof fn lemma_walk_wf<K: Key>(n: Node<K>, h: nat, lo: Option<int>, hi: Option<int>)
    requires
        wf_node(n, h, lo, hi),
    ensures
        ordered(walk(n)),
        all_between(walk(n), lo, hi),
    decreases h,
{
    lemma_own(n, h, lo, hi);
    if h > 0 {
        let cs = n.children@;
        let ks = n.keys@;
        let ws = walks(cs);
        let es = own(n);
        lemma_walks(cs);
        lemma_wf_kids(cs, ks, (h - 1) as nat, lo, hi);
        assert forall|i: int| 0 <= i < ws.len() implies #[trigger] ordered(ws[i]) by {
            assert(wf_node(cs[i], (h - 1) as nat, kid_lo(ks, lo, i), kid_hi(ks, hi, i)));
            lemma_walk_wf(cs[i], (h - 1) as nat, kid_lo(ks, lo, i), kid_hi(ks, hi, i));
        }
        assert forall|i: int| 0 <= i < ws.len() implies #[trigger] all_between(
            ws[i],
            sep_lo(es, lo, i),
            sep_hi(es, hi, i),
        ) by {
            assert(wf_node(cs[i], (h - 1) as nat, kid_lo(ks, lo, i), kid_hi(ks, hi, i)));
            lemma_walk_wf(cs[i], (h - 1) as nat, kid_lo(ks, lo, i), kid_hi(ks, hi, i));
        }
        lemma_weave_ordered(ws, es, lo, hi);
    }
}


/// The walk before child `i`: the children before it and the keys between.
pub open spec fn pre_of<K>(n: Node<K>, i: int) -> Seq<Entry<K>> {
    if i == 0 {
        Seq::empty()
    } else {
        weave(walks(n.children@).take(i), own(n).take(i - 1)) + seq![own(n)[i - 1]]
    }
}

/// The walk after child `i`: the keys and children after it.
pub open spec fn post_of<K>(n: Node<K>, i: int) -> Seq<Entry<K>> {
    if i == n.keys@.len() {
        Seq::empty()
    } else {
        seq![own(n)[i]] + weave(walks(n.children@).skip(i + 1), own(n).skip(i + 1))
    }
}

/// A key strictly between the keys around child `i` is found in that
/// child, if anywhere: the walk is what comes before the child, the
/// child's walk, and what comes after, all below and above the key.
pub proof fn lemma_walk_child<K: Key>(n: Node<K>, h: nat, lo: Option<int>, hi: Option<int>, i: int, r: int)
    requires
        wf_node(n, h, lo, hi),
        h > 0,
        0 <= i <= n.keys@.len(),
        i == 0 || n.keys@[i - 1].rank() < r,
        i == n.keys@.len() || r < n.keys@[i].rank(),
    ensures
        walk(n) == pre_of(n, i) + walk(n.children@[i]) + post_of(n, i),
        all_below(pre_of(n, i), r),
        all_above(post_of(n, i), r),
        seq_get(walk(n), r) == seq_get(walk(n.children@[i]), r),
{
    let ws = walks(n.children@);
    let es = own(n);
    lemma_walks(n.children@);
    lemma_weave_at(ws, es, i);
    lemma_walk_wf(n, h, lo, hi);
    let w = walk(n);
    let p = pre_of(n, i);
    let c = walk(n.children@[i]);
    let q = post_of(n, i);
    assert(w == p + c + q);
    assert forall|t: int| 0 <= t < p.len() implies #[trigger] p[t].0.rank() < r by {
        let last = p.len() - 1;
        assert(p[last] == es[i - 1]);
        assert(w[t] == p[t] && w[last] == p[last]);
        if t < last {
            assert(w[t].0.rank() < w[last].0.rank());
        }
    }
    assert forall|t: int| 0 <= t < q.len() implies #[trigger] q[t].0.rank() > r by {
        let base = (p.len() + c.len()) as int;
        assert(q[0] == es[i]);
        assert(w[base + t] == q[t] && w[base] == q[0]);
        if t > 0 {
            assert(w[base].0.rank() < w[base + t].0.rank());
        }
    }
    lemma_seq_get_concat(p + c, q, r);
    lemma_seq_get_concat(p, c, r);
    lemma_seq_get_absent(p, r);
    lemma_seq_get_absent(q, r);
}

/// Around a node's key `j`: the walk is what comes before it, the key's
/// entry, and what comes after, all below and above the key.
pub proof fn lemma_walk_key<K: Key>(n: Node<K>, h: nat, lo: Option<int>, hi: Option<int>, j: int)
    requires
        wf_node(n, h, lo, hi),
        0 <= j < n.keys@.len(),
    ensures
        ({
            let (p, q) = split_at_key(n, j);
            &&& walk(n) == p + seq![own(n)[j]] + q
            &&& all_below(p, n.keys@[j].rank())
            &&& all_above(q, n.keys@[j].rank())
        }),
        seq_get(walk(n), n.keys@[j].rank()) == Some(n.values@[j]@),
{
    let es = own(n);
    let r = n.keys@[j].rank();
    lemma_walk_wf(n, h, lo, hi);
    let w = walk(n);
    let (p, q) = split_at_key(n, j);
    if h == 0 {
        assert(w == es);
        assert(p =~= es.take(j));
        assert(q =~= es.skip(j + 1));
        assert(w =~= p + seq![es[j]] + q);
    } else {
        lemma_walks(n.children@);
        lemma_weave_split(walks(n.children@), es, j);
    }
    assert(w == p + seq![es[j]] + q);
    let k = p.len() as int;
    assert(w[k] == es[j]);
    assert(es[j].0 == n.keys@[j]);
    assert forall|t: int| 0 <= t < p.len() implies #[trigger] p[t].0.rank() < r by {
        assert(w[t] == p[t]);
        assert(w[t].0.rank() < w[k].0.rank());
    }
    assert forall|t: int| 0 <= t < q.len() implies #[trigger] q[t].0.rank() > r by {
        assert(w[k + 1 + t] == q[t]);
        assert(w[k].0.rank() < w[k + 1 + t].0.rank());
    }
    lemma_seq_get_concat(p + seq![es[j]], q, r);
    lemma_seq_get_concat(p, seq![es[j]], r);
    lemma_seq_get_absent(p, r);
}

/// The walk before and after a node's key `j`.
pub open spec fn split_at_key<K>(n: Node<K>, j: int) -> (Seq<Entry<K>>, Seq<Entry<K>>) {
    if n.is_leaf {
        (own(n).take(j), own(n).skip(j + 1))
    } else {
        (
            weave(walks(n.children@).take(j + 1), own(n).take(j)),
            weave(walks(n.children@).skip(j + 1), own(n).skip(j + 1)),
        )
    }
}

/// Looks `key` up below `node`: its value if it is there.
fn search_node<K: Key>(node: &Node<K>, key: &K, Ghost(h): Ghost<nat>, Ghost(lo): Ghost<Option<int>>, Ghost(hi): Ghost<Option<int>>) -> (r: Option<Value>)
    requires
        wf_node(*node, h, lo, hi),
    ensures
        match r {
            Some(v) => seq_get(walk(*node), key.rank()) == Some(v@),
            None => seq_get(walk(*node), key.rank()) is None,
        },
    decreases h,
{
    let mut i: usize = 0;
    while i < node.keys.len() && node.keys[i].less_than(key)
        invariant
            i <= node.keys@.len(),
            forall|j: int| 0 <= j < i ==> #[trigger] node.keys@[j].rank() < key.rank(),
        decreases node.keys@.len() - i,
    {
        i += 1;
    }
    if i < node.keys.len() && node.keys[i].same_as(key) {
        proof {
            lemma_walk_key(*node, h, lo, hi, i as int);
        }
        return Some(node.values[i].deep_clone());
    }
    proof {
        if i < node.keys@.len() {
            assert(key.rank() < node.keys@[i as int].rank());
        }
    }
    if node.is_leaf {
        proof {
            lemma_own(*node, h, lo, hi);
            let es = own(*node);
            assert forall|t: int| 0 <= t < es.len() implies #[trigger] es[t].0.rank() != key.rank() by {
                if t > i {
                    assert(node.keys@[i as int].rank() < node.keys@[t].rank());
                }
            }
            lemma_seq_get_absent(es, key.rank());
        }
        return None;
    }
    proof {
        lemma_walk_child(*node, h, lo, hi, i as int, key.rank());
        lemma_wf_kids(node.children@, node.keys@, (h - 1) as nat, lo, hi);
    }
    search_node(
        &node.children[i],
        key,
        Ghost((h - 1) as nat),
        Ghost(kid_lo(node.keys@, lo, i as int)),
        Ghost(kid_hi(node.keys@, hi, i as int)),
    )
}


/// Passing child `j` and then key `j` extends the walk before child `j`.
proof fn lemma_pre_step<K>(n: Node<K>, j: int)
    requires
        n.children@.len() == n.keys@.len() + 1,
        0 <= j < n.keys@.len(),
    ensures
        pre_of(n, j + 1) == pre_of(n, j) + walk(n.children@[j]) + seq![own(n)[j]],
{
    let ws = walks(n.children@);
    let es = own(n);
    lemma_walks(n.children@);
    let a = ws.take(j + 1);
    let b = es.take(j);
    if j == 0 {
        assert(weave(a, b) == a[0]);
        assert(pre_of(n, 0) + walk(n.children@[0]) =~= walk(n.children@[0]));
    } else {
        assert(a.drop_last() == ws.take(j));
        assert(b.drop_last() == es.take(j - 1));
        assert(weave(a, b) == weave(a.drop_last(), b.drop_last()) + seq![b.last()] + a.last());
    }
}

/// Appending one pair to a list of pairs appends its entry.
proof fn lemma_pairs_push<K>(v: Seq<(K, Value)>, x: (K, Value))
    ensures
        pairs_view(v.push(x)) == pairs_view(v).push((x.0, x.1@)),
{
    assert(pairs_view(v.push(x)) =~= pairs_view(v).push((x.0, x.1@)));
}

/// Appends every entry below `node` to `out`, in key order.
fn range_node<K: Key>(
    node: &Node<K>,
    out: &mut Vec<(K, Value)>,
    Ghost(h): Ghost<nat>,
    Ghost(lo): Ghost<Option<int>>,
    Ghost(hi): Ghost<Option<int>>,
)
    requires
        wf_node(*node, h, lo, hi),
    ensures
        pairs_view(final(out)@) == pairs_view(old(out)@) + walk(*node),
    decreases h,
{
    let ghost start = pairs_view(out@);
    if node.is_leaf {
        let mut j: usize = 0;
        while j < node.keys.len()
            invariant
                wf_node(*node, h, lo, hi),
                j <= node.keys@.len(),
                pairs_view(out@) == start + own(*node).take(j as int),
            decreases node.keys@.len() - j,
        {
            let before = Ghost(out@);
            out.push((node.keys[j].duplicate(), node.values[j].deep_clone()));
            proof {
                lemma_pairs_push(before@, out@.last());
                assert(own(*node).take(j + 1) == own(*node).take(j as int).push(own(*node)[j as int]));
            }
            j += 1;
        }
        proof {
            assert(own(*node).take(node.keys@.len() as int) == own(*node));
        }
        return;
    }
    proof {
        lemma_wf_kids(node.children@, node.keys@, (h - 1) as nat, lo, hi);
    }
    let mut j: usize = 0;
    while j < node.keys.len()
        invariant
            wf_node(*node, h, lo, hi),
            h > 0,
            j <= node.keys@.len(),
            forall|i: int|
                0 <= i < node.children@.len() ==> #[trigger] wf_node(
                    node.children@[i],
                    (h - 1) as nat,
                    kid_lo(node.keys@, lo, i),
                    kid_hi(node.keys@, hi, i),
                ),
            pairs_view(out@) == start + pre_of(*node, j as int),
        decreases node.keys@.len() - j,
    {
        range_node(
            &node.children[j],
            out,
            Ghost((h - 1) as nat),
            Ghost(kid_lo(node.keys@, lo, j as int)),
            Ghost(kid_hi(node.keys@, hi, j as int)),
        );
        let before = Ghost(out@);
        out.push((node.keys[j].duplicate(), node.values[j].deep_clone()));
        proof {
            lemma_pairs_push(before@, out@.last());
            lemma_pre_step(*node, j as int);
            assert(start + pre_of(*node, j + 1) =~= start + pre_of(*node, j as int) + walk(node.children@[j as int])
                + seq![own(*node)[j as int]]);
        }
        j += 1;
    }
    let last = node.keys.len();
    range_node(
        &node.children[last],
        out,
        Ghost((h - 1) as nat),
        Ghost(kid_lo(node.keys@, lo, last as int)),
        Ghost(kid_hi(node.keys@, hi, last as int)),
    );
    proof {
        lemma_walks(node.children@);
        lemma_weave_at(walks(node.children@), own(*node), last as int);
        assert(walk(*node) == pre_of(*node, last as int) + walk(node.children@[last as int]));
        assert(start + walk(*node) =~= start + pre_of(*node, last as int) + walk(node.children@[last as int]));
    }
}

/// The number of entries below `node`.
fn find_len<K: Key>(node: &Node<K>, Ghost(h): Ghost<nat>, Ghost(lo): Ghost<Option<int>>, Ghost(hi): Ghost<Option<int>>) -> (r: usize)
    requires
        wf_node(*node, h, lo, hi),
        walk(*node).len() <= usize::MAX,
    ensures
        r == walk(*node).len(),
    decreases h,
{
    if node.is_leaf {
        return node.keys.len();
    }
    proof {
        lemma_wf_kids(node.children@, node.keys@, (h - 1) as nat, lo, hi);
        lemma_walks(node.children@);
    }
    let mut total: usize = 0;
    let mut j: usize = 0;
    while j < node.keys.len()
        invariant
            wf_node(*node, h, lo, hi),
            h > 0,
            j <= node.keys@.len(),
            walk(*node).len() <= usize::MAX,
            forall|i: int|
                0 <= i < node.children@.len() ==> #[trigger] wf_node(
                    node.children@[i],
                    (h - 1) as nat,
                    kid_lo(node.keys@, lo, i),
                    kid_hi(node.keys@, hi, i),
                ),
            total == pre_of(*node, j as int).len(),
        decreases node.keys@.len() - j,
    {
        proof {
            lemma_walks(node.children@);
            lemma_weave_at(walks(node.children@), own(*node), j as int);
            lemma_pre_step(*node, j as int);
        }
        let c = find_len(
            &node.children[j],
            Ghost((h - 1) as nat),
            Ghost(kid_lo(node.keys@, lo, j as int)),
            Ghost(kid_hi(node.keys@, hi, j as int)),
        );
        total = total + c + 1;
        j += 1;
    }
    let last = node.keys.len();
    proof {
        lemma_walks(node.children@);
        lemma_weave_at(walks(node.children@), own(*node), last as int);
    }
    let c = find_len(
        &node.children[last],
        Ghost((h - 1) as nat),
        Ghost(kid_lo(node.keys@, lo, last as int)),
        Ghost(kid_hi(node.keys@, hi, last as int)),
    );
    total + c
}


/// The walks of a run of subtrees are that run of the walks.
proof fn lemma_walks_subrange<K>(cs: Seq<Node<K>>, a: int, b: int)
    requires
        0 <= a <= b <= cs.len(),
    ensures
        walks(cs.subrange(a, b)) == walks(cs).subrange(a, b),
{
    lemma_walks(cs);
    lemma_walks(cs.subrange(a, b));
    assert(walks(cs.subrange(a, b)) =~= walks(cs).subrange(a, b));
}

/// Weaving with one more walk and entry in front.
proof fn lemma_weave_cons<K>(w: Seq<Entry<K>>, ws: Seq<Seq<Entry<K>>>, e: Entry<K>, es: Seq<Entry<K>>)
    requires
        ws.len() == es.len() + 1,
    ensures
        weave(seq![w] + ws, seq![e] + es) == w + seq![e] + weave(ws, es),
{
    let ws2 = seq![w] + ws;
    let es2 = seq![e] + es;
    lemma_weave_split(ws2, es2, 0);
    assert(ws2.take(1) =~= seq![w]);
    assert(es2.take(0) =~= Seq::<Entry<K>>::empty());
    assert(weave(ws2.take(1), es2.take(0)) == w);
    assert(ws2.skip(1) == ws);
    assert(es2.skip(1) == es);
}

/// Splitting a full node around its middle key: the lower half and the
/// upper half are B-trees on either side of it, and between them they
/// walk what the node walked.
proof fn lemma_split_node<K: Key>(c: Node<K>, h: nat, lo: Option<int>, hi: Option<int>, l: Node<K>, r: Node<K>)
    requires
        wf_node(c, h, lo, hi),
        c.keys@.len() == MAX_KEYS,
        l.keys@ == c.keys@.take(3),
        l.values@ == c.values@.take(3),
        r.keys@ == c.keys@.skip(4),
        r.values@ == c.values@.skip(4),
        l.is_leaf == c.is_leaf,
        r.is_leaf == c.is_leaf,
        l.children@ == (if c.is_leaf { Seq::<Node<K>>::empty() } else { c.children@.take(4) }),
        r.children@ == (if c.is_leaf { Seq::<Node<K>>::empty() } else { c.children@.skip(4) }),
    ensures
        wf_node(l, h, lo, Some(c.keys@[3].rank())),
        wf_node(r, h, Some(c.keys@[3].rank()), hi),
        walk(c) == walk(l) + seq![(c.keys@[3], c.values@[3]@)] + walk(r),
        l.keys@.len() == 3,
        r.keys@.len() == 3,
{
    let k3 = c.keys@[3].rank();
    assert forall|t: int| 0 <= t < 3 implies #[trigger] l.keys@[t] == c.keys@[t] by {}
    assert forall|t: int| 0 <= t < 3 implies #[trigger] r.keys@[t] == c.keys@[t + 4] by {}
    assert forall|t: int| 0 <= t < 3 implies between(lo, Some(k3), #[trigger] l.keys@[t].rank()) by {
        assert(c.keys@[t].rank() < c.keys@[3].rank());
        assert(between(lo, hi, c.keys@[t].rank()));
    }
    assert forall|t: int| 0 <= t < 3 implies between(Some(k3), hi, #[trigger] r.keys@[t].rank()) by {
        assert(c.keys@[3].rank() < c.keys@[t + 4].rank());
        assert(between(lo, hi, c.keys@[t + 4].rank()));
    }
    assert(sorted_strict(l.keys@)) by {
        assert forall|a: int, b: int| 0 <= a < b < l.keys@.len() implies #[trigger] l.keys@[a].rank() < #[trigger] l.keys@[b].rank() by {
            assert(c.keys@[a].rank() < c.keys@[b].rank());
        }
    }
    assert(sorted_strict(r.keys@)) by {
        assert forall|a: int, b: int| 0 <= a < b < r.keys@.len() implies #[trigger] r.keys@[a].rank() < #[trigger] r.keys@[b].rank() by {
            assert(c.keys@[a + 4].rank() < c.keys@[b + 4].rank());
        }
    }
    let es = own(c);
    assert(own(l) =~= es.take(3));
    assert(own(r) =~= es.skip(4));
    if h == 0 {
        assert(es =~= es.take(3) + seq![es[3]] + es.skip(4));
    } else {
        let hh = (h - 1) as nat;
        let cs = c.children@;
        lemma_wf_kids(cs, c.keys@, hh, lo, hi);
        lemma_wf_kids(l.children@, l.keys@, hh, lo, Some(k3));
        lemma_wf_kids(r.children@, r.keys@, hh, Some(k3), hi);
        assert forall|t: int| 0 <= t < l.children@.len() implies #[trigger] wf_node(
            l.children@[t],
            hh,
            kid_lo(l.keys@, lo, t),
            kid_hi(l.keys@, Some(k3), t),
        ) by {
            assert(l.children@[t] == cs[t]);
            assert(wf_node(cs[t], hh, kid_lo(c.keys@, lo, t), kid_hi(c.keys@, hi, t)));
            assert(kid_lo(l.keys@, lo, t) == kid_lo(c.keys@, lo, t));
            assert(kid_hi(l.keys@, Some(k3), t) == kid_hi(c.keys@, hi, t));
        }
        assert forall|t: int| 0 <= t < r.children@.len() implies #[trigger] wf_node(
            r.children@[t],
            hh,
            kid_lo(r.keys@, Some(k3), t),
            kid_hi(r.keys@, hi, t),
        ) by {
            assert(r.children@[t] == cs[t + 4]);
            assert(wf_node(cs[t + 4], hh, kid_lo(c.keys@, lo, t + 4), kid_hi(c.keys@, hi, t + 4)));
            assert(kid_lo(r.keys@, Some(k3), t) == kid_lo(c.keys@, lo, t + 4));
            assert(kid_hi(r.keys@, hi, t) == kid_hi(c.keys@, hi, t + 4));
        }
        let ws = walks(cs);
        lemma_walks(cs);
        lemma_weave_split(ws, es, 3);
        lemma_walks_subrange(cs, 0, 4);
        lemma_walks_subrange(cs, 4, 8);
        assert(cs.take(4) == cs.subrange(0, 4));
        assert(cs.skip(4) == cs.subrange(4, 8));
        assert(ws.take(4) == ws.subrange(0, 4));
        assert(ws.skip(4) == ws.subrange(4, 8));
    }
}

/// The requirements on a node `p2` made from `p` by splitting child `i`.
pub open spec fn split_of<K: Key>(p: Node<K>, i: int, p2: Node<K>) -> bool {
    let c = p.children@[i];
    let l = p2.children@[i];
    let r = p2.children@[i + 1];
    &&& p2.is_leaf == p.is_leaf
    &&& p2.keys@ == p.keys@.insert(i, c.keys@[3])
    &&& p2.values@ == p.values@.insert(i, c.values@[3])
    &&& p2.children@.len() == p.children@.len() + 1
    &&& (forall|t: int| 0 <= t < i ==> #[trigger] p2.children@[t] == p.children@[t])
    &&& (forall|t: int| i + 1 < t < p2.children@.len() ==> #[trigger] p2.children@[t] == p.children@[t - 1])
    &&& l.keys@ == c.keys@.take(3)
    &&& l.values@ == c.values@.take(3)
    &&& r.keys@ == c.keys@.skip(4)
    &&& r.values@ == c.values@.skip(4)
    &&& l.is_leaf == c.is_leaf
    &&& r.is_leaf == c.is_leaf
    &&& l.children@ == (if c.is_leaf { Seq::<Node<K>>::empty() } else { c.children@.take(4) })
    &&& r.children@ == (if c.is_leaf { Seq::<Node<K>>::empty() } else { c.children@.skip(4) })
}

/// Inserting a key between the two keys around position `i` keeps the keys
/// sorted and between the bounds.
proof fn lemma_split_keys<K: Key>(ks: Seq<K>, i: int, k: K, lo: Option<int>, hi: Option<int>)
    requires
        sorted_strict(ks),
        0 <= i <= ks.len(),
        forall|t: int| 0 <= t < ks.len() ==> between(lo, hi, #[trigger] ks[t].rank()),
        between(kid_lo(ks, lo, i), kid_hi(ks, hi, i), k.rank()),
    ensures
        sorted_strict(ks.insert(i, k)),
        forall|t: int| 0 <= t < ks.len() + 1 ==> between(lo, hi, #[trigger] ks.insert(i, k)[t].rank()),
{
    let ks2 = ks.insert(i, k);
    assert forall|t: int| 0 <= t < ks2.len() implies between(lo, hi, #[trigger] ks2[t].rank()) by {
        if t < i {
            assert(ks2[t] == ks[t]);
        } else if t == i {
            if i > 0 {
                assert(between(lo, hi, ks[i - 1].rank()));
            }
            if i < ks.len() {
                assert(between(lo, hi, ks[i].rank()));
            }
        } else {
            assert(ks2[t] == ks[t - 1]);
        }
    }
    assert forall|a: int, b: int| 0 <= a < b < ks2.len() implies #[trigger] ks2[a].rank() < #[trigger] ks2[b].rank() by {
        if b < i {
            assert(ks2[a] == ks[a] && ks2[b] == ks[b]);
        } else if b == i {
            assert(ks2[a] == ks[a]);
            assert(ks[a].rank() <= ks[i - 1].rank());
        } else if a < i {
            assert(ks2[a] == ks[a] && ks2[b] == ks[b - 1]);
        } else if a == i {
            assert(ks2[b] == ks[b - 1]);
            assert(ks[i].rank() <= ks[b - 1].rank());
        } else {
            assert(ks2[a] == ks[a - 1] && ks2[b] == ks[b - 1]);
        }
    }
}

/// After splitting child `i`, every child is a B-tree between its keys.
proof fn lemma_split_kids<K: Key>(p: Node<K>, h: nat, lo: Option<int>, hi: Option<int>, i: int, p2: Node<K>)
    requires
        wf_node(p, h, lo, hi),
        h > 0,
        0 <= i <= p.keys@.len(),
        split_of(p, i, p2),
        wf_node(p2.children@[i], (h - 1) as nat, kid_lo(p.keys@, lo, i), Some(p.children@[i].keys@[3].rank())),
        wf_node(p2.children@[i + 1], (h - 1) as nat, Some(p.children@[i].keys@[3].rank()), kid_hi(p.keys@, hi, i)),
    ensures
        wf_kids(p2.children@, p2.keys@, (h - 1) as nat, lo, hi),
{
    let hh = (h - 1) as nat;
    let ks = p.keys@;
    let ks2 = p2.keys@;
    lemma_wf_kids(p.children@, ks, hh, lo, hi);
    lemma_wf_kids(p2.children@, ks2, hh, lo, hi);
    assert forall|t: int| 0 <= t < p2.children@.len() implies #[trigger] wf_node(
        p2.children@[t],
        hh,
        kid_lo(ks2, lo, t),
        kid_hi(ks2, hi, t),
    ) by {
        if t < i {
            assert(wf_node(p.children@[t], hh, kid_lo(ks, lo, t), kid_hi(ks, hi, t)));
            if t > 0 {
                assert(ks2[t - 1] == ks[t - 1]);
            }
            assert(ks2[t] == ks[t]);
        } else if t == i {
            assert(kid_lo(ks2, lo, t) == kid_lo(ks, lo, i));
        } else if t == i + 1 {
            if t < ks2.len() {
                assert(ks2[t] == ks[i]);
            }
        } else {
            assert(wf_node(p.children@[t - 1], hh, kid_lo(ks, lo, t - 1), kid_hi(ks, hi, t - 1)));
            assert(ks2[t - 1] == ks[t - 2]);
            if t < ks2.len() {
                assert(ks2[t] == ks[t - 1]);
            }
        }
    }
}

/// After splitting child `i`, the node walks what it walked.
proof fn lemma_split_walk<K: Key>(p: Node<K>, i: int, p2: Node<K>)
    requires
        p.children@.len() == p.keys@.len() + 1,
        p.values@.len() == p.keys@.len(),
        0 <= i <= p.keys@.len(),
        split_of(p, i, p2),
        walk(p.children@[i]) == walk(p2.children@[i]) + seq![(p.children@[i].keys@[3], p.children@[i].values@[3]@)]
            + walk(p2.children@[i + 1]),
        !p.is_leaf,
    ensures
        walk(p2) == walk(p),
{
    let c = p.children@[i];
    let l = p2.children@[i];
    let r = p2.children@[i + 1];
    let ws = walks(p.children@);
    let es = own(p);
    let ws2 = walks(p2.children@);
    let es2 = own(p2);
    lemma_walks(p.children@);
    lemma_walks(p2.children@);
    let e3 = (c.keys@[3], c.values@[3]@);
    assert(es2 =~= es.insert(i, e3));
    lemma_weave_at(ws, es, i);
    lemma_weave_split(ws2, es2, i);
    assert(es2[i] == e3);
    let front = ws2.take(i + 1);
    let back = ws2.skip(i + 1);
    assert(front.drop_last() =~= ws.take(i));
    assert(front.last() == walk(l));
    assert(es2.take(i) =~= es.take(i));
    if i > 0 {
        assert(es.take(i).drop_last() =~= es.take(i - 1));
        assert(es.take(i).last() == es[i - 1]);
        assert(weave(front, es2.take(i)) == weave(ws.take(i), es.take(i - 1)) + seq![es[i - 1]] + walk(l));
    } else {
        assert(front =~= seq![walk(l)]);
        assert(weave(front, es2.take(i)) == walk(l));
    }
    assert(weave(front, es2.take(i)) =~= pre_of(p, i) + walk(l));
    assert(back =~= seq![walk(r)] + ws.skip(i + 1));
    assert(es2.skip(i + 1) =~= es.skip(i));
    if i < es.len() {
        assert(es.skip(i) =~= seq![es[i]] + es.skip(i + 1));
        lemma_weave_cons(walk(r), ws.skip(i + 1), es[i], es.skip(i + 1));
        assert(weave(back, es2.skip(i + 1)) == walk(r) + seq![es[i]] + weave(ws.skip(i + 1), es.skip(i + 1)));
    } else {
        assert(es.skip(i) =~= Seq::<Entry<K>>::empty());
        assert(back =~= seq![walk(r)]);
        assert(weave(back, es2.skip(i + 1)) == walk(r));
    }
    assert(weave(back, es2.skip(i + 1)) =~= walk(r) + post_of(p, i));
    assert(walk(p2) =~= pre_of(p, i) + walk(l) + seq![e3] + walk(r) + post_of(p, i));
    assert(walk(p) =~= pre_of(p, i) + (walk(l) + seq![e3] + walk(r)) + post_of(p, i));
}

/// Splitting child `i` of a node: the child's middle key moves up between
/// its two halves, and the node walks what it walked.
proof fn lemma_split_child<K: Key>(p: Node<K>, h: nat, lo: Option<int>, hi: Option<int>, i: int, p2: Node<K>)
    requires
        wf_node(p, h, lo, hi),
        h > 0,
        p.keys@.len() < MAX_KEYS,
        0 <= i <= p.keys@.len(),
        p.children@[i].keys@.len() == MAX_KEYS,
        split_of(p, i, p2),
    ensures
        wf_node(p2, h, lo, hi),
        walk(p2) == walk(p),
        p2.children@[i].keys@.len() == 3,
        p2.children@[i + 1].keys@.len() == 3,
{
    let hh = (h - 1) as nat;
    let c = p.children@[i];
    let ks = p.keys@;
    let lo_i = kid_lo(ks, lo, i);
    let hi_i = kid_hi(ks, hi, i);
    lemma_wf_kids(p.children@, ks, hh, lo, hi);
    assert(wf_node(c, hh, lo_i, hi_i));
    lemma_split_node(c, hh, lo_i, hi_i, p2.children@[i], p2.children@[i + 1]);
    assert(between(lo_i, hi_i, c.keys@[3].rank()));
    lemma_split_keys(ks, i, c.keys@[3], lo, hi);
    lemma_split_kids(p, h, lo, hi, i, p2);
    lemma_split_walk(p, i, p2);
}


/// Replacing the value of key `j` replaces that key's entry in the walk,
/// as `seq_set` does.
proof fn lemma_replace_value<K: Key>(
    n: Node<K>,
    n2: Node<K>,
    h: nat,
    lo: Option<int>,
    hi: Option<int>,
    j: int,
    key: K,
    v: Value,
)
    requires
        wf_node(n, h, lo, hi),
        0 <= j < n.keys@.len(),
        n.keys@[j].rank() == key.rank(),
        n2.keys@ == n.keys@,
        n2.values@ == n.values@.update(j, v),
        n2.children@ == n.children@,
        n2.is_leaf == n.is_leaf,
    ensures
        wf_node(n2, h, lo, hi),
        walk(n2) == seq_set(walk(n), key, v@),
{
    lemma_walk_key(n, h, lo, hi, j);
    let (p, q) = split_at_key(n, j);
    let e = own(n)[j];
    assert(own(n2) =~= own(n).update(j, (n.keys@[j], v@)));
    assert(own(n2).take(j) =~= own(n).take(j));
    assert(own(n2).skip(j + 1) =~= own(n).skip(j + 1));
    if h > 0 {
        lemma_wf_kids(n.children@, n.keys@, (h - 1) as nat, lo, hi);
        lemma_wf_kids(n2.children@, n2.keys@, (h - 1) as nat, lo, hi);
        lemma_walks(n.children@);
        lemma_weave_split(walks(n2.children@), own(n2), j);
    } else {
        assert(own(n2) =~= own(n2).take(j) + seq![own(n2)[j]] + own(n2).skip(j + 1));
    }
    assert(split_at_key(n2, j) == split_at_key(n, j));
    assert(walk(n2) == p + seq![(n.keys@[j], v@)] + q);
    lemma_put_concat(p, seq![e], q, key, v@);
    assert(seq_set(seq![e], key, v@) =~= seq![(e.0, v@)]);
}

/// Inserting a key into a leaf at its place inserts its entry in the walk,
/// as `seq_set` does for an absent key.
proof fn lemma_leaf_insert<K: Key>(n: Node<K>, n2: Node<K>, lo: Option<int>, hi: Option<int>, i: int, key: K, v: Value)
    requires
        wf_node(n, 0, lo, hi),
        n.keys@.len() < MAX_KEYS,
        0 <= i <= n.keys@.len(),
        forall|t: int| 0 <= t < i ==> #[trigger] n.keys@[t].rank() < key.rank(),
        forall|t: int| i <= t < n.keys@.len() ==> #[trigger] n.keys@[t].rank() > key.rank(),
        between(lo, hi, key.rank()),
        n2.keys@ == n.keys@.insert(i, key),
        n2.values@ == n.values@.insert(i, v),
        n2.children@ == n.children@,
        n2.is_leaf == n.is_leaf,
    ensures
        wf_node(n2, 0, lo, hi),
        walk(n2) == seq_set(walk(n), key, v@),
{
    lemma_split_keys(n.keys@, i, key, lo, hi);
    lemma_put_new(own(n), key, v@, i);
    assert(own(n2) =~= own(n).insert(i, (key, v@)));
}

/// Replacing child `i` keeps what the walk holds before and after it.
proof fn lemma_replace_child<K: Key>(
    n: Node<K>,
    n2: Node<K>,
    h: nat,
    lo: Option<int>,
    hi: Option<int>,
    i: int,
    key: K,
    v: Value,
)
    requires
        wf_node(n, h, lo, hi),
        h > 0,
        0 <= i <= n.keys@.len(),
        i == 0 || n.keys@[i - 1].rank() < key.rank(),
        i == n.keys@.len() || key.rank() < n.keys@[i].rank(),
        n2.keys@ == n.keys@,
        n2.values@ == n.values@,
        n2.is_leaf == n.is_leaf,
        n2.children@.len() == n.children@.len(),
        forall|t: int| 0 <= t < n.children@.len() && t != i ==> #[trigger] n2.children@[t] == n.children@[t],
        wf_node(n2.children@[i], (h - 1) as nat, kid_lo(n.keys@, lo, i), kid_hi(n.keys@, hi, i)),
        walk(n2.children@[i]) == seq_set(walk(n.children@[i]), key, v@),
    ensures
        wf_node(n2, h, lo, hi),
        walk(n2) == seq_set(walk(n), key, v@),
{
    let hh = (h - 1) as nat;
    lemma_wf_kids(n.children@, n.keys@, hh, lo, hi);
    lemma_wf_kids(n2.children@, n2.keys@, hh, lo, hi);
    assert forall|t: int| 0 <= t < n2.children@.len() implies #[trigger] wf_node(
        n2.children@[t],
        hh,
        kid_lo(n2.keys@, lo, t),
        kid_hi(n2.keys@, hi, t),
    ) by {
        if t != i {
            assert(wf_node(n.children@[t], hh, kid_lo(n.keys@, lo, t), kid_hi(n.keys@, hi, t)));
        }
    }
    lemma_walk_child(n, h, lo, hi, i, key.rank());
    lemma_walks(n.children@);
    lemma_walks(n2.children@);
    let ws = walks(n.children@);
    let ws2 = walks(n2.children@);
    assert(ws2.take(i) =~= ws.take(i));
    assert(ws2.skip(i + 1) =~= ws.skip(i + 1));
    assert(own(n2) == own(n));
    assert(pre_of(n2, i) == pre_of(n, i));
    assert(post_of(n2, i) == post_of(n, i));
    lemma_weave_at(ws2, own(n2), i);
    lemma_put_concat(pre_of(n, i), walk(n.children@[i]), post_of(n, i), key, v@);
}

/// Is `b` a lower bound no tighter than `a`?
pub open spec fn looser_lo(b: Option<int>, a: Option<int>) -> bool {
    b is None || (a is Some && b->0 <= a->0)
}

/// Is `b` an upper bound no tighter than `a`?
pub open spec fn looser_hi(b: Option<int>, a: Option<int>) -> bool {
    b is None || (a is Some && a->0 <= b->0)
}

/// A B-tree between two bounds is one between any looser bounds.
proof fn lemma_wf_loosen<K: Key>(n: Node<K>, h: nat, lo: Option<int>, hi: Option<int>, lo2: Option<int>, hi2: Option<int>)
    requires
        wf_node(n, h, lo, hi),
        looser_lo(lo2, lo),
        looser_hi(hi2, hi),
    ensures
        wf_node(n, h, lo2, hi2),
    decreases h,
{
    if h > 0 {
        let cs = n.children@;
        let ks = n.keys@;
        let hh = (h - 1) as nat;
        lemma_wf_kids(cs, ks, hh, lo, hi);
        lemma_wf_kids(cs, ks, hh, lo2, hi2);
        assert forall|t: int| 0 <= t < cs.len() implies #[trigger] wf_node(cs[t], hh, kid_lo(ks, lo2, t), kid_hi(ks, hi2, t)) by {
            assert(wf_node(cs[t], hh, kid_lo(ks, lo, t), kid_hi(ks, hi, t)));
            lemma_wf_loosen(cs[t], hh, kid_lo(ks, lo, t), kid_hi(ks, hi, t), kid_lo(ks, lo2, t), kid_hi(ks, hi2, t));
        }
    }
}

/// Dropping the last entry of the last walk drops the last entry of the
/// weave.
proof fn lemma_weave_drop_last<K>(ws: Seq<Seq<Entry<K>>>, es: Seq<Entry<K>>)
    requires
        ws.len() == es.len() + 1,
        ws.last().len() > 0,
    ensures
        weave(ws, es).len() > 0,
        weave(ws, es).last() == ws.last().last(),
        weave(ws.update(ws.len() - 1, ws.last().drop_last()), es) == weave(ws, es).drop_last(),
{
    let ws2 = ws.update(ws.len() - 1, ws.last().drop_last());
    if es.len() == 0 {
        assert(weave(ws, es) == ws[0]);
        assert(weave(ws2, es) == ws2[0]);
    } else {
        assert(ws2.drop_last() =~= ws.drop_last());
        assert(weave(ws2, es) == weave(ws2.drop_last(), es.drop_last()) + seq![es.last()] + ws2.last());
        assert(weave(ws, es) == weave(ws.drop_last(), es.drop_last()) + seq![es.last()] + ws.last());
        assert(weave(ws2, es) =~= weave(ws, es).drop_last());
    }
}

/// Taking out an empty walk and the entry after it takes that entry out of
/// the weave.
proof fn lemma_weave_remove<K>(ws: Seq<Seq<Entry<K>>>, es: Seq<Entry<K>>, i: int)
    requires
        ws.len() == es.len() + 1,
        0 <= i < es.len(),
        ws[i].len() == 0,
    ensures
        weave(ws, es) == weave(ws.take(i + 1), es.take(i)) + seq![es[i]] + weave(ws.skip(i + 1), es.skip(i + 1)),
        weave(ws.remove(i), es.remove(i)) == weave(ws.take(i + 1), es.take(i)) + weave(
            ws.skip(i + 1),
            es.skip(i + 1),
        ),
{
    lemma_weave_split(ws, es, i);
    let ws2 = ws.remove(i);
    let es2 = es.remove(i);
    let a = weave(ws.take(i + 1), es.take(i));
    let b = weave(ws.skip(i + 1), es.skip(i + 1));
    if i == 0 {
        assert(weave(ws.take(1), es.take(0)) == ws.take(1)[0]);
        assert(a =~= Seq::<Entry<K>>::empty());
        assert(ws2 =~= ws.skip(1));
        assert(es2 =~= es.skip(1));
        assert(weave(ws2, es2) =~= a + b);
    } else {
        let wt = ws.take(i + 1);
        let et = es.take(i);
        assert(wt.drop_last() =~= ws.take(i));
        assert(et.drop_last() =~= es.take(i - 1));
        assert(wt.last() == ws[i]);
        assert(a == weave(ws.take(i), es.take(i - 1)) + seq![es[i - 1]] + ws[i]);
        lemma_weave_split(ws2, es2, i - 1);
        assert(ws2.take(i) =~= ws.take(i));
        assert(es2.take(i - 1) =~= es.take(i - 1));
        assert(es2[i - 1] == es[i - 1]);
        assert(ws2.skip(i) =~= ws.skip(i + 1));
        assert(es2.skip(i) =~= es.skip(i + 1));
        assert(weave(ws2, es2) =~= a + b);
    }
}

/// Swapping child `i` for another B-tree between the same keys keeps what
/// the walk holds before and after it.
proof fn lemma_swap_child<K: Key>(n: Node<K>, n2: Node<K>, h: nat, lo: Option<int>, hi: Option<int>, i: int, r: int)
    requires
        wf_node(n, h, lo, hi),
        h > 0,
        0 <= i <= n.keys@.len(),
        i == 0 || n.keys@[i - 1].rank() < r,
        i == n.keys@.len() || r < n.keys@[i].rank(),
        n2.keys@ == n.keys@,
        n2.values@ == n.values@,
        n2.is_leaf == n.is_leaf,
        n2.children@.len() == n.children@.len(),
        forall|t: int| 0 <= t < n.children@.len() && t != i ==> #[trigger] n2.children@[t] == n.children@[t],
        wf_node(n2.children@[i], (h - 1) as nat, kid_lo(n.keys@, lo, i), kid_hi(n.keys@, hi, i)),
    ensures
        wf_node(n2, h, lo, hi),
        walk(n) == pre_of(n, i) + walk(n.children@[i]) + post_of(n, i),
        walk(n2) == pre_of(n, i) + walk(n2.children@[i]) + post_of(n, i),
        all_below(pre_of(n, i), r),
        all_above(post_of(n, i), r),
        seq_get(walk(n), r) == seq_get(walk(n.children@[i]), r),
{
    let hh = (h - 1) as nat;
    lemma_wf_kids(n.children@, n.keys@, hh, lo, hi);
    lemma_wf_kids(n2.children@, n2.keys@, hh, lo, hi);
    assert forall|t: int| 0 <= t < n2.children@.len() implies #[trigger] wf_node(
        n2.children@[t],
        hh,
        kid_lo(n2.keys@, lo, t),
        kid_hi(n2.keys@, hi, t),
    ) by {
        if t != i {
            assert(wf_node(n.children@[t], hh, kid_lo(n.keys@, lo, t), kid_hi(n.keys@, hi, t)));
        }
    }
    lemma_walk_child(n, h, lo, hi, i, r);
    lemma_walks(n.children@);
    lemma_walks(n2.children@);
    let ws = walks(n.children@);
    let ws2 = walks(n2.children@);
    assert(ws2.take(i) =~= ws.take(i));
    assert(ws2.skip(i + 1) =~= ws.skip(i + 1));
    assert(own(n2) == own(n));
    assert(pre_of(n2, i) == pre_of(n, i));
    assert(post_of(n2, i) == post_of(n, i));
    lemma_weave_at(ws2, own(n2), i);
}

/// Takes the entry with the greatest key out of the tree under `node`, if
/// it holds any; what remains lies below that key.
fn pop_max<K: Key>(node: &mut Node<K>, Ghost(h): Ghost<nat>, Ghost(lo): Ghost<Option<int>>, Ghost(hi): Ghost<Option<int>>) -> (r: Option<(K, Value)>)
    requires
        wf_node(*old(node), h, lo, hi),
    ensures
        match r {
            Some((k, v)) => {
                &&& walk(*old(node)).len() > 0
                &&& walk(*old(node)).last() == (k, v@)
                &&& walk(*final(node)) == walk(*old(node)).drop_last()
                &&& wf_node(*final(node), h, lo, Some(k.rank()))
                &&& between(lo, hi, k.rank())
            },
            None => walk(*old(node)).len() == 0,
        },
    decreases h,
{
    let ghost n0 = *node;
    proof {
        lemma_walk_wf(n0, h, lo, hi);
        lemma_own(n0, h, lo, hi);
    }
    if node.is_leaf {
        if node.keys.len() == 0 {
            return None;
        }
        let k = node.keys.pop().unwrap();
        let v = node.values.pop().unwrap();
        proof {
            let last = n0.keys@.len() - 1;
            assert(own(*node) =~= own(n0).drop_last());
            assert(own(n0).last() == (k, v@));
            assert forall|t: int| 0 <= t < node.keys@.len() implies between(lo, Some(k.rank()), #[trigger] node.keys@[t].rank()) by {
                assert(node.keys@[t] == n0.keys@[t]);
                assert(n0.keys@[t].rank() < n0.keys@[last].rank());
            }
            assert(sorted_strict(node.keys@)) by {
                assert forall|a: int, b: int| 0 <= a < b < node.keys@.len() implies #[trigger] node.keys@[a].rank()
                    < #[trigger] node.keys@[b].rank() by {
                    assert(node.keys@[a] == n0.keys@[a] && node.keys@[b] == n0.keys@[b]);
                }
            }
        }
        return Some((k, v));
    }
    let ghost hh = (h - 1) as nat;
    let ghost ws = walks(n0.children@);
    let ghost es = own(n0);
    proof {
        lemma_wf_kids(n0.children@, n0.keys@, hh, lo, hi);
        lemma_walks(n0.children@);
    }
    let last = node.children.len() - 1;
    let ghost clo = kid_lo(n0.keys@, lo, last as int);
    let mut c = node.children.pop().unwrap();
    proof {
        assert(c == n0.children@[last as int]);
        assert(wf_node(c, hh, clo, kid_hi(n0.keys@, hi, last as int)));
        assert(kid_hi(n0.keys@, hi, last as int) == hi);
        lemma_walk_wf(c, hh, clo, hi);
    }
    let ghost c0 = c;
    match pop_max(&mut c, Ghost(hh), Ghost(clo), Ghost(hi)) {
        Some((k, v)) => {
            node.children.push(c);
            proof {
                assert(node.children@ =~= n0.children@.update(last as int, c));
                lemma_walks(node.children@);
                assert(walks(node.children@) =~= ws.update(ws.len() - 1, ws.last().drop_last()));
                lemma_weave_drop_last(ws, es);
                assert(own(*node) == es);
                let hk = Some(k.rank());
                assert forall|t: int| 0 <= t < node.keys@.len() implies between(lo, hk, #[trigger] node.keys@[t].rank()) by {
                    if t < last - 1 {
                        assert(n0.keys@[t].rank() < n0.keys@[last - 1].rank());
                    }
                }
                lemma_wf_kids(node.children@, node.keys@, hh, lo, hk);
                assert forall|t: int| 0 <= t < node.children@.len() implies #[trigger] wf_node(
                    node.children@[t],
                    hh,
                    kid_lo(node.keys@, lo, t),
                    kid_hi(node.keys@, hk, t),
                ) by {
                    if t < last {
                        assert(wf_node(n0.children@[t], hh, kid_lo(n0.keys@, lo, t), kid_hi(n0.keys@, hi, t)));
                    }
                }
                if last > 0 {
                    assert(between(lo, hi, n0.keys@[last - 1].rank()));
                }
            }
            Some((k, v))
        },
        None => {
            if node.keys.len() == 0 {
                proof {
                    assert(weave(ws, es) == ws[0]);
                }
                return None;
            }
            let k = node.keys.pop().unwrap();
            let v = node.values.pop().unwrap();
            proof {
                assert(node.children@ =~= n0.children@.drop_last());
                assert(walks(n0.children@) == walks(node.children@).push(walk(c0)));
                assert(walks(node.children@) =~= ws.drop_last());
                assert(own(*node) =~= es.drop_last());
                assert(weave(ws, es) == weave(ws.drop_last(), es.drop_last()) + seq![es.last()] + ws.last());
                assert(weave(ws, es) =~= weave(ws.drop_last(), es.drop_last()) + seq![es.last()]);
                let hk = Some(k.rank());
                let nl = node.keys@.len();
                assert forall|t: int| 0 <= t < nl implies between(lo, hk, #[trigger] node.keys@[t].rank()) by {
                    assert(n0.keys@[t].rank() < n0.keys@[nl as int].rank());
                }
                assert(sorted_strict(node.keys@)) by {
                    assert forall|a: int, b: int| 0 <= a < b < node.keys@.len() implies #[trigger] node.keys@[a].rank()
                        < #[trigger] node.keys@[b].rank() by {
                        assert(node.keys@[a] == n0.keys@[a] && node.keys@[b] == n0.keys@[b]);
                    }
                }
                lemma_wf_kids(node.children@, node.keys@, hh, lo, hk);
                assert forall|t: int| 0 <= t < node.children@.len() implies #[trigger] wf_node(
                    node.children@[t],
                    hh,
                    kid_lo(node.keys@, lo, t),
                    kid_hi(node.keys@, hk, t),
                ) by {
                    assert(wf_node(n0.children@[t], hh, kid_lo(n0.keys@, lo, t), kid_hi(n0.keys@, hi, t)));
                    assert(kid_lo(node.keys@, lo, t) == kid_lo(n0.keys@, lo, t));
                    assert(kid_hi(node.keys@, hk, t) == kid_hi(n0.keys@, hi, t));
                }
            }
            Some((k, v))
        },
    }
}

/// Removing key `i` of a leaf removes its entry from the walk.
proof fn lemma_delete_in_leaf<K: Key>(n: Node<K>, n2: Node<K>, lo: Option<int>, hi: Option<int>, i: int)
    requires
        wf_node(n, 0, lo, hi),
        0 <= i < n.keys@.len(),
        n2.keys@ == n.keys@.remove(i),
        n2.values@ == n.values@.remove(i),
        n2.children@ == n.children@,
        n2.is_leaf == n.is_leaf,
    ensures
        wf_node(n2, 0, lo, hi),
        walk(n2) == seq_remove(walk(n), n.keys@[i].rank()),
        seq_get(walk(n), n.keys@[i].rank()) == Some(n.values@[i]@),
{
    lemma_walk_key(n, 0, lo, hi, i);
    lemma_own(n, 0, lo, hi);
    assert(own(n2) =~= own(n).remove(i));
    lemma_remove_at(own(n), i);
    let ks = n.keys@;
    let ks2 = n2.keys@;
    assert forall|a: int, b: int| 0 <= a < b < ks2.len() implies #[trigger] ks2[a].rank() < #[trigger] ks2[b].rank() by {
        let a1 = if a < i { a } else { a + 1 };
        let b1 = if b < i { b } else { b + 1 };
        assert(ks2[a] == ks[a1] && ks2[b] == ks[b1]);
    }
    assert forall|t: int| 0 <= t < ks2.len() implies between(lo, hi, #[trigger] ks2[t].rank()) by {
        let t1 = if t < i { t } else { t + 1 };
        assert(ks2[t] == ks[t1]);
    }
}

/// Replacing internal key `i` by the greatest entry below it, taken out of
/// child `i`, removes key `i`'s entry from the walk.
proof fn lemma_delete_swap_max<K: Key>(
    n: Node<K>,
    n2: Node<K>,
    h: nat,
    lo: Option<int>,
    hi: Option<int>,
    i: int,
    c2: Node<K>,
    k: K,
    v2: Value,
)
    requires
        wf_node(n, h, lo, hi),
        h > 0,
        0 <= i < n.keys@.len(),
        walk(n.children@[i]).len() > 0,
        walk(n.children@[i]).last() == (k, v2@),
        walk(c2) == walk(n.children@[i]).drop_last(),
        wf_node(c2, (h - 1) as nat, kid_lo(n.keys@, lo, i), Some(k.rank())),
        between(kid_lo(n.keys@, lo, i), kid_hi(n.keys@, hi, i), k.rank()),
        n2.keys@ == n.keys@.update(i, k),
        n2.values@ == n.values@.update(i, v2),
        n2.children@ == n.children@.update(i, c2),
        n2.is_leaf == n.is_leaf,
    ensures
        wf_node(n2, h, lo, hi),
        walk(n2) == seq_remove(walk(n), n.keys@[i].rank()),
        seq_get(walk(n), n.keys@[i].rank()) == Some(n.values@[i]@),
{
    let hh = (h - 1) as nat;
    let ks = n.keys@;
    let ks2 = n2.keys@;
    let r = ks[i].rank();
    lemma_walk_key(n, h, lo, hi, i);
    lemma_walk_wf(n, h, lo, hi);
    lemma_own(n, h, lo, hi);
    let (p, q) = split_at_key(n, i);
    lemma_remove_at(walk(n), p.len() as int);
    assert(walk(n).remove(p.len() as int) =~= p + q);
    // the walk
    let ws = walks(n.children@);
    let es = own(n);
    lemma_walks(n.children@);
    lemma_walks(n2.children@);
    let ws2 = walks(n2.children@);
    let es2 = own(n2);
    assert(ws2 =~= ws.update(i, walk(c2)));
    assert(es2 =~= es.update(i, (k, v2@)));
    lemma_weave_split(ws2, es2, i);
    let wt = ws.take(i + 1);
    assert(ws2.take(i + 1) =~= wt.update(wt.len() - 1, wt.last().drop_last()));
    assert(es2.take(i) =~= es.take(i));
    assert(ws2.skip(i + 1) =~= ws.skip(i + 1));
    assert(es2.skip(i + 1) =~= es.skip(i + 1));
    lemma_weave_drop_last(wt, es.take(i));
    assert(p == weave(wt, es.take(i)));
    assert(p.last() == (k, v2@));
    assert(walk(n2) =~= p.drop_last() + seq![p.last()] + q);
    assert(p.drop_last() + seq![p.last()] =~= p);
    // well-formedness
    if i > 0 {
        assert(ks[i - 1].rank() < k.rank());
    }
    assert(k.rank() < r);
    assert forall|a: int, b: int| 0 <= a < b < ks2.len() implies #[trigger] ks2[a].rank() < #[trigger] ks2[b].rank() by {
        if a == i {
            assert(ks[i].rank() <= ks[b].rank());
        } else if b == i {
            if a < i - 1 {
                assert(ks[a].rank() < ks[i - 1].rank());
            }
        }
    }
    assert forall|t: int| 0 <= t < ks2.len() implies between(lo, hi, #[trigger] ks2[t].rank()) by {
        if t == i {
            if i > 0 {
                assert(between(lo, hi, ks[i - 1].rank()));
            }
            assert(between(lo, hi, ks[i].rank()));
        }
    }
    lemma_wf_kids(n.children@, ks, hh, lo, hi);
    lemma_wf_kids(n2.children@, ks2, hh, lo, hi);
    assert forall|t: int| 0 <= t < n2.children@.len() implies #[trigger] wf_node(
        n2.children@[t],
        hh,
        kid_lo(ks2, lo, t),
        kid_hi(ks2, hi, t),
    ) by {
        if t != i {
            assert(wf_node(n.children@[t], hh, kid_lo(ks, lo, t), kid_hi(ks, hi, t)));
            if t == i + 1 {
                lemma_wf_loosen(n.children@[t], hh, kid_lo(ks, lo, t), kid_hi(ks, hi, t), kid_lo(ks2, lo, t), kid_hi(ks2, hi, t));
            } else {
                assert(kid_lo(ks2, lo, t) == kid_lo(ks, lo, t));
                assert(kid_hi(ks2, hi, t) == kid_hi(ks, hi, t));
            }
        } else {
            assert(kid_lo(ks2, lo, t) == kid_lo(ks, lo, t));
        }
    }
}

/// Removing internal key `i` together with its empty child `i` removes
/// key `i`'s entry from the walk.
proof fn lemma_delete_empty_child<K: Key>(n: Node<K>, n2: Node<K>, h: nat, lo: Option<int>, hi: Option<int>, i: int)
    requires
        wf_node(n, h, lo, hi),
        h > 0,
        0 <= i < n.keys@.len(),
        walk(n.children@[i]).len() == 0,
        n2.keys@ == n.keys@.remove(i),
        n2.values@ == n.values@.remove(i),
        n2.children@ == n.children@.remove(i),
        n2.is_leaf == n.is_leaf,
    ensures
        wf_node(n2, h, lo, hi),
        walk(n2) == seq_remove(walk(n), n.keys@[i].rank()),
        seq_get(walk(n), n.keys@[i].rank()) == Some(n.values@[i]@),
{
    let hh = (h - 1) as nat;
    let ks = n.keys@;
    let ks2 = n2.keys@;
    lemma_walk_key(n, h, lo, hi, i);
    lemma_walk_wf(n, h, lo, hi);
    lemma_own(n, h, lo, hi);
    let (p, q) = split_at_key(n, i);
    lemma_remove_at(walk(n), p.len() as int);
    assert(walk(n).remove(p.len() as int) =~= p + q);
    let ws = walks(n.children@);
    let es = own(n);
    lemma_walks(n.children@);
    lemma_walks(n2.children@);
    assert(walks(n2.children@) =~= ws.remove(i));
    assert(own(n2) =~= es.remove(i));
    lemma_weave_remove(ws, es, i);
    assert forall|a: int, b: int| 0 <= a < b < ks2.len() implies #[trigger] ks2[a].rank() < #[trigger] ks2[b].rank() by {
        let a1 = if a < i { a } else { a + 1 };
        let b1 = if b < i { b } else { b + 1 };
        assert(ks2[a] == ks[a1] && ks2[b] == ks[b1]);
    }
    assert forall|t: int| 0 <= t < ks2.len() implies between(lo, hi, #[trigger] ks2[t].rank()) by {
        let t1 = if t < i { t } else { t + 1 };
        assert(ks2[t] == ks[t1]);
    }
    lemma_wf_kids(n.children@, ks, hh, lo, hi);
    lemma_wf_kids(n2.children@, ks2, hh, lo, hi);
    assert forall|t: int| 0 <= t < n2.children@.len() implies #[trigger] wf_node(
        n2.children@[t],
        hh,
        kid_lo(ks2, lo, t),
        kid_hi(ks2, hi, t),
    ) by {
        if t < i {
            assert(n2.children@[t] == n.children@[t]);
            assert(wf_node(n.children@[t], hh, kid_lo(ks, lo, t), kid_hi(ks, hi, t)));
            assert(kid_lo(ks2, lo, t) == kid_lo(ks, lo, t));
            assert(kid_hi(ks2, hi, t) == kid_hi(ks, hi, t));
        } else {
            assert(n2.children@[t] == n.children@[t + 1]);
            assert(wf_node(n.children@[t + 1], hh, kid_lo(ks, lo, t + 1), kid_hi(ks, hi, t + 1)));
            assert(kid_hi(ks2, hi, t) == kid_hi(ks, hi, t + 1));
            if t > i {
                assert(kid_lo(ks2, lo, t) == kid_lo(ks, lo, t + 1));
            } else if i > 0 {
                assert(ks[i - 1].rank() < ks[i].rank());
            }
            lemma_wf_loosen(n.children@[t + 1], hh, kid_lo(ks, lo, t + 1), kid_hi(ks, hi, t + 1), kid_lo(ks2, lo, t), kid_hi(ks2, hi, t));
        }
    }
}

/// Deletes `key` from the tree under `node`: its value, if it was there.
fn delete_node<K: Key>(node: &mut Node<K>, key: &K, Ghost(h): Ghost<nat>, Ghost(lo): Ghost<Option<int>>, Ghost(hi): Ghost<Option<int>>) -> (r: Option<Value>)
    requires
        wf_node(*old(node), h, lo, hi),
    ensures
        wf_node(*final(node), h, lo, hi),
        walk(*final(node)) == seq_remove(walk(*old(node)), key.rank()),
        match r {
            Some(v) => seq_get(walk(*old(node)), key.rank()) == Some(v@),
            None => seq_get(walk(*old(node)), key.rank()) is None,
        },
    decreases h,
{
    let ghost n0 = *node;
    let ghost kr = key.rank();
    let mut i: usize = 0;
    while i < node.keys.len() && node.keys[i].less_than(key)
        invariant
            *node == n0,
            kr == key.rank(),
            i <= node.keys@.len(),
            forall|j: int| 0 <= j < i ==> #[trigger] node.keys@[j].rank() < kr,
        decreases node.keys@.len() - i,
    {
        i += 1;
    }
    if i < node.keys.len() && node.keys[i].same_as(key) {
        if node.is_leaf {
            node.keys.remove(i);
            let v = node.values.remove(i);
            proof {
                lemma_delete_in_leaf(n0, *node, lo, hi, i as int);
            }
            return Some(v);
        }
        let ghost hh = (h - 1) as nat;
        let ghost clo = kid_lo(n0.keys@, lo, i as int);
        let ghost chi = kid_hi(n0.keys@, hi, i as int);
        proof {
            lemma_wf_kids(n0.children@, n0.keys@, hh, lo, hi);
            assert(wf_node(n0.children@[i as int], hh, clo, chi));
        }
        let mut c = node.children.remove(i);
        match pop_max(&mut c, Ghost(hh), Ghost(clo), Ghost(chi)) {
            Some((k, v2)) => {
                node.children.insert(i, c);
                let v = node.values.remove(i);
                node.values.insert(i, v2);
                node.keys.remove(i);
                node.keys.insert(i, k);
                proof {
                    assert(node.children@ =~= n0.children@.update(i as int, c));
                    assert(node.values@ =~= n0.values@.update(i as int, v2));
                    assert(node.keys@ =~= n0.keys@.update(i as int, k));
                    lemma_delete_swap_max(n0, *node, h, lo, hi, i as int, c, k, v2);
                }
                Some(v)
            },
            None => {
                node.keys.remove(i);
                let v = node.values.remove(i);
                proof {
                    lemma_delete_empty_child(n0, *node, h, lo, hi, i as int);
                }
                Some(v)
            },
        }
    } else {
        proof {
            lemma_own(n0, h, lo, hi);
            if i < node.keys@.len() {
                assert(kr < node.keys@[i as int].rank());
            }
        }
        if node.is_leaf {
            proof {
                let es = own(n0);
                assert forall|t: int| 0 <= t < es.len() implies #[trigger] es[t].0.rank() != kr by {
                    if t > i {
                        assert(n0.keys@[i as int].rank() < n0.keys@[t].rank());
                    }
                }
                lemma_seq_get_absent(es, kr);
                crate::entries::lemma_remove_missing(es, kr);
            }
            return None;
        }
        let ghost hh = (h - 1) as nat;
        let ghost clo = kid_lo(n0.keys@, lo, i as int);
        let ghost chi = kid_hi(n0.keys@, hi, i as int);
        proof {
            lemma_wf_kids(n0.children@, n0.keys@, hh, lo, hi);
            assert(wf_node(n0.children@[i as int], hh, clo, chi));
        }
        let mut c = node.children.remove(i);
        let r = delete_node(&mut c, key, Ghost(hh), Ghost(clo), Ghost(chi));
        node.children.insert(i, c);
        proof {
            assert(node.children@ =~= n0.children@.update(i as int, c));
            lemma_swap_child(n0, *node, h, lo, hi, i as int, kr);
            crate::entries::lemma_remove_concat(pre_of(n0, i as int), walk(n0.children@[i as int]), post_of(n0, i as int), kr);
        }
        r
    }
}

/// Replaces the value at index `j` of `values`.
fn replace_value(values: &mut Vec<Value>, j: usize, v: Value)
    requires
        j < old(values)@.len(),
    ensures
        final(values)@ == old(values)@.update(j as int, v),
{
    values.remove(j);
    values.insert(j, v);
    assert(values@ =~= old(values)@.update(j as int, v));
}

/// Splits the full child `i` of `parent` around its middle key, which
/// moves up into `parent` between the two halves.
fn split_child<K: Key>(parent: &mut Node<K>, i: usize, Ghost(h): Ghost<nat>, Ghost(lo): Ghost<Option<int>>, Ghost(hi): Ghost<Option<int>>)
    requires
        wf_node(*old(parent), h, lo, hi),
        h > 0,
        old(parent).keys@.len() < MAX_KEYS,
        i <= old(parent).keys@.len(),
        old(parent).children@[i as int].keys@.len() == MAX_KEYS,
    ensures
        wf_node(*final(parent), h, lo, hi),
        walk(*final(parent)) == walk(*old(parent)),
        final(parent).keys@ == old(parent).keys@.insert(i as int, old(parent).children@[i as int].keys@[3]),
        final(parent).children@[i as int].keys@.len() == 3,
        final(parent).children@[i + 1].keys@.len() == 3,
{
    let ghost p = *parent;
    let ghost c = p.children@[i as int];
    proof {
        lemma_wf_kids(p.children@, p.keys@, (h - 1) as nat, lo, hi);
        assert(wf_node(c, (h - 1) as nat, kid_lo(p.keys@, lo, i as int), kid_hi(p.keys@, hi, i as int)));
    }
    let mid = MIN_DEGREE - 1;
    let mut child = parent.children.remove(i);
    let right_keys = child.keys.split_off(mid + 1);
    let right_values = child.values.split_off(mid + 1);
    let mid_key = child.keys.pop().unwrap();
    let mid_value = child.values.pop().unwrap();
    let right_children = if !child.children.is_empty() {
        child.children.split_off(mid + 1)
    } else {
        Vec::new()
    };
    let right = Node { keys: right_keys, values: right_values, children: right_children, is_leaf: child.is_leaf };
    parent.keys.insert(i, mid_key);
    parent.values.insert(i, mid_value);
    parent.children.insert(i, child);
    parent.children.insert(i + 1, right);
    proof {
        let p2 = *parent;
        assert(child.keys@ =~= c.keys@.take(3));
        assert(child.values@ =~= c.values@.take(3));
        assert(p2.children@[i as int] == child);
        assert(p2.children@[i + 1] == right);
        if c.is_leaf {
            assert(c.children@.len() == 0);
            assert(child.children@ =~= Seq::<Node<K>>::empty());
        } else {
            assert(c.children@.len() == 8);
            assert(child.children@ =~= c.children@.take(4));
        }
        assert(mid_key == c.keys@[3]);
        assert(mid_value == c.values@[3]);
        assert(p2.keys@ == p.keys@.insert(i as int, c.keys@[3]));
        assert(p2.values@ == p.values@.insert(i as int, c.values@[3]));
        assert(p2.children@.len() == p.children@.len() + 1);
        assert(forall|t: int| 0 <= t < i ==> #[trigger] p2.children@[t] == p.children@[t]);
        assert(forall|t: int| i + 1 < t < p2.children@.len() ==> #[trigger] p2.children@[t] == p.children@[t - 1]);
        assert(right.keys@ == c.keys@.skip(4));
        assert(right.values@ == c.values@.skip(4));
        assert(right.children@ == (if c.is_leaf { Seq::<Node<K>>::empty() } else { c.children@.skip(4) }));
        assert(split_of(p, i as int, p2));
        lemma_split_child(p, h, lo, hi, i as int, p2);
    }
}

/// Puts `key` into the subtree `node`, which is not full: replaces its value
/// if the key is there, and otherwise inserts it in a leaf, splitting full
/// children on the way down.
#[verifier::rlimit(40)]
fn insert_non_full<K: Key>(
    node: &mut Node<K>,
    key: K,
    value: Value,
    Ghost(h): Ghost<nat>,
    Ghost(lo): Ghost<Option<int>>,
    Ghost(hi): Ghost<Option<int>>,
)
    requires
        wf_node(*old(node), h, lo, hi),
        old(node).keys@.len() < MAX_KEYS,
        between(lo, hi, key.rank()),
    ensures
        wf_node(*final(node), h, lo, hi),
        walk(*final(node)) == seq_set(walk(*old(node)), key, value@),
    decreases h,
{
    let ghost n0 = *node;
    let mut i = node.keys.len();
    while i > 0 && key.less_than(&node.keys[i - 1])
        invariant
            *node == n0,
            i <= node.keys@.len(),
            forall|t: int| i <= t < node.keys@.len() ==> #[trigger] node.keys@[t].rank() > key.rank(),
        decreases i,
    {
        i -= 1;
    }
    proof {
        lemma_own(n0, h, lo, hi);
        if i > 0 {
            assert forall|t: int| 0 <= t < i - 1 implies #[trigger] n0.keys@[t].rank() < n0.keys@[i - 1].rank() by {}
        }
    }
    if i > 0 && node.keys[i - 1].same_as(&key) {
        replace_value(&mut node.values, i - 1, value);
        proof {
            lemma_replace_value(n0, *node, h, lo, hi, i - 1, key, value);
        }
        return;
    }
    proof {
        assert forall|t: int| 0 <= t < i implies #[trigger] n0.keys@[t].rank() < key.rank() by {
            if t < i - 1 {
                assert(n0.keys@[t].rank() < n0.keys@[i - 1].rank());
            }
        }
    }
    if node.is_leaf {
        node.keys.insert(i, key);
        node.values.insert(i, value);
        proof {
            lemma_leaf_insert(n0, *node, lo, hi, i as int, key, value);
        }
        return;
    }
    if node.children[i].keys.len() == MAX_KEYS {
        split_child(node, i, Ghost(h), Ghost(lo), Ghost(hi));
        let ghost n1 = *node;
        if node.keys[i].same_as(&key) {
            replace_value(&mut node.values, i, value);
            proof {
                lemma_replace_value(n1, *node, h, lo, hi, i as int, key, value);
            }
            return;
        }
        if node.keys[i].less_than(&key) {
            i += 1;
        }
    }
    let ghost n1 = *node;
    proof {
        lemma_wf_kids(n1.children@, n1.keys@, (h - 1) as nat, lo, hi);
        assert(wf_node(n1.children@[i as int], (h - 1) as nat, kid_lo(n1.keys@, lo, i as int), kid_hi(n1.keys@, hi, i as int)));
        if i > 0 {
            assert(n1.keys@[i - 1].rank() < key.rank());
        }
        if i < n1.keys@.len() {
            assert(key.rank() < n1.keys@[i as int].rank());
        }
        assert(between(lo, hi, key.rank()));
    }
    let mut child = node.children.remove(i);
    insert_non_full(
        &mut child,
        key,
        value,
        Ghost((h - 1) as nat),
        Ghost(kid_lo(n1.keys@, lo, i as int)),
        Ghost(kid_hi(n1.keys@, hi, i as int)),
    );
    node.children.insert(i, child);
    proof {
        lemma_replace_child(n1, *node, h, lo, hi, i as int, key, value);
    }
}


impl<K> Node<K> {
    /// A leaf with no keys.
    fn new_leaf() -> (r: Node<K>)
        ensures
            r.keys@.len() == 0,
            r.values@.len() == 0,
            r.children@.len() == 0,
            r.is_leaf,
    {
        Node { keys: Vec::new(), values: Vec::new(), children: Vec::new(), is_leaf: true }
    }

    /// Is this node full?
    pub fn is_full(&self) -> (r: bool)
        ensures
            r == (self.keys@.len() == MAX_KEYS),
    {
        self.keys.len() == MAX_KEYS
    }
}

/// An in-memory B-tree of keys `K`, with the same two compile-time states
/// as the paged tree: no data methods until it is `Initialized`, and no
/// mutating methods while it is `Locked`.
pub struct BTree<K, State = Uninitialized, LockState = Locked> {
    root: Node<K>,
    height: Ghost<nat>,
    state: PhantomData<State>,
    lock_state: PhantomData<LockState>,
}

impl<K: Key, State, LockState> View for BTree<K, State, LockState> {
    type V = Seq<Entry<K>>;

    /// Every entry of the tree, in key order.
    closed spec fn view(&self) -> Seq<Entry<K>> {
        walk(self.root)
    }
}

impl<K: Key, State, LockState> BTree<K, State, LockState> {
    /// The root is a B-tree of the recorded height.
    pub closed spec fn wf(&self) -> bool {
        wf_node(self.root, self.height@, None, None)
    }

    /// A well-formed tree holds its entries in strictly increasing key
    /// order, so one key is always one entry.
    pub proof fn lemma_sorted(&self)
        requires
            self.wf(),
        ensures
            ordered(self@),
    {
        lemma_walk_wf(self.root, self.height@, None, None);
    }
}

impl<K: Key> BTree<K, Uninitialized, Locked> {
    /// An empty tree: a root leaf with no keys.
    pub fn new() -> (r: BTree<K, Initialized, Locked>)
        ensures
            r.wf(),
            r@ == Seq::<Entry<K>>::empty(),
    {
        let r = BTree { root: Node::new_leaf(), height: Ghost(0), state: PhantomData, lock_state: PhantomData };
        proof {
            assert(own(r.root) =~= Seq::<Entry<K>>::empty());
        }
        r
    }
}

impl<K: Key> BTree<K, Initialized, Locked> {
    /// Consumes a `Locked` tree and returns an `Unlocked` one.
    pub fn unlock(self) -> (r: BTree<K, Initialized, Unlocked>)
        ensures
            r@ == self@,
            r.wf() == self.wf(),
    {
        BTree { root: self.root, height: self.height, state: PhantomData, lock_state: PhantomData }
    }
}

impl<K: Key, LockState> BTree<K, Initialized, LockState> {
    /// Every entry, in key order.
    pub fn range(&self) -> (r: Vec<(K, Value)>)
        requires
            self.wf(),
        ensures
            pairs_view(r@) == self@,
    {
        let mut result: Vec<(K, Value)> = Vec::new();
        range_node(&self.root, &mut result, Ghost(self.height@), Ghost(None), Ghost(None));
        proof {
            assert(pairs_view(Seq::<(K, Value)>::empty()) =~= Seq::<Entry<K>>::empty());
            assert(Seq::<Entry<K>>::empty() + walk(self.root) =~= walk(self.root));
        }
        result
    }

    /// The value stored under `key`, if any.
    pub fn get(&self, key: &K) -> (r: Option<Value>)
        requires
            self.wf(),
        ensures
            match r {
                Some(v) => seq_get(self@, key.rank()) == Some(v@),
                None => seq_get(self@, key.rank()) is None,
            },
    {
        search_node(&self.root, key, Ghost(self.height@), Ghost(None), Ghost(None))
    }

    /// The number of entries.
    pub fn len(&self) -> (r: usize)
        requires
            self.wf(),
            self@.len() <= usize::MAX,
        ensures
            r == self@.len(),
    {
        find_len(&self.root, Ghost(self.height@), Ghost(None), Ghost(None))
    }
}

impl<K: Key> BTree<K, Initialized, Unlocked> {
    /// Puts `value` under `key`: replaces the value if the key is there,
    /// and otherwise inserts it, splitting a full root first.
    pub fn put(&mut self, key: K, value: Value)
        requires
            old(self).wf(),
        ensures
            final(self).wf(),
            final(self)@ == seq_set(old(self)@, key, value@),
    {
        if self.root.is_full() {
            let ghost h = self.height@;
            let mut old_root = Node::new_leaf();
            std::mem::swap(&mut old_root, &mut self.root);
            let mut children: Vec<Node<K>> = Vec::new();
            children.push(old_root);
            let mut new_root = Node { keys: Vec::new(), values: Vec::new(), children, is_leaf: false };
            proof {
                lemma_wf_kids(new_root.children@, new_root.keys@, h, None, None);
                assert(new_root.children@[0] == old_root);
                assert(wf_node(new_root, h + 1, None, None));
                lemma_walks(new_root.children@);
                assert(own(new_root) =~= Seq::<Entry<K>>::empty());
                assert(walk(new_root) == walk(old_root));
            }
            split_child(&mut new_root, 0, Ghost(h + 1), Ghost(None), Ghost(None));
            self.root = new_root;
            self.height = Ghost(h + 1);
        }
        insert_non_full(&mut self.root, key, value, Ghost(self.height@), Ghost(None), Ghost(None));
    }

    /// Removes `key` if present, returning `(true, Some(previous_value))`,
    /// or `(false, None)` if it was absent. A key in an internal node gives
    /// way to the greatest key below it.
    pub fn delete(&mut self, key: K) -> (r: (bool, Option<Value>))
        requires
            old(self).wf(),
        ensures
            final(self).wf(),
            final(self)@ == seq_remove(old(self)@, key.rank()),
            r.0 == (seq_get(old(self)@, key.rank()) is Some),
            match r.1 {
                Some(v) => seq_get(old(self)@, key.rank()) == Some(v@),
                None => seq_get(old(self)@, key.rank()) is None,
            },
    {
        let ghost h = self.height@;
        let found = delete_node(&mut self.root, &key, Ghost(h), Ghost(None), Ghost(None));
        match found {
            Some(v) => (true, Some(v)),
            None => (false, None),
        }
    }

    /// Consumes an `Unlocked` tree and returns a `Locked` one.
    pub fn lock(self) -> (r: BTree<K, Initialized, Locked>)
        ensures
            r@ == self@,
            r.wf() == self.wf(),
    {
        BTree { root: self.root, height: self.height, state: PhantomData, lock_state: PhantomData }
    }
}

} // verus!
