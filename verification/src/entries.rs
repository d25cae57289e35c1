//! What `put`, `update` and `delete` do to an ordered sequence of entries:
//! where a leaf changes, and how a change under one child shows in the whole.

use vstd::prelude::*;

use crate::key::Key;
use crate::tree::{ordered, seq_get, seq_put, seq_remove, seq_set, Entry};
use crate::value::{accumulated, ValueModel};

verus! {

/// Every entry's key ranks below `r`.
pub open spec fn all_below<K: Key>(es: Seq<Entry<K>>, r: int) -> bool {
    forall|i: int| 0 <= i < es.len() ==> #[trigger] es[i].0.rank() < r
}

/// Every entry's key ranks above `r`.
pub open spec fn all_above<K: Key>(es: Seq<Entry<K>>, r: int) -> bool {
    forall|i: int| 0 <= i < es.len() ==> #[trigger] es[i].0.rank() > r
}

proof fn lemma_drop_first_ordered<K: Key>(es: Seq<Entry<K>>)
    requires
        ordered(es),
        es.len() > 0,
    ensures
        ordered(es.drop_first()),
{
    let t = es.drop_first();
    assert forall|a: int, b: int| 0 <= a < b < t.len() implies #[trigger] t[a].0.rank() < #[trigger] t[b].0.rank() by {
        assert(t[a] == es[a + 1] && t[b] == es[b + 1]);
    }
}

proof fn lemma_put_suffix<K: Key>(mid: Seq<Entry<K>>, suf: Seq<Entry<K>>, k: K, v: ValueModel)
    requires
        all_above(suf, k.rank()),
    ensures
        seq_put(mid + suf, k, v) == seq_put(mid, k, v) + suf,
        seq_set(mid + suf, k, v) == seq_set(mid, k, v) + suf,
    decreases mid.len(),
{
    if mid.len() == 0 {
        assert(mid + suf =~= suf);
        if suf.len() > 0 {
            assert(suf[0].0.rank() > k.rank());
        }
        assert(seq_put(suf, k, v) =~= seq_put(mid, k, v) + suf);
        assert(seq_set(suf, k, v) =~= seq_set(mid, k, v) + suf);
    } else {
        assert((mid + suf)[0] == mid[0]);
        assert((mid + suf).drop_first() =~= mid.drop_first() + suf);
        lemma_put_suffix(mid.drop_first(), suf, k, v);
        assert(seq_put(mid + suf, k, v) =~= seq_put(mid, k, v) + suf);
        assert(seq_set(mid + suf, k, v) =~= seq_set(mid, k, v) + suf);
    }
}

/// A put that lands between a prefix of smaller keys and a suffix of larger
/// ones changes only the middle.
pub proof fn lemma_put_concat<K: Key>(
    pre: Seq<Entry<K>>,
    mid: Seq<Entry<K>>,
    suf: Seq<Entry<K>>,
    k: K,
    v: ValueModel,
)
    requires
        all_below(pre, k.rank()),
        all_above(suf, k.rank()),
    ensures
        seq_put(pre + mid + suf, k, v) == pre + seq_put(mid, k, v) + suf,
        seq_set(pre + mid + suf, k, v) == pre + seq_set(mid, k, v) + suf,
    decreases pre.len(),
{
    if pre.len() == 0 {
        assert(pre + mid + suf =~= mid + suf);
        lemma_put_suffix(mid, suf, k, v);
        assert(pre + seq_put(mid, k, v) + suf =~= seq_put(mid, k, v) + suf);
        assert(pre + seq_set(mid, k, v) + suf =~= seq_set(mid, k, v) + suf);
    } else {
        let all = pre + mid + suf;
        assert(all[0] == pre[0]);
        assert(pre[0].0.rank() < k.rank());
        assert(all.drop_first() =~= pre.drop_first() + mid + suf);
        assert forall|i: int| 0 <= i < pre.drop_first().len() implies #[trigger] pre.drop_first()[i].0.rank() < k.rank() by {
            assert(pre.drop_first()[i] == pre[i + 1]);
        }
        lemma_put_concat(pre.drop_first(), mid, suf, k, v);
        assert(seq_put(all, k, v) =~= pre + seq_put(mid, k, v) + suf);
        assert(seq_set(all, k, v) =~= pre + seq_set(mid, k, v) + suf);
    }
}

proof fn lemma_remove_absent<K: Key>(es: Seq<Entry<K>>, r: int)
    requires
        forall|i: int| 0 <= i < es.len() ==> #[trigger] es[i].0.rank() != r,
    ensures
        seq_remove(es, r) == es,
    decreases es.len(),
{
    if es.len() > 0 {
        assert forall|i: int| 0 <= i < es.drop_first().len() implies #[trigger] es.drop_first()[i].0.rank() != r by {
            assert(es.drop_first()[i] == es[i + 1]);
        }
        lemma_remove_absent(es.drop_first(), r);
        assert(seq_remove(es, r) =~= es);
    }
}

proof fn lemma_remove_suffix<K: Key>(mid: Seq<Entry<K>>, suf: Seq<Entry<K>>, r: int)
    requires
        all_above(suf, r),
    ensures
        seq_remove(mid + suf, r) == seq_remove(mid, r) + suf,
    decreases mid.len(),
{
    if mid.len() == 0 {
        assert(mid + suf =~= suf);
        assert forall|i: int| 0 <= i < suf.len() implies #[trigger] suf[i].0.rank() != r by {
            assert(suf[i].0.rank() > r);
        }
        lemma_remove_absent(suf, r);
        assert(seq_remove(mid, r) + suf =~= suf);
    } else {
        assert((mid + suf)[0] == mid[0]);
        assert((mid + suf).drop_first() =~= mid.drop_first() + suf);
        lemma_remove_suffix(mid.drop_first(), suf, r);
        assert(seq_remove(mid + suf, r) =~= seq_remove(mid, r) + suf);
    }
}

/// A delete whose key lies between a prefix of smaller keys and a suffix of
/// larger ones changes only the middle.
pub proof fn lemma_remove_concat<K: Key>(pre: Seq<Entry<K>>, mid: Seq<Entry<K>>, suf: Seq<Entry<K>>, r: int)
    requires
        all_below(pre, r),
        all_above(suf, r),
    ensures
        seq_remove(pre + mid + suf, r) == pre + seq_remove(mid, r) + suf,
    decreases pre.len(),
{
    if pre.len() == 0 {
        assert(pre + mid + suf =~= mid + suf);
        lemma_remove_suffix(mid, suf, r);
        assert(pre + seq_remove(mid, r) + suf =~= seq_remove(mid, r) + suf);
    } else {
        let all = pre + mid + suf;
        assert(all[0] == pre[0]);
        assert(all.drop_first() =~= pre.drop_first() + mid + suf);
        assert forall|i: int| 0 <= i < pre.drop_first().len() implies #[trigger] pre.drop_first()[i].0.rank() < r by {
            assert(pre.drop_first()[i] == pre[i + 1]);
        }
        lemma_remove_concat(pre.drop_first(), mid, suf, r);
        assert(seq_remove(all, r) =~= pre + seq_remove(mid, r) + suf);
    }
}

/// A put of a key already present at position `i` accumulates into its value.
pub proof fn lemma_put_at<K: Key>(es: Seq<Entry<K>>, k: K, v: ValueModel, i: int)
    requires
        ordered(es),
        0 <= i < es.len(),
        es[i].0.rank() == k.rank(),
    ensures
        seq_put(es, k, v) == es.update(i, (es[i].0, accumulated(es[i].1, v))),
        seq_set(es, k, v) == es.update(i, (es[i].0, v)),
    decreases i,
{
    if i == 0 {
        assert(seq_put(es, k, v) =~= es.update(i, (es[i].0, accumulated(es[i].1, v))));
        assert(seq_set(es, k, v) =~= es.update(i, (es[i].0, v)));
    } else {
        assert(es[0].0.rank() < es[i].0.rank());
        lemma_drop_first_ordered(es);
        assert(es.drop_first()[i - 1] == es[i]);
        lemma_put_at(es.drop_first(), k, v, i - 1);
        assert(seq_put(es, k, v) =~= es.update(i, (es[i].0, accumulated(es[i].1, v))));
        assert(seq_set(es, k, v) =~= es.update(i, (es[i].0, v)));
    }
}

/// A put of a new key inserts it where the keys before are smaller and the
/// keys after are larger.
pub proof fn lemma_put_new<K: Key>(es: Seq<Entry<K>>, k: K, v: ValueModel, i: int)
    requires
        0 <= i <= es.len(),
        forall|j: int| 0 <= j < i ==> #[trigger] es[j].0.rank() < k.rank(),
        forall|j: int| i <= j < es.len() ==> #[trigger] es[j].0.rank() > k.rank(),
    ensures
        seq_put(es, k, v) == es.insert(i, (k, v)),
        seq_set(es, k, v) == es.insert(i, (k, v)),
    decreases i,
{
    if i == 0 {
        if es.len() > 0 {
            assert(es[0].0.rank() > k.rank());
        }
        assert(seq_put(es, k, v) =~= es.insert(i, (k, v)));
        assert(seq_set(es, k, v) =~= es.insert(i, (k, v)));
    } else {
        assert(es[0].0.rank() < k.rank());
        let t = es.drop_first();
        assert forall|j: int| 0 <= j < i - 1 implies #[trigger] t[j].0.rank() < k.rank() by {
            assert(t[j] == es[j + 1]);
        }
        assert forall|j: int| i - 1 <= j < t.len() implies #[trigger] t[j].0.rank() > k.rank() by {
            assert(t[j] == es[j + 1]);
        }
        lemma_put_new(t, k, v, i - 1);
        assert(seq_put(es, k, v) =~= es.insert(i, (k, v)));
        assert(seq_set(es, k, v) =~= es.insert(i, (k, v)));
    }
}

/// Deleting the key at position `i` removes that entry.
pub proof fn lemma_remove_at<K: Key>(es: Seq<Entry<K>>, i: int)
    requires
        ordered(es),
        0 <= i < es.len(),
    ensures
        seq_remove(es, es[i].0.rank()) == es.remove(i),
    decreases i,
{
    let r = es[i].0.rank();
    if i == 0 {
        assert(seq_remove(es, r) =~= es.remove(i));
    } else {
        assert(es[0].0.rank() < es[i].0.rank());
        lemma_drop_first_ordered(es);
        assert(es.drop_first()[i - 1] == es[i]);
        lemma_remove_at(es.drop_first(), i - 1);
        assert(seq_remove(es, r) =~= es.remove(i));
    }
}

/// Deleting a key that is absent changes nothing.
pub proof fn lemma_remove_missing<K: Key>(es: Seq<Entry<K>>, r: int)
    requires
        forall|i: int| 0 <= i < es.len() ==> #[trigger] es[i].0.rank() != r,
    ensures
        seq_remove(es, r) == es,
{
    lemma_remove_absent(es, r);
}

/// For a key that is absent, `put` and `update` insert it alike.
pub proof fn lemma_put_set_absent<K: Key>(es: Seq<Entry<K>>, k: K, v: ValueModel)
    requires
        seq_get(es, k.rank()) is None,
    ensures
        seq_put(es, k, v) == seq_set(es, k, v),
    decreases es.len(),
{
    if es.len() > 0 {
        lemma_put_set_absent(es.drop_first(), k, v);
    }
}

} // verus!
