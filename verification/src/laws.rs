//! What holds of every tree across its operations: entries stay in key
//! order, one key is always one entry, a read gives back what the last
//! write left, and a write touches no other key.

use vstd::prelude::*;

use crate::btree::{BTree, Initialized};
use crate::key::Key;
use crate::tree::{lemma_entries_ordered, ordered, put_result, seq_get, seq_put, seq_remove, seq_set, Entry};
use crate::value::ValueModel;

verus! {

proof fn lemma_ordered_tail<K: Key>(es: Seq<Entry<K>>)
    requires
        ordered(es),
        es.len() > 0,
    ensures
        ordered(es.drop_first()),
        forall|i: int| 0 <= i < es.drop_first().len() ==> es[0].0.rank() < #[trigger] es.drop_first()[i].0.rank(),
{
    let t = es.drop_first();
    assert forall|a: int, b: int| 0 <= a < b < t.len() implies #[trigger] t[a].0.rank() < #[trigger] t[b].0.rank() by {
        assert(t[a] == es[a + 1] && t[b] == es[b + 1]);
    }
    assert forall|i: int| 0 <= i < t.len() implies es[0].0.rank() < #[trigger] t[i].0.rank() by {
        assert(t[i] == es[i + 1]);
    }
}

proof fn lemma_ordered_cons<K: Key>(e: Entry<K>, es: Seq<Entry<K>>)
    requires
        ordered(es),
        forall|i: int| 0 <= i < es.len() ==> e.0.rank() < #[trigger] es[i].0.rank(),
    ensures
        ordered(seq![e] + es),
{
    let s = seq![e] + es;
    assert forall|a: int, b: int| 0 <= a < b < s.len() implies #[trigger] s[a].0.rank() < #[trigger] s[b].0.rank() by {
        assert(s[b] == es[b - 1]);
        if a > 0 {
            assert(s[a] == es[a - 1]);
        }
    }
}

/// A lookup in a sequence with one more entry in front.
proof fn lemma_get_cons<K: Key>(e: Entry<K>, es: Seq<Entry<K>>, r: int)
    ensures
        seq_get(seq![e] + es, r) == (if e.0.rank() == r { Some(e.1) } else { seq_get(es, r) }),
{
    assert((seq![e] + es).drop_first() =~= es);
    assert((seq![e] + es)[0] == e);
}

/// Every key of a sequence ranks at least as high as its first.
proof fn lemma_get_absent_below<K: Key>(es: Seq<Entry<K>>, r: int)
    requires
        ordered(es),
        es.len() > 0,
        r < es[0].0.rank(),
    ensures
        seq_get(es, r) is None,
{
    assert forall|i: int| 0 <= i < es.len() implies #[trigger] es[i].0.rank() != r by {
        if i > 0 {
            assert(es[0].0.rank() < es[i].0.rank());
        }
    }
    crate::tree::lemma_seq_get_absent(es, r);
}

/// A `put` keeps the entries in key order, leaves one entry under its key,
/// holding the value (or the accumulator built from it), and changes no
/// other key; it adds an entry exactly when the key was absent.
pub proof fn lemma_put_law<K: Key>(es: Seq<Entry<K>>, k: K, v: ValueModel)
    requires
        ordered(es),
    ensures
        ordered(seq_put(es, k, v)),
        seq_get(seq_put(es, k, v), k.rank()) == Some(put_result(seq_get(es, k.rank()), v)),
        forall|r: int| r != k.rank() ==> #[trigger] seq_get(seq_put(es, k, v), r) == seq_get(es, r),
        seq_put(es, k, v).len() == es.len() + (if seq_get(es, k.rank()) is Some { 0int } else { 1int }),
        forall|i: int| 0 <= i < seq_put(es, k, v).len() ==> #[trigger] seq_put(es, k, v)[i].0.rank() == k.rank()
            || exists|j: int| 0 <= j < es.len() && es[j].0.rank() == seq_put(es, k, v)[i].0.rank(),
    decreases es.len(),
{
    let out = seq_put(es, k, v);
    if es.len() > 0 {
        assert(es =~= seq![es[0]] + es.drop_first());
    }
    if es.len() == 0 {
        assert(out =~= seq![(k, v)] + Seq::<Entry<K>>::empty());
        assert forall|r: int| r != k.rank() implies #[trigger] seq_get(out, r) == seq_get(es, r) by {
            lemma_get_cons((k, v), Seq::<Entry<K>>::empty(), r);
        }
        lemma_get_cons((k, v), Seq::<Entry<K>>::empty(), k.rank());
    } else if es[0].0.rank() == k.rank() {
        lemma_ordered_tail(es);
        lemma_ordered_cons((es[0].0, crate::value::accumulated(es[0].1, v)), es.drop_first());
        assert(out.drop_first() =~= es.drop_first());
        assert forall|r: int| r != k.rank() implies #[trigger] seq_get(out, r) == seq_get(es, r) by {
            lemma_get_cons((es[0].0, crate::value::accumulated(es[0].1, v)), es.drop_first(), r);
            lemma_get_cons(es[0], es.drop_first(), r);
        }
        assert forall|i: int| 0 <= i < out.len() implies #[trigger] out[i].0.rank() == k.rank() || exists|j: int|
            0 <= j < es.len() && es[j].0.rank() == out[i].0.rank() by {
            if i > 0 {
                assert(out[i] == es[i]);
            }
        }
    } else if k.rank() < es[0].0.rank() {
        assert forall|i: int| 0 <= i < es.len() implies k.rank() < #[trigger] es[i].0.rank() by {
            if i > 0 {
                assert(es[0].0.rank() < es[i].0.rank());
            }
        }
        lemma_ordered_cons((k, v), es);
        lemma_get_absent_below(es, k.rank());
        assert(out.drop_first() =~= es);
        assert forall|i: int| 0 <= i < out.len() implies #[trigger] out[i].0.rank() == k.rank() || exists|j: int|
            0 <= j < es.len() && es[j].0.rank() == out[i].0.rank() by {
            if i > 0 {
                assert(out[i] == es[i - 1]);
            }
        }
        assert forall|r: int| r != k.rank() implies #[trigger] seq_get(out, r) == seq_get(es, r) by {
            lemma_get_cons((k, v), es, r);
        }
        lemma_get_cons((k, v), es, k.rank());
    } else {
        let t = es.drop_first();
        lemma_ordered_tail(es);
        lemma_put_law(t, k, v);
        let pt = seq_put(t, k, v);
        assert(out == seq![es[0]] + pt);
        assert forall|r: int| r != k.rank() implies #[trigger] seq_get(out, r) == seq_get(es, r) by {
            lemma_get_cons(es[0], pt, r);
            lemma_get_cons(es[0], t, r);
        }
        lemma_get_cons(es[0], pt, k.rank());
        lemma_get_cons(es[0], t, k.rank());
        assert forall|i: int| 0 <= i < pt.len() implies es[0].0.rank() < #[trigger] pt[i].0.rank() by {
            if pt[i].0.rank() != k.rank() {
                let j = choose|j: int| 0 <= j < t.len() && t[j].0.rank() == pt[i].0.rank();
            }
        }
        lemma_ordered_cons(es[0], pt);
        assert((seq![es[0]] + pt).drop_first() =~= pt);
        assert forall|i: int| 0 <= i < out.len() implies #[trigger] out[i].0.rank() == k.rank() || exists|j: int|
            0 <= j < es.len() && es[j].0.rank() == out[i].0.rank() by {
            if i == 0 {
                assert(es[0].0.rank() == out[0].0.rank());
            } else {
                assert(out[i] == pt[i - 1]);
                if pt[i - 1].0.rank() != k.rank() {
                    let j = choose|j: int| 0 <= j < t.len() && t[j].0.rank() == pt[i - 1].0.rank();
                    assert(t[j] == es[j + 1]);
                }
            }
        }
    }
}

/// An `update` keeps the entries in key order, leaves exactly the new value
/// under its key, and changes no other key; it adds an entry exactly when
/// the key was absent.
pub proof fn lemma_update_law<K: Key>(es: Seq<Entry<K>>, k: K, v: ValueModel)
    requires
        ordered(es),
    ensures
        ordered(seq_set(es, k, v)),
        seq_get(seq_set(es, k, v), k.rank()) == Some(v),
        forall|r: int| r != k.rank() ==> #[trigger] seq_get(seq_set(es, k, v), r) == seq_get(es, r),
        seq_set(es, k, v).len() == es.len() + (if seq_get(es, k.rank()) is Some { 0int } else { 1int }),
        forall|i: int| 0 <= i < seq_set(es, k, v).len() ==> #[trigger] seq_set(es, k, v)[i].0.rank() == k.rank()
            || exists|j: int| 0 <= j < es.len() && es[j].0.rank() == seq_set(es, k, v)[i].0.rank(),
    decreases es.len(),
{
    let out = seq_set(es, k, v);
    if es.len() > 0 {
        assert(es =~= seq![es[0]] + es.drop_first());
    }
    if es.len() == 0 {
        assert(out =~= seq![(k, v)] + Seq::<Entry<K>>::empty());
        assert forall|r: int| r != k.rank() implies #[trigger] seq_get(out, r) == seq_get(es, r) by {
            lemma_get_cons((k, v), Seq::<Entry<K>>::empty(), r);
        }
        lemma_get_cons((k, v), Seq::<Entry<K>>::empty(), k.rank());
    } else if es[0].0.rank() == k.rank() {
        lemma_ordered_tail(es);
        lemma_ordered_cons((es[0].0, v), es.drop_first());
        assert(out.drop_first() =~= es.drop_first());
        assert forall|r: int| r != k.rank() implies #[trigger] seq_get(out, r) == seq_get(es, r) by {
            lemma_get_cons((es[0].0, v), es.drop_first(), r);
            lemma_get_cons(es[0], es.drop_first(), r);
        }
        assert forall|i: int| 0 <= i < out.len() implies #[trigger] out[i].0.rank() == k.rank() || exists|j: int|
            0 <= j < es.len() && es[j].0.rank() == out[i].0.rank() by {
            if i > 0 {
                assert(out[i] == es[i]);
            }
        }
    } else if k.rank() < es[0].0.rank() {
        assert forall|i: int| 0 <= i < es.len() implies k.rank() < #[trigger] es[i].0.rank() by {
            if i > 0 {
                assert(es[0].0.rank() < es[i].0.rank());
            }
        }
        lemma_ordered_cons((k, v), es);
        lemma_get_absent_below(es, k.rank());
        assert(out.drop_first() =~= es);
        assert forall|i: int| 0 <= i < out.len() implies #[trigger] out[i].0.rank() == k.rank() || exists|j: int|
            0 <= j < es.len() && es[j].0.rank() == out[i].0.rank() by {
            if i > 0 {
                assert(out[i] == es[i - 1]);
            }
        }
        assert forall|r: int| r != k.rank() implies #[trigger] seq_get(out, r) == seq_get(es, r) by {
            lemma_get_cons((k, v), es, r);
        }
        lemma_get_cons((k, v), es, k.rank());
    } else {
        let t = es.drop_first();
        lemma_ordered_tail(es);
        lemma_update_law(t, k, v);
        let pt = seq_set(t, k, v);
        assert(out == seq![es[0]] + pt);
        assert forall|r: int| r != k.rank() implies #[trigger] seq_get(out, r) == seq_get(es, r) by {
            lemma_get_cons(es[0], pt, r);
            lemma_get_cons(es[0], t, r);
        }
        lemma_get_cons(es[0], pt, k.rank());
        lemma_get_cons(es[0], t, k.rank());
        assert forall|i: int| 0 <= i < pt.len() implies es[0].0.rank() < #[trigger] pt[i].0.rank() by {
            if pt[i].0.rank() != k.rank() {
                let j = choose|j: int| 0 <= j < t.len() && t[j].0.rank() == pt[i].0.rank();
            }
        }
        lemma_ordered_cons(es[0], pt);
        assert((seq![es[0]] + pt).drop_first() =~= pt);
        assert forall|i: int| 0 <= i < out.len() implies #[trigger] out[i].0.rank() == k.rank() || exists|j: int|
            0 <= j < es.len() && es[j].0.rank() == out[i].0.rank() by {
            if i == 0 {
                assert(es[0].0.rank() == out[0].0.rank());
            } else {
                assert(out[i] == pt[i - 1]);
                if pt[i - 1].0.rank() != k.rank() {
                    let j = choose|j: int| 0 <= j < t.len() && t[j].0.rank() == pt[i - 1].0.rank();
                    assert(t[j] == es[j + 1]);
                }
            }
        }
    }
}

/// A `delete` keeps the entries in key order, leaves nothing under its key,
/// and changes no other key; it removes an entry exactly when the key was there.
pub proof fn lemma_delete_law<K: Key>(es: Seq<Entry<K>>, r: int)
    requires
        ordered(es),
    ensures
        ordered(seq_remove(es, r)),
        seq_get(seq_remove(es, r), r) is None,
        forall|q: int| q != r ==> #[trigger] seq_get(seq_remove(es, r), q) == seq_get(es, q),
        seq_remove(es, r).len() == es.len() - (if seq_get(es, r) is Some { 1int } else { 0int }),
        forall|i: int| 0 <= i < seq_remove(es, r).len() ==> exists|j: int|
            0 <= j < es.len() && es[j] == #[trigger] seq_remove(es, r)[i],
    decreases es.len(),
{
    let out = seq_remove(es, r);
    if es.len() > 0 {
        assert(es =~= seq![es[0]] + es.drop_first());
    }
    if es.len() == 0 {
    } else if es[0].0.rank() == r {
        lemma_ordered_tail(es);
        let t = es.drop_first();
        if t.len() > 0 {
            lemma_get_absent_below(t, r);
        }
        assert forall|q: int| q != r implies #[trigger] seq_get(out, q) == seq_get(es, q) by {
            lemma_get_cons(es[0], t, q);
        }
        lemma_get_cons(es[0], t, r);
        assert forall|i: int| 0 <= i < out.len() implies exists|j: int| 0 <= j < es.len() && es[j] == #[trigger] out[i] by {
            assert(out[i] == es[i + 1]);
        }
    } else {
        let t = es.drop_first();
        lemma_ordered_tail(es);
        lemma_delete_law(t, r);
        let pt = seq_remove(t, r);
        assert(out == seq![es[0]] + pt);
        assert forall|q: int| q != r implies #[trigger] seq_get(out, q) == seq_get(es, q) by {
            lemma_get_cons(es[0], pt, q);
            lemma_get_cons(es[0], t, q);
        }
        lemma_get_cons(es[0], pt, r);
        lemma_get_cons(es[0], t, r);
        assert forall|i: int| 0 <= i < pt.len() implies es[0].0.rank() < #[trigger] pt[i].0.rank() by {
            let j = choose|j: int| 0 <= j < t.len() && t[j] == pt[i];
        }
        lemma_ordered_cons(es[0], pt);
        assert((seq![es[0]] + pt).drop_first() =~= pt);
        assert forall|i: int| 0 <= i < out.len() implies exists|j: int| 0 <= j < es.len() && es[j] == #[trigger] out[i] by {
            if i == 0 {
                assert(es[0] == out[0]);
            } else {
                assert(out[i] == pt[i - 1]);
                let j = choose|j: int| 0 <= j < t.len() && t[j] == pt[i - 1];
                assert(t[j] == es[j + 1]);
            }
        }
    }
}

/// Accumulating never splices into a caller's own list: a `put` on a key
/// holding a single value, a list among them, leaves both values side by
/// side in one `Multi`, in the order they arrived; a `put` on a key that
/// already holds a `Multi` appends to it.
pub proof fn lemma_put_keeps_values_whole<K: Key>(es: Seq<Entry<K>>, k: K, v: ValueModel)
    requires
        ordered(es),
    ensures
        match seq_get(es, k.rank()) {
            None => seq_get(seq_put(es, k, v), k.rank()) == Some(v),
            Some(ValueModel::Multi(vs)) => seq_get(seq_put(es, k, v), k.rank()) == Some(
                ValueModel::Multi(vs.push(v)),
            ),
            Some(old) => seq_get(seq_put(es, k, v), k.rank()) == Some(ValueModel::Multi(seq![old, v])),
        },
{
    lemma_put_law(es, k, v);
}

impl<K: Key, LockState> BTree<K, Initialized, LockState> {
    /// A well-formed tree holds its entries in strictly increasing key order,
    /// so one key is always one entry.
    pub proof fn lemma_sorted(&self)
        requires
            self.wf(),
        ensures
            ordered(self@),
    {
        self.lemma_state();
        let st = self.state();
        lemma_entries_ordered(st.nodes::<K>(), st.root_id, st.height as int, None, None, None);
    }
}

} // verus!
