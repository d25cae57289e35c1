//! How a node is laid out as a [`Value`] before a codec turns it into bytes.
//!
//! A node becomes the five-field list `[is_leaf, keys, values, children, next]`:
//! `is_leaf` is `UInt8(1)` or `UInt8(0)`, each key is a `Bytes` blob, each
//! child is a `UInt64` page id, and `next` is an empty list or a list of one
//! `UInt64`. A leaf leaves `children` empty; an internal node leaves
//! `values` and `next` empty.

use vstd::prelude::*;

use crate::error::{DbError, PageId, ValueError};
use crate::key::Key;
use crate::node::{Node, NodeModel};
use crate::value::{lemma_views, views, Value, ValueModel};

verus! {

/// The number of fields in a page's layout.
pub const FIELDS: usize = 5;

pub open spec fn keys_layout<K: Key>(keys: Seq<K>) -> Seq<ValueModel> {
    Seq::new(keys.len(), |i: int| ValueModel::Bytes(keys[i].spec_encoded()))
}

pub open spec fn children_layout(children: Seq<PageId>) -> Seq<ValueModel> {
    Seq::new(children.len(), |i: int| ValueModel::UInt64(children[i]))
}

pub open spec fn next_layout(next: Option<PageId>) -> Seq<ValueModel> {
    match next {
        Some(id) => seq![ValueModel::UInt64(id)],
        None => Seq::empty(),
    }
}

/// The model of the value a node is laid out as.
pub open spec fn layout_value<K: Key>(n: NodeModel<K>) -> ValueModel {
    ValueModel::List(
        seq![
            ValueModel::UInt8(if n.is_leaf { 1 } else { 0 }),
            ValueModel::List(keys_layout(n.keys)),
            ValueModel::List(n.values),
            ValueModel::List(children_layout(n.children)),
            ValueModel::List(next_layout(n.next)),
        ],
    )
}

/// The keys a laid-out key list stands for, if every entry is a key blob.
pub open spec fn decode_keys<K: Key>(s: Seq<ValueModel>) -> Option<Seq<K>>
    decreases s.len(),
{
    if s.len() == 0 {
        Some(Seq::empty())
    } else {
        match (decode_keys::<K>(s.drop_last()), s.last()) {
            (Some(ks), ValueModel::Bytes(b)) => match K::spec_decoded(b) {
                Some(k) => Some(ks.push(k)),
                None => None,
            },
            _ => None,
        }
    }
}

/// The page ids a laid-out child list stands for, if every entry is one.
pub open spec fn decode_children(s: Seq<ValueModel>) -> Option<Seq<PageId>>
    decreases s.len(),
{
    if s.len() == 0 {
        Some(Seq::empty())
    } else {
        match (decode_children(s.drop_last()), s.last()) {
            (Some(cs), ValueModel::UInt64(id)) => Some(cs.push(id)),
            _ => None,
        }
    }
}

pub open spec fn decode_next(s: Seq<ValueModel>) -> Option<Option<PageId>> {
    if s.len() == 0 {
        Some(None)
    } else if s.len() == 1 {
        match s[0] {
            ValueModel::UInt64(id) => Some(Some(id)),
            _ => None,
        }
    } else {
        None
    }
}

/// The node a page's value stands for, if it has the page layout.
pub open spec fn layout_node<K: Key>(m: ValueModel) -> Option<NodeModel<K>> {
    match m {
        ValueModel::List(fields) => if fields.len() != 5 {
            None
        } else {
            match (fields[0], fields[1], fields[2], fields[3], fields[4]) {
                (
                    ValueModel::UInt8(flag),
                    ValueModel::List(ks),
                    ValueModel::List(vs),
                    ValueModel::List(cs),
                    ValueModel::List(nx),
                ) => match (decode_keys::<K>(ks), decode_children(cs), decode_next(nx)) {
                    (Some(keys), Some(children), Some(next)) => Some(
                        NodeModel { keys, values: vs, children, next, is_leaf: flag != 0 },
                    ),
                    _ => None,
                },
                _ => None,
            }
        },
        _ => None,
    }
}

pub proof fn lemma_decode_keys<K: Key>(keys: Seq<K>)
    ensures
        decode_keys::<K>(keys_layout(keys)) == Some(keys),
    decreases keys.len(),
{
    if keys.len() > 0 {
        lemma_decode_keys(keys.drop_last());
        assert(keys_layout(keys).drop_last() =~= keys_layout(keys.drop_last()));
        K::lemma_decode_encode(keys.last());
        assert(keys.drop_last().push(keys.last()) =~= keys);
    } else {
        assert(keys_layout(keys) =~= Seq::<ValueModel>::empty());
        assert(keys =~= Seq::<K>::empty());
    }
}

pub proof fn lemma_decode_children(children: Seq<PageId>)
    ensures
        decode_children(children_layout(children)) == Some(children),
    decreases children.len(),
{
    if children.len() > 0 {
        lemma_decode_children(children.drop_last());
        assert(children_layout(children).drop_last() =~= children_layout(children.drop_last()));
        assert(children.drop_last().push(children.last()) =~= children);
    } else {
        assert(children_layout(children) =~= Seq::<ValueModel>::empty());
        assert(children =~= Seq::<PageId>::empty());
    }
}

/// A laid-out node reads back as itself.
pub proof fn lemma_layout_round_trip<K: Key>(n: NodeModel<K>)
    ensures
        layout_node::<K>(layout_value(n)) == Some(n),
{
    lemma_decode_keys(n.keys);
    lemma_decode_children(n.children);
}

fn field_error(codec: &'static str, field: &str) -> (r: ValueError)
    ensures
        r is Decode,
        r->codec == codec,
{
    let mut message = "page field ".to_string();
    message.append(field);
    message.append(": unexpected value");
    ValueError::decode(codec, message)
}

/// Lays `node` out as a page value.
///
/// Key encodings cannot fail, so this always succeeds; a failing key encoding
/// would surface as [`DbError::KeyEncode`].
pub fn to_value<K: Key>(node: &Node<K>) -> (r: Result<Value, DbError>)
    ensures
        r is Ok,
        r matches Ok(v) ==> v@ == layout_value(node@),
{
    let mut keys: Vec<Value> = Vec::new();
    let mut i: usize = 0;
    while i < node.keys.len()
        invariant
            i <= node.keys@.len(),
            keys@.len() == i,
            forall|j: int| 0 <= j < i ==> #[trigger] keys@[j]@ == ValueModel::Bytes(
                node.keys@[j].spec_encoded(),
            ),
        decreases node.keys@.len() - i,
    {
        match node.keys[i].encode_key() {
            Ok(bytes) => keys.push(Value::Bytes(bytes)),
            Err(message) => return Err(DbError::KeyEncode { message }),
        }
        i += 1;
    }
    let mut children: Vec<Value> = Vec::new();
    let mut j: usize = 0;
    while j < node.children.len()
        invariant
            j <= node.children@.len(),
            children@.len() == j,
            forall|k: int| 0 <= k < j ==> #[trigger] children@[k]@ == ValueModel::UInt64(
                node.children@[k],
            ),
        decreases node.children@.len() - j,
    {
        children.push(Value::UInt64(node.children[j]));
        j += 1;
    }
    let mut next: Vec<Value> = Vec::new();
    if let Some(id) = node.next {
        next.push(Value::UInt64(id));
    }
    let flag: u8 = if node.is_leaf { 1 } else { 0 };
    let values = clone_all(&node.values);
    proof {
        lemma_views(keys@);
        assert(views(keys@) =~= keys_layout(node.keys@));
        lemma_views(children@);
        assert(views(children@) =~= children_layout(node.children@));
        lemma_views(next@);
        assert(views(next@) =~= next_layout(node.next));
    }
    let mut fields: Vec<Value> = Vec::new();
    fields.push(Value::UInt8(flag));
    fields.push(Value::List(keys));
    fields.push(Value::List(values));
    fields.push(Value::List(children));
    fields.push(Value::List(next));
    proof {
        lemma_views(fields@);
        assert(views(fields@) =~= seq![
            ValueModel::UInt8(flag),
            ValueModel::List(keys_layout(node.keys@)),
            ValueModel::List(views(node.values@)),
            ValueModel::List(children_layout(node.children@)),
            ValueModel::List(next_layout(node.next)),
        ]);
    }
    Ok(Value::List(fields))
}

/// A copy of every value in `values`.
pub fn clone_all(values: &Vec<Value>) -> (r: Vec<Value>)
    ensures
        views(r@) == views(values@),
        r@.len() == values@.len(),
{
    let mut out: Vec<Value> = Vec::new();
    let mut i: usize = 0;
    while i < values.len()
        invariant
            i <= values@.len(),
            out@.len() == i,
            forall|j: int| 0 <= j < i ==> #[trigger] out@[j]@ == values@[j]@,
        decreases values@.len() - i,
    {
        out.push(values[i].clone());
        i += 1;
    }
    proof {
        lemma_views(out@);
        lemma_views(values@);
        assert(views(out@) =~= views(values@));
    }
    out
}

fn decode_key_list<K: Key>(list: &Vec<Value>, codec: &'static str) -> (r: Result<
    Vec<K>,
    ValueError,
>)
    ensures
        match r {
            Ok(ks) => decode_keys::<K>(views(list@)) == Some(ks@),
            Err(e) => decode_keys::<K>(views(list@)) is None && e is Decode && e->codec == codec,
        },
{
    let mut keys: Vec<K> = Vec::new();
    let mut i: usize = 0;
    proof {
        lemma_views(list@);
    }
    while i < list.len()
        invariant
            i <= list@.len(),
            views(list@).len() == list@.len(),
            forall|j: int| 0 <= j < list@.len() ==> #[trigger] views(list@)[j] == list@[j]@,
            decode_keys::<K>(views(list@).subrange(0, i as int)) == Some(keys@),
        decreases list@.len() - i,
    {
        proof {
            assert(views(list@).subrange(0, i + 1).drop_last() =~= views(list@).subrange(0, i as int));
        }
        match &list[i] {
            Value::Bytes(bytes) => match K::decode_key(bytes.as_slice()) {
                Ok(k) => keys.push(k),
                Err(_) => {
                    proof {
                        lemma_decode_keys_prefix_none::<K>(views(list@), i as int);
                    }
                    return Err(ValueError::decode(codec, "page key: undecodable key blob".to_string()));
                },
            },
            _ => {
                proof {
                    lemma_decode_keys_prefix_none::<K>(views(list@), i as int);
                }
                return Err(field_error(codec, "key"));
            },
        }
        i += 1;
    }
    proof {
        assert(views(list@).subrange(0, list@.len() as int) =~= views(list@));
    }
    Ok(keys)
}

/// If a prefix of the key list does not decode, neither does the whole list.
proof fn lemma_decode_keys_prefix_none<K: Key>(s: Seq<ValueModel>, i: int)
    requires
        0 <= i < s.len(),
        decode_keys::<K>(s.subrange(0, i + 1)) is None,
    ensures
        decode_keys::<K>(s) is None,
    decreases s.len(),
{
    if i + 1 == s.len() {
        assert(s.subrange(0, i + 1) =~= s);
    } else {
        assert(s.drop_last().subrange(0, i + 1) =~= s.subrange(0, i + 1));
        lemma_decode_keys_prefix_none::<K>(s.drop_last(), i);
    }
}

proof fn lemma_decode_children_prefix_none(s: Seq<ValueModel>, i: int)
    requires
        0 <= i < s.len(),
        decode_children(s.subrange(0, i + 1)) is None,
    ensures
        decode_children(s) is None,
    decreases s.len(),
{
    if i + 1 == s.len() {
        assert(s.subrange(0, i + 1) =~= s);
    } else {
        assert(s.drop_last().subrange(0, i + 1) =~= s.subrange(0, i + 1));
        lemma_decode_children_prefix_none(s.drop_last(), i);
    }
}

fn decode_child_list(list: &Vec<Value>, codec: &'static str) -> (r: Result<Vec<PageId>, ValueError>)
    ensures
        match r {
            Ok(cs) => decode_children(views(list@)) == Some(cs@),
            Err(e) => decode_children(views(list@)) is None && e is Decode && e->codec == codec,
        },
{
    let mut children: Vec<PageId> = Vec::new();
    let mut i: usize = 0;
    proof {
        lemma_views(list@);
    }
    while i < list.len()
        invariant
            i <= list@.len(),
            views(list@).len() == list@.len(),
            forall|j: int| 0 <= j < list@.len() ==> #[trigger] views(list@)[j] == list@[j]@,
            decode_children(views(list@).subrange(0, i as int)) == Some(children@),
        decreases list@.len() - i,
    {
        proof {
            assert(views(list@).subrange(0, i + 1).drop_last() =~= views(list@).subrange(0, i as int));
        }
        match &list[i] {
            Value::UInt64(id) => children.push(*id),
            _ => {
                proof {
                    lemma_decode_children_prefix_none(views(list@), i as int);
                }
                return Err(field_error(codec, "child"));
            },
        }
        i += 1;
    }
    proof {
        assert(views(list@).subrange(0, list@.len() as int) =~= views(list@));
    }
    Ok(children)
}

/// Reads a page value back into a node, reporting any departure from the
/// page layout as a [`ValueError::Decode`] from `codec`.
pub fn from_value<K: Key>(value: Value, codec: &'static str) -> (r: Result<Node<K>, ValueError>)
    ensures
        match r {
            Ok(n) => layout_node::<K>(value@) == Some(n@),
            Err(e) => layout_node::<K>(value@) is None && e is Decode && e->codec == codec,
        },
{
    let ghost model = value@;
    let mut fields = match value {
        Value::List(fields) => fields,
        _ => {
            return Err(ValueError::decode(codec, "page layout: expected a list of 5 fields".to_string()));
        },
    };
    if fields.len() != FIELDS {
        proof {
            lemma_views(fields@);
        }
        return Err(ValueError::decode(codec, "page layout: expected a list of 5 fields".to_string()));
    }
    proof {
        lemma_views(fields@);
    }
    let ghost f = fields@;
    let next_field = fields.pop().unwrap();
    let children_field = fields.pop().unwrap();
    let values_field = fields.pop().unwrap();
    let keys_field = fields.pop().unwrap();
    let flag_field = fields.pop().unwrap();
    assert(next_field == f[4] && children_field == f[3] && values_field == f[2] && keys_field == f[1]
        && flag_field == f[0]);
    let is_leaf = match flag_field {
        Value::UInt8(flag) => flag != 0,
        _ => return Err(field_error(codec, "is_leaf")),
    };
    let keys_list = match keys_field {
        Value::List(list) => list,
        _ => return Err(field_error(codec, "keys")),
    };
    let values = match values_field {
        Value::List(list) => list,
        _ => return Err(field_error(codec, "values")),
    };
    let children_list = match children_field {
        Value::List(list) => list,
        _ => return Err(field_error(codec, "children")),
    };
    let next_list = match next_field {
        Value::List(list) => list,
        _ => return Err(field_error(codec, "next")),
    };
    let keys = decode_key_list::<K>(&keys_list, codec)?;
    let children = decode_child_list(&children_list, codec)?;
    proof {
        lemma_views(next_list@);
    }
    let next = if next_list.len() == 0 {
        None
    } else if next_list.len() == 1 {
        match &next_list[0] {
            Value::UInt64(id) => Some(*id),
            _ => return Err(field_error(codec, "next")),
        }
    } else {
        return Err(field_error(codec, "next"));
    };
    Ok(Node { keys, values, children, next, is_leaf })
}

} // verus!
