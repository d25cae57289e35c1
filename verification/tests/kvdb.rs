use kvdb::btree::{BTree, Locked, PagerState, Uninitialized, Unlocked};
use kvdb::codec::Codec;
use kvdb::json::{self, Json, JsonNumber};
use kvdb::kvdb::KvDb;
use kvdb::node::Node;
use kvdb::page::{from_value, to_value};
use kvdb::pager::Pager;
use kvdb::value::TryFromValue;
use kvdb::{DbError, PageId, Value, ValueError};
use serde_json::Value as J;

// ---------------------------------------------------------------------------
// The json wire format, over serde_json.
// ---------------------------------------------------------------------------

fn to_serde(j: &Json) -> serde_json::Value {
    match j {
        Json::Null => J::Null,
        Json::Bool(b) => J::Bool(*b),
        Json::Int(n) => J::from(*n),
        Json::UInt(n) => J::from(*n),
        Json::F64(bits) => serde_json::Number::from_f64(f64::from_bits(*bits))
            .map(J::Number)
            .expect("a written f64 is finite"),
        Json::F32(bits) => serde_json::Number::from_f64(f64::from(f32::from_bits(*bits)))
            .map(J::Number)
            .expect("a written f32 is finite"),
        Json::Number(n) => match (n.as_u64, n.as_i64) {
            (Some(u), _) => J::from(u),
            (None, Some(i)) => J::from(i),
            (None, None) => serde_json::Number::from_f64(f64::from_bits(n.as_f64))
                .map(J::Number)
                .unwrap_or(J::Null),
        },
        Json::Str(s) => J::String(s.clone()),
        Json::Array(items) => J::Array(items.iter().map(to_serde).collect()),
        Json::Object(entries) => {
            let mut map = serde_json::Map::new();
            for (key, body) in entries {
                map.insert(key.clone(), to_serde(body));
            }
            J::Object(map)
        }
    }
}

fn from_serde(v: &serde_json::Value) -> Json {
    match v {
        J::Null => Json::Null,
        J::Bool(b) => Json::Bool(*b),
        J::Number(n) => {
            let f = n.as_f64().unwrap_or(f64::NAN);
            Json::Number(JsonNumber {
                as_i64: n.as_i64(),
                as_u64: n.as_u64(),
                as_f64: f.to_bits(),
                as_f32: (f as f32).to_bits(),
            })
        }
        J::String(s) => Json::Str(s.clone()),
        J::Array(items) => Json::Array(items.iter().map(from_serde).collect()),
        J::Object(map) => Json::Object(
            map.iter()
                .map(|(key, body)| (key.clone(), from_serde(body)))
                .collect(),
        ),
    }
}

struct JsonCodec;

impl Codec for JsonCodec {
    fn name(&self) -> &'static str {
        json::NAME
    }

    fn encode(&self, value: &Value) -> Vec<u8> {
        serde_json::to_vec(&to_serde(&json::encode(value))).expect("a tagged tree always encodes")
    }

    fn decode(&self, bytes: &[u8]) -> Result<Value, ValueError> {
        // A page can hold lists nested far deeper than serde_json's default
        // limit of 128 levels, and every encoded value must decode again.
        let mut de = serde_json::Deserializer::from_slice(bytes);
        de.disable_recursion_limit();
        let parsed = <serde_json::Value as serde::Deserialize>::deserialize(&mut de)
            .and_then(|parsed| de.end().map(|()| parsed))
            .map_err(|e| ValueError::decode(json::NAME, e.to_string()))?;
        json::decode(&from_serde(&parsed))
    }
}

fn text(value: &Value) -> String {
    String::from_utf8(JsonCodec.encode(value)).expect("json is utf-8")
}

fn fresh() -> KvDb<i32> {
    KvDb::<i32>::open_with_codec(Vec::new(), Box::new(JsonCodec)).expect("an empty file opens")
}

fn fresh_tree() -> BTree<i64, kvdb::btree::Initialized, Unlocked> {
    BTree::<i64, Uninitialized, Locked>::new_with_codec(Vec::new(), Box::new(JsonCodec))
        .expect("an empty file opens")
        .unlock()
}

fn round_trip<R: TryFromValue>(value: impl Into<Value>) -> Result<R, DbError> {
    let mut db = fresh();
    db.put(1, value.into())?;
    db.get::<R>(&1)
}

fn as_f32(value: Value) -> f32 {
    match value {
        Value::F32(bits) => f32::from_bits(bits),
        other => panic!("expected an f32, got {other:?}"),
    }
}

fn as_f64(value: Value) -> f64 {
    match value {
        Value::F64(bits) => f64::from_bits(bits),
        other => panic!("expected an f64, got {other:?}"),
    }
}

fn scanned(db: &KvDb<i32>) -> Result<Vec<(i32, i32)>, DbError> {
    let mut iter = db.scan();
    let mut collected = Vec::new();
    while let Some(item) = iter.next(db.pager_state()) {
        let (key, value) = item?;
        collected.push((key, i32::try_from_value(value).map_err(DbError::Value)?));
    }
    Ok(collected)
}

fn keys_of(range: Vec<(i64, Value)>) -> Vec<i64> {
    range.into_iter().map(|(key, _)| key).collect()
}

/// Walks the tree from the root, checking the B+tree shape, and returns the
/// depth of the leaves and the leaves in left-to-right order.
fn check_node(
    pager: &Pager,
    id: PageId,
    lower: Option<i64>,
    upper: Option<i64>,
    depth: usize,
    leaf_depth: &mut Option<usize>,
    leaves: &mut Vec<PageId>,
) -> Result<(), DbError> {
    let node: Node<i64> = pager.read_page(id)?;
    assert!(node.keys.windows(2).all(|pair| pair[0] < pair[1]), "page {id} holds unsorted keys");
    assert!(node.keys.len() <= 9, "page {id} holds more than MAX_KEYS keys");
    if depth > 0 {
        assert!(node.keys.len() >= 4, "page {id} holds fewer than MIN_KEYS keys");
    } else if !node.is_leaf {
        assert!(!node.keys.is_empty(), "an internal root holds no separator");
    }
    for key in &node.keys {
        if let Some(low) = lower {
            assert!(*key >= low, "page {id}: key {key} escapes its lower bound {low}");
        }
        if let Some(high) = upper {
            assert!(*key < high, "page {id}: key {key} escapes its upper bound {high}");
        }
    }
    if node.is_leaf {
        assert!(node.children.is_empty(), "leaf {id} has children");
        assert_eq!(node.values.len(), node.keys.len(), "leaf {id} has a key without a value");
        match leaf_depth {
            Some(expected) => assert_eq!(*expected, depth, "leaf {id} is at the wrong depth"),
            None => *leaf_depth = Some(depth),
        }
        leaves.push(id);
        return Ok(());
    }
    assert!(node.values.is_empty(), "internal page {id} stores values");
    assert_eq!(node.next, None, "internal page {id} is on the leaf chain");
    assert_eq!(node.children.len(), node.keys.len() + 1, "internal page {id} has the wrong number of children");
    for (i, &child) in node.children.iter().enumerate() {
        let low = if i == 0 { lower } else { Some(node.keys[i - 1]) };
        let high = if i == node.keys.len() { upper } else { Some(node.keys[i]) };
        check_node(pager, child, low, high, depth + 1, leaf_depth, leaves)?;
    }
    Ok(())
}

fn leaf_chain(pager: &Pager, root_id: PageId) -> Result<Vec<PageId>, DbError> {
    let mut id = root_id;
    loop {
        let node: Node<i64> = pager.read_page(id)?;
        if node.is_leaf {
            break;
        }
        id = node.children[0];
    }
    let mut chain = Vec::new();
    let mut next = Some(id);
    while let Some(page) = next {
        chain.push(page);
        next = pager.read_page::<i64>(page)?.next;
    }
    Ok(chain)
}

fn assert_bplus_tree(st: &PagerState) -> Result<usize, DbError> {
    let mut leaf_depth = None;
    let mut leaves = Vec::new();
    check_node(&st.pager, st.root_id, None, None, 0, &mut leaf_depth, &mut leaves)?;
    let chain = leaf_chain(&st.pager, st.root_id)?;
    assert_eq!(chain, leaves, "the sibling chain must visit leaves in left-to-right order");
    let depth = leaf_depth.expect("a tree always has at least one leaf");
    assert_eq!(depth as u64, st.height, "the recorded height is the leaves' depth");
    Ok(depth)
}

fn sample() -> Node<i32> {
    Node {
        keys: vec![1, 2],
        values: vec![Value::Text("a".into()), Value::List(vec![Value::I8(-1)])],
        children: vec![7, 8, 9],
        next: None,
        is_leaf: false,
    }
}

fn assert_same(left: &Node<i32>, right: &Node<i32>) {
    assert_eq!(left.keys, right.keys);
    assert_eq!(left.values, right.values);
    assert_eq!(left.children, right.children);
    assert_eq!(left.next, right.next);
    assert_eq!(left.is_leaf, right.is_leaf);
}

// ---------------------------------------------------------------------------
// Reading back each kind of value.
// ---------------------------------------------------------------------------

#[test]
fn test_kvdb_i8_value() -> Result<(), DbError> {
    assert_eq!(round_trip::<i8>(5i8)?, 5);
    Ok(())
}

#[test]
fn test_kvdb_i32_value() -> Result<(), DbError> {
    assert_eq!(round_trip::<i32>(42i32)?, 42);
    Ok(())
}

#[test]
fn test_kvdb_i64_value() -> Result<(), DbError> {
    assert_eq!(round_trip::<i64>(9_000_000_000i64)?, 9_000_000_000);
    Ok(())
}

#[test]
fn test_kvdb_u8_value() -> Result<(), DbError> {
    assert_eq!(round_trip::<u8>(200u8)?, 200);
    Ok(())
}

#[test]
fn test_kvdb_u32_value() -> Result<(), DbError> {
    assert_eq!(round_trip::<u32>(4_000_000_000u32)?, 4_000_000_000);
    Ok(())
}

#[test]
fn test_kvdb_u64_value() -> Result<(), DbError> {
    assert_eq!(
        round_trip::<u64>(18_000_000_000_000_000_000u64)?,
        18_000_000_000_000_000_000
    );
    Ok(())
}

#[test]
fn test_kvdb_f32_value() -> Result<(), DbError> {
    let stored = round_trip::<Value>(Value::F32(3.5f32.to_bits()))?;
    assert_eq!(as_f32(stored), 3.5);
    Ok(())
}

#[test]
fn test_kvdb_f64_value() -> Result<(), DbError> {
    let stored = round_trip::<Value>(Value::F64(std::f64::consts::PI.to_bits()))?;
    assert_eq!(as_f64(stored), std::f64::consts::PI);
    Ok(())
}

#[test]
fn test_kvdb_char_value() -> Result<(), DbError> {
    assert_eq!(round_trip::<char>('R')?, 'R');
    Ok(())
}

#[test]
fn test_kvdb_text_value() -> Result<(), DbError> {
    assert_eq!(
        round_trip::<String>("hello world".to_string())?,
        "hello world"
    );
    Ok(())
}

#[test]
fn test_kvdb_bytes_value() -> Result<(), DbError> {
    assert_eq!(
        round_trip::<Vec<u8>>(vec![1u8, 2, 3, 4, 5])?,
        vec![1, 2, 3, 4, 5]
    );
    Ok(())
}

#[test]
fn test_kvdb_list_value() -> Result<(), DbError> {
    let list = Value::List(vec![Value::I32(1), Value::I32(2), Value::I32(3)]);
    assert_eq!(
        round_trip::<Vec<Value>>(list)?,
        vec![Value::I32(1), Value::I32(2), Value::I32(3)]
    );
    Ok(())
}

#[test]
fn test_kvdb_pair_value() -> Result<(), DbError> {
    let left = vec![Value::I32(1), Value::I32(2)];
    let right = vec![Value::Text("a".to_string()), Value::Text("b".to_string())];
    let stored: (Vec<Value>, Vec<Value>) = round_trip((left.clone(), right.clone()))?;
    assert_eq!(stored, (left, right));
    Ok(())
}

#[test]
fn test_kvdb_type_mismatch_is_not_not_found() -> Result<(), DbError> {
    let mut db = fresh();
    db.put(1, 42i32.into())?;

    let err = db.get::<i64>(&1).expect_err("i32 is not readable as i64");
    assert!(!err.is_not_found(), "a mismatch is not a missing key");
    assert!(matches!(err, DbError::Value(ValueError::TypeMismatch)));
    Ok(())
}

#[test]
fn nan_and_infinities_survive_the_json_format() -> Result<(), DbError> {
    let nan = round_trip::<Value>(Value::F64(f64::NAN.to_bits()))?;
    assert!(as_f64(nan).is_nan());
    let inf = round_trip::<Value>(Value::F64(f64::INFINITY.to_bits()))?;
    assert_eq!(as_f64(inf), f64::INFINITY);
    let neg = round_trip::<Value>(Value::F32(f32::NEG_INFINITY.to_bits()))?;
    assert_eq!(as_f32(neg), f32::NEG_INFINITY);
    Ok(())
}

// ---------------------------------------------------------------------------
// The store's operations.
// ---------------------------------------------------------------------------

#[test]
fn test_repeated_put_accumulates_into_one_key() -> Result<(), DbError> {
    let mut db = fresh();
    db.put(5, 90.into())?;
    assert_eq!(db.get::<i32>(&5)?, 90, "a single put stays a plain value");

    db.put(5, 100.into())?;
    db.put(5, 8.into())?;
    db.put(5, 60.into())?;

    let all: Vec<Value> = db.get(&5)?;
    assert_eq!(
        all,
        vec![Value::I32(90), Value::I32(100), Value::I32(8), Value::I32(60)],
        "every put must be readable, in the order it arrived"
    );

    assert_eq!(db.len()?, 1, "four puts of one key is still one entry");
    assert_eq!(db.range()?.len(), 1);

    assert!(
        db.get::<i32>(&5)
            .is_err_and(|err| matches!(err, DbError::Value(ValueError::TypeMismatch))),
        "an accumulated key is no longer a single i32, and must say so"
    );

    db.update(5, 7.into())?;
    assert_eq!(db.get::<i32>(&5)?, 7, "update replaces the whole accumulator");
    Ok(())
}

#[test]
fn test_accumulation_never_splices_a_stored_list() -> Result<(), DbError> {
    let mut db = fresh();
    let stored = Value::List(vec![Value::I32(1), Value::I32(2)]);
    db.put(1, stored.clone())?;
    db.put(1, 99i64.into())?;

    let all: Vec<Value> = db.get(&1)?;
    assert_eq!(
        all,
        vec![stored, Value::I64(99)],
        "a caller's own List must stay one element, not be spliced into the accumulator"
    );
    Ok(())
}

#[test]
fn test_accumulated_keys_survive_a_split() -> Result<(), DbError> {
    let mut db = fresh();
    for i in 0..200 {
        db.put(i, (i * 10).into())?;
    }
    for _ in 0..3 {
        for i in 0..200 {
            db.put(i, i.into())?;
        }
    }

    assert_eq!(db.len()?, 200, "repeated puts must not create new entries");
    for i in 0..200 {
        let all: Vec<Value> = db.get(&i)?;
        assert_eq!(
            all,
            vec![Value::I32(i * 10), Value::I32(i), Value::I32(i), Value::I32(i)],
            "key {i} lost an accumulated value across splits"
        );
    }
    Ok(())
}

#[test]
fn test_kvdb_basic_usage() -> Result<(), DbError> {
    let mut db = fresh();

    for i in 1..=12 {
        db.put(i, (i * 10).into())?;
    }

    for i in 1..=12 {
        assert_eq!(db.get::<i32>(&i)?, i * 10, "get({i}) mismatch");
    }

    assert!(
        db.get::<i32>(&999).is_err_and(|err| err.is_not_found()),
        "missing key should return NotFound"
    );

    let expected: Vec<(i32, Value)> = (1..=12).map(|i| (i, Value::I32(i * 10))).collect();
    assert_eq!(db.range()?, expected, "range() must return sorted (key, value) pairs");

    assert_eq!(db.len()?, 12);

    let (found, value) = db.delete(12)?;
    assert!(found, "delete(12) should report found = true");
    assert_eq!(value, Some(Value::I32(120)));

    assert!(
        db.get::<i32>(&12).is_err_and(|err| err.is_not_found()),
        "12 should be gone after delete"
    );
    assert_eq!(db.len()?, 11);

    let (found, value) = db.delete(999)?;
    assert!(!found);
    assert_eq!(value, None);
    assert_eq!(db.len()?, 11, "len unchanged after a failed delete");

    let (found, value) = db.delete(5)?;
    assert!(found);
    assert_eq!(value, Some(Value::I32(50)));

    assert!(db.get::<i32>(&5).is_err_and(|err| err.is_not_found()));
    assert_eq!(db.len()?, 10);
    Ok(())
}

#[test]
fn test_kvdb_lock_unlock_round_trip() -> Result<(), DbError> {
    let mut db = fresh();
    db.put(1, 100.into())?;

    let db = db.lock();
    assert_eq!(db.get::<i32>(&1)?, 100, "get must still work while locked");

    let mut db = db.unlock();
    db.put(2, 200.into())?;
    assert_eq!(db.get::<i32>(&2)?, 200);
    Ok(())
}

#[test]
fn test_kvdb_scan() -> Result<(), DbError> {
    let mut db = fresh();
    for i in 1..=8 {
        db.put(i, (i * 10).into())?;
    }

    let expected: Vec<(i32, i32)> = (1..=8).map(|i| (i, i * 10)).collect();
    assert_eq!(
        scanned(&db)?,
        expected,
        "scan() must yield every inserted key/value exactly once"
    );
    Ok(())
}

#[test]
fn a_full_scan_yields_what_range_returns() -> Result<(), DbError> {
    let mut db = fresh();
    for i in (1..=40).rev() {
        db.put(i, (i * 3).into())?;
    }
    db.delete(7)?;
    let ranged: Vec<(i32, i32)> = db
        .range()?
        .into_iter()
        .map(|(k, v)| (k, i32::try_from_value(v).expect("stored as i32")))
        .collect();
    assert_eq!(scanned(&db)?, ranged);
    assert_eq!(ranged.len(), 39);
    Ok(())
}

#[test]
fn deeply_nested_lists_survive_the_json_format() -> Result<(), DbError> {
    let mut value = Value::I32(7);
    for _ in 0..200 {
        value = Value::List(vec![value]);
    }
    let bytes = JsonCodec.encode(&value);
    assert!(bytes.len() < 4092);
    assert_eq!(JsonCodec.decode(&bytes).expect("a codec decodes its own output"), value);
    let mut db = fresh();
    db.put(1, value.clone())?;
    assert_eq!(db.range()?, vec![(1, value)]);
    Ok(())
}

#[test]
fn a_finished_scan_stays_finished() -> Result<(), DbError> {
    let mut db = fresh();
    db.put(1, 10.into())?;
    let mut iter = db.scan();
    assert!(matches!(iter.next(db.pager_state()), Some(Ok((1, _)))));
    assert!(iter.next(db.pager_state()).is_none());
    assert!(iter.next(db.pager_state()).is_none());
    Ok(())
}

#[test]
fn a_scan_crosses_leaves_in_key_order() -> Result<(), DbError> {
    let mut db = fresh();
    for i in (0..120).rev() {
        db.put(i, (i * 2).into())?;
    }
    let expected: Vec<(i32, i32)> = (0..120).map(|i| (i, i * 2)).collect();
    assert_eq!(scanned(&db)?, expected);
    Ok(())
}

#[test]
fn an_empty_store_is_empty() -> Result<(), DbError> {
    let mut db = fresh();
    assert!(db.is_empty()?);
    assert_eq!(db.len()?, 0);
    assert_eq!(db.range()?, Vec::new());
    assert_eq!(scanned(&db)?, Vec::new());
    db.put(3, 30.into())?;
    assert!(!db.is_empty()?);
    db.delete(3)?;
    assert!(db.is_empty()?);
    Ok(())
}

#[test]
fn update_inserts_a_missing_key_and_replaces_a_present_one() -> Result<(), DbError> {
    let mut db = fresh();
    db.update(4, 40.into())?;
    assert_eq!(db.get::<i32>(&4)?, 40);
    db.update(4, Value::Text("forty".into()))?;
    assert_eq!(db.get::<String>(&4)?, "forty");
    assert_eq!(db.len()?, 1);
    Ok(())
}

#[test]
fn a_write_leaves_every_other_key_as_it_was() -> Result<(), DbError> {
    let mut db = fresh();
    for i in 0..60 {
        db.put(i, (i + 1000).into())?;
    }
    let before = db.range()?;
    db.put(30, 7.into())?;
    db.update(31, 8.into())?;
    db.delete(32)?;
    for (key, value) in before {
        if key == 30 {
            assert_eq!(
                db.get::<Vec<Value>>(&30)?,
                vec![Value::I32(1030), Value::I32(7)]
            );
        } else if key == 31 {
            assert_eq!(db.get::<i32>(&31)?, 8);
        } else if key == 32 {
            assert!(db.get::<i32>(&32).is_err_and(|e| e.is_not_found()));
        } else {
            assert_eq!(db.get::<Value>(&key)?, value);
        }
    }
    assert_eq!(db.len()?, 59);
    Ok(())
}

#[test]
fn take_dirty_hands_over_each_written_page_once() -> Result<(), DbError> {
    let mut db = fresh();
    let first = db.take_dirty();
    assert_eq!(first.len(), 1, "opening writes the root leaf");
    assert!(db.take_dirty().is_empty());
    db.put(1, 10.into())?;
    let after_put = db.take_dirty();
    assert!(!after_put.is_empty());
    let image_len = db.pager_state().pager.file_bytes().len();
    for id in after_put {
        assert!((id as usize + 1) * 4096 <= image_len);
    }
    Ok(())
}

// ---------------------------------------------------------------------------
// The tree's shape.
// ---------------------------------------------------------------------------

#[test]
fn values_live_only_in_leaves_and_the_chain_links_them() -> Result<(), DbError> {
    let mut tree = fresh_tree();
    for i in 0..500 {
        tree.put(i, Value::I64(i * 10))?;
    }

    let depth = assert_bplus_tree(tree.pager_state())?;
    assert!(depth >= 2, "500 keys should build at least 3 levels, got {depth}");

    let keys = keys_of(tree.range()?);
    assert_eq!(keys, (0..500).collect::<Vec<_>>(), "the leaf walk lost order");
    Ok(())
}

#[test]
fn the_chain_survives_the_merge_and_borrow_paths() -> Result<(), DbError> {
    let mut tree = fresh_tree();
    for i in 0..400 {
        tree.put(i, Value::I64(i * 10))?;
    }

    for i in (0..400).step_by(3) {
        assert!(tree.delete(i)?.0, "delete({i}) reported not found");
        assert_bplus_tree(tree.pager_state())?;
    }

    let survivors: Vec<i64> = (0..400).filter(|i| i % 3 != 0).collect();
    let keys = keys_of(tree.range()?);
    assert_eq!(keys, survivors, "deletes broke the leaf chain");
    assert_eq!(tree.len()?, survivors.len());

    for key in &survivors {
        assert_eq!(tree.get::<i64>(key)?, key * 10, "survivor {key} was corrupted");
    }
    Ok(())
}

#[test]
fn keys_arriving_out_of_order_still_land_in_a_sorted_tree() -> Result<(), DbError> {
    let mut tree = fresh_tree();
    for i in 0..300i64 {
        let key = (i * 7) % 300;
        tree.put(key, Value::I64(key * 10))?;
    }

    assert_bplus_tree(tree.pager_state())?;
    let keys = keys_of(tree.range()?);
    assert_eq!(
        keys,
        (0..300).collect::<Vec<_>>(),
        "a shuffled insert order left the tree unsorted"
    );
    Ok(())
}

#[test]
fn deleting_everything_shrinks_the_tree_back_to_a_leaf() -> Result<(), DbError> {
    let mut tree = fresh_tree();
    for i in 0..250 {
        tree.put(i, Value::I64(i))?;
    }
    for i in 0..250 {
        assert!(tree.delete(i)?.0);
    }
    assert_eq!(tree.len()?, 0);
    assert_eq!(assert_bplus_tree(tree.pager_state())?, 0);
    Ok(())
}

#[test]
fn lib_test_insertion_structure() -> Result<(), DbError> {
    let mut tree = fresh_tree();

    for i in 1..=12 {
        tree.put(i, Value::I64(i * 10))?;
    }

    for i in 1..=12 {
        let value: i64 = tree.get(&i)?;
        assert_eq!(value, i * 10, "get({i}) mismatch");
    }

    assert!(
        tree.get::<i64>(&999).is_err_and(|err| err.is_not_found()),
        "missing key should return NotFound"
    );

    let range_i64: Vec<(i64, i64)> = tree
        .range()?
        .into_iter()
        .map(|(k, v)| (k, i64::try_from_value(v).expect("expected int")))
        .collect();
    let expected: Vec<(i64, i64)> = (1..=12).map(|i| (i, i * 10)).collect();
    assert_eq!(range_i64, expected, "range() must return sorted (key, value) pairs");

    assert_eq!(tree.len()?, 12);

    let (found, value) = tree.delete(12)?;
    assert!(found, "delete(12) should report found = true");
    let value = i64::try_from_value(value.expect("value missing")).expect("expected int");
    assert_eq!(value, 120);

    assert!(
        tree.get::<i64>(&12).is_err_and(|err| err.is_not_found()),
        "12 should be gone after delete"
    );
    assert_eq!(tree.len()?, 11);

    let (found, value) = tree.delete(999)?;
    assert!(!found, "deleting a missing key should report found = false");
    assert!(value.is_none());
    assert_eq!(tree.len()?, 11, "len should be unchanged after a failed delete");

    let (found, value) = tree.delete(5)?;
    assert!(found);
    let value = i64::try_from_value(value.expect("value missing")).expect("expected int");
    assert_eq!(value, 50);

    assert!(tree.get::<i64>(&5).is_err_and(|err| err.is_not_found()));
    assert_eq!(tree.len()?, 10);

    let tree = tree.lock();
    let value: i64 = tree.get(&1)?;
    assert_eq!(value, 10);
    Ok(())
}

// ---------------------------------------------------------------------------
// Storage failures.
// ---------------------------------------------------------------------------

#[test]
fn test_storage_failures_are_errors() -> Result<(), DbError> {
    let mut tree = fresh_tree();
    let oversized = Value::Bytes(vec![0u8; 8192]);
    assert!(
        matches!(
            tree.put(1, oversized),
            Err(DbError::PageOverflow { codec: "json", .. })
        ),
        "a node larger than a page must report PageOverflow"
    );
    assert_eq!(tree.len()?, 0, "a failed put changes nothing");

    let pager = Pager::open_with(Vec::new(), Box::new(JsonCodec));
    assert!(
        matches!(pager.read_page::<i64>(9999), Err(DbError::Io { .. })),
        "reading past the end of the file must report Io"
    );
    Ok(())
}

#[test]
fn test_reading_with_the_wrong_codec_is_an_error() -> Result<(), DbError> {
    let mut page = vec![0u8; 4096];
    page[0..4].copy_from_slice(&3u32.to_le_bytes());
    page[4..7].copy_from_slice(&[1, 2, 3]);

    let misread = Pager::open_with(page, Box::new(JsonCodec));
    let err = misread
        .read_page::<i64>(0)
        .expect_err("those bytes are not json");
    assert!(
        matches!(err, DbError::Value(ValueError::Decode { codec: "json", .. })),
        "expected a json decode error, got {err:?}"
    );
    Ok(())
}

#[test]
fn test_corrupt_length_prefix_is_an_error() -> Result<(), DbError> {
    let mut page = vec![0u8; 4096];
    page[0..4].copy_from_slice(&u32::MAX.to_le_bytes());

    let pager = Pager::open_with(page, Box::new(JsonCodec));
    assert!(
        matches!(pager.read_page::<i64>(0), Err(DbError::CorruptPage { page: 0, .. })),
        "an impossible length prefix must report CorruptPage"
    );
    Ok(())
}

#[test]
fn a_written_page_reads_back() -> Result<(), DbError> {
    let mut pager = Pager::open_with(Vec::new(), Box::new(JsonCodec));
    let id = pager.allocate_page();
    assert_eq!(id, 0);
    let node: Node<i64> = Node {
        keys: vec![1, 5],
        values: vec![Value::I64(10), Value::Text("five".into())],
        children: Vec::new(),
        next: Some(3),
        is_leaf: true,
    };
    pager.write_page(id, &node)?;
    assert_eq!(pager.file_bytes().len(), 4096);
    let back: Node<i64> = pager.read_page(id)?;
    assert_eq!(back.keys, node.keys);
    assert_eq!(back.values, node.values);
    assert_eq!(back.next, Some(3));
    assert!(back.is_leaf);
    assert_eq!(pager.take_dirty(), vec![0]);
    Ok(())
}

#[test]
fn the_allocator_counts_on_from_the_file_length() {
    let mut pager = Pager::open_with(vec![5u8; 3 * 4096 + 100], Box::new(JsonCodec));
    assert_eq!(pager.allocate_page(), 3);
    assert_eq!(pager.allocate_page(), 4);
    assert_eq!(pager.allocate_page(), 5);
    assert_eq!(pager.next_page_id(), 6);
    assert_eq!(pager.file_bytes(), &vec![5u8; 3 * 4096 + 100][..], "allocating does no I/O");
    assert!(pager.take_dirty().is_empty());
}

#[test]
fn an_encoded_page_is_prefix_payload_and_zeros() -> Result<(), DbError> {
    let mut pager = Pager::open_with(vec![7u8; 10], Box::new(JsonCodec));
    pager.write_encoded(1, &[9, 8, 7])?;
    let bytes = pager.file_bytes();
    assert_eq!(bytes.len(), 8192);
    assert_eq!(&bytes[0..10], &[7u8; 10]);
    assert_eq!(&bytes[4096..4100], &3u32.to_le_bytes());
    assert_eq!(&bytes[4100..4103], &[9, 8, 7]);
    assert!(bytes[4103..].iter().all(|b| *b == 0));
    assert_eq!(pager.take_dirty(), vec![1]);
    Ok(())
}

#[test]
fn an_oversized_payload_is_refused_by_name() {
    let mut pager = Pager::open_with(Vec::new(), Box::new(JsonCodec));
    let err = pager.write_encoded(0, &[0u8; 4093]).expect_err("4093 bytes do not fit");
    assert!(matches!(
        err,
        DbError::PageOverflow { len: 4093, codec: "json", capacity: 4092 }
    ));
    assert!(pager.file_bytes().is_empty(), "a refused write changes nothing");
    pager.write_encoded(0, &[1u8; 4092]).expect("4092 bytes fit exactly");
    assert_eq!(pager.file_bytes().len(), 4096);
}

#[test]
fn a_page_beyond_any_offset_is_an_io_error() {
    let mut pager = Pager::open_with(Vec::new(), Box::new(JsonCodec));
    assert!(matches!(pager.write_encoded(u64::MAX, &[1]), Err(DbError::Io { .. })));
    assert!(pager.file_bytes().is_empty());
}

#[test]
fn a_page_past_the_allocator_reads_back() -> Result<(), DbError> {
    let mut pager = Pager::open_with(Vec::new(), Box::new(JsonCodec));
    let node: Node<i64> = Node {
        keys: vec![4],
        values: vec![Value::I64(40)],
        children: Vec::new(),
        next: None,
        is_leaf: true,
    };
    pager.write_page(3, &node)?;
    assert_eq!(pager.next_page_id(), 0, "writing does not allocate");
    assert_eq!(pager.file_bytes().len(), 4 * 4096);
    let back: Node<i64> = pager.read_page(3)?;
    assert_eq!(back.keys, vec![4]);
    assert_eq!(back.values, vec![Value::I64(40)]);
    Ok(())
}

// ---------------------------------------------------------------------------
// The page layout.
// ---------------------------------------------------------------------------

#[test]
fn every_codec_round_trips_a_node() -> Result<(), DbError> {
    let node = sample();
    let codec = JsonCodec;
    let bytes = codec.encode(&to_value(&node)?);
    let decoded = codec.decode(&bytes).expect("own output decodes");
    let round_tripped: Node<i32> =
        from_value(decoded, codec.name()).expect("layout survives the codec");
    assert_same(&node, &round_tripped);
    Ok(())
}

#[test]
fn an_empty_leaf_round_trips() -> Result<(), DbError> {
    let empty: Node<i32> = Node {
        keys: Vec::new(),
        values: Vec::new(),
        children: Vec::new(),
        next: None,
        is_leaf: true,
    };
    let value = to_value(&empty)?;
    assert_same(
        &empty,
        &from_value::<i32>(value, "bincode").expect("empty leaf decodes"),
    );
    Ok(())
}

#[test]
fn rejects_a_page_that_is_not_the_layout() {
    let cases = [
        Value::I32(1),
        Value::List(vec![Value::UInt8(1)]),
        Value::List(vec![
            Value::Text("not a flag".into()),
            Value::List(vec![]),
            Value::List(vec![]),
            Value::List(vec![]),
            Value::List(vec![]),
        ]),
        Value::List(vec![
            Value::UInt8(1),
            Value::List(vec![Value::I32(0)]),
            Value::List(vec![]),
            Value::List(vec![]),
            Value::List(vec![]),
        ]),
    ];
    for case in cases {
        let err = from_value::<i32>(case.clone(), "bincode")
            .expect_err(&format!("{case:?} is not a page"));
        assert!(matches!(err, ValueError::Decode { codec: "bincode", .. }));
    }
}

#[test]
fn reports_an_unreadable_key_blob_instead_of_panicking() -> Result<(), DbError> {
    let node: Node<i64> = Node {
        keys: vec![1],
        values: vec![Value::I8(0)],
        children: Vec::new(),
        next: None,
        is_leaf: true,
    };
    let Value::List(mut fields) = to_value(&node)? else {
        panic!("a page is always a list");
    };
    fields[1] = Value::List(vec![Value::Bytes(vec![0x01])]);

    let bytes = JsonCodec.encode(&Value::List(fields));
    let decoded = JsonCodec.decode(&bytes).expect("own output decodes");
    let err = from_value::<i64>(decoded, "json").expect_err("a one-byte blob is not an i64");
    assert!(matches!(err, ValueError::Decode { codec: "json", .. }));
    Ok(())
}

#[test]
fn keys_are_written_as_their_bincode_bytes() -> Result<(), DbError> {
    let node: Node<i32> = Node {
        keys: vec![1, -2],
        values: vec![Value::I8(0), Value::I8(1)],
        children: Vec::new(),
        next: None,
        is_leaf: true,
    };
    let Value::List(fields) = to_value(&node)? else {
        panic!("a page is always a list");
    };
    assert_eq!(
        fields[1],
        Value::List(vec![
            Value::Bytes(vec![1, 0, 0, 0]),
            Value::Bytes(vec![0xfe, 0xff, 0xff, 0xff]),
        ])
    );
    let node: Node<u64> = Node {
        keys: vec![258],
        values: vec![Value::I8(0)],
        children: Vec::new(),
        next: None,
        is_leaf: true,
    };
    let Value::List(fields) = to_value(&node)? else {
        panic!("a page is always a list");
    };
    assert_eq!(
        fields[1],
        Value::List(vec![Value::Bytes(vec![2, 1, 0, 0, 0, 0, 0, 0])])
    );
    Ok(())
}

// ---------------------------------------------------------------------------
// The json tagging.
// ---------------------------------------------------------------------------

#[test]
fn every_value_is_a_single_tag_object() {
    assert_eq!(text(&Value::I64(42)), r#"{"i64":42}"#);
    assert_eq!(text(&Value::I32(-3)), r#"{"i32":-3}"#);
    assert_eq!(text(&Value::UInt8(200)), r#"{"u8":200}"#);
    assert_eq!(text(&Value::Text("hi".into())), r#"{"text":"hi"}"#);
    assert_eq!(text(&Value::Char('x')), r#"{"char":"x"}"#);
    assert_eq!(text(&Value::Bytes(vec![0x00, 0xab, 0x10])), r#"{"bytes":"00ab10"}"#);
    assert_eq!(text(&Value::F64(1.5f64.to_bits())), r#"{"f64":1.5}"#);
    assert_eq!(text(&Value::F64(f64::NAN.to_bits())), r#"{"f64":"nan"}"#);
    assert_eq!(text(&Value::F32(f32::INFINITY.to_bits())), r#"{"f32":"inf"}"#);
    assert_eq!(text(&Value::F64(f64::NEG_INFINITY.to_bits())), r#"{"f64":"-inf"}"#);
    assert_eq!(
        text(&Value::List(vec![Value::I32(1)])),
        r#"{"list":[{"i32":1}]}"#
    );
    assert_eq!(
        text(&Value::Pair(vec![Value::I8(1)], vec![])),
        r#"{"pair":[[{"i8":1}],[]]}"#
    );
}

#[test]
fn a_multi_round_trips_through_every_codec() {
    let multi = Value::Multi(vec![
        Value::I32(90),
        Value::I32(100),
        Value::I32(8),
        Value::I32(60),
    ]);
    let bytes = JsonCodec.encode(&multi);
    assert_eq!(JsonCodec.decode(&bytes).expect("decodes"), multi);
}

#[test]
fn a_multi_is_not_a_list_on_the_wire() {
    let list = Value::List(vec![Value::I32(1), Value::I32(2)]);
    let multi = Value::Multi(vec![Value::I32(1), Value::I32(2)]);
    assert_ne!(JsonCodec.encode(&list), JsonCodec.encode(&multi));
    assert_eq!(JsonCodec.decode(&JsonCodec.encode(&list)).expect("decodes"), list);
    assert_eq!(JsonCodec.decode(&JsonCodec.encode(&multi)).expect("decodes"), multi);
}

#[test]
fn nested_values_round_trip_through_json() {
    let inner = Value::Pair(
        vec![Value::UInt64(u64::MAX), Value::I64(i64::MIN)],
        vec![Value::Bytes(vec![]), Value::Text("ünï".into()), Value::Char('é')],
    );
    let value = Value::List(vec![inner.clone(), Value::Multi(vec![inner, Value::UInt32(7)])]);
    assert_eq!(JsonCodec.decode(&JsonCodec.encode(&value)).expect("decodes"), value);
}

#[test]
fn malformed_documents_are_decode_errors() {
    let cases = [
        r#"42"#,
        r#"{}"#,
        r#"{"i64":1,"i32":2}"#,
        r#"{"nope":1}"#,
        r#"{"i32":3000000000}"#,
        r#"{"i8":200}"#,
        r#"{"u8":-1}"#,
        r#"{"u32":5000000000}"#,
        r#"{"char":"ab"}"#,
        r#"{"bytes":"abc"}"#,
        r#"{"bytes":"zz"}"#,
        r#"{"pair":[[]]}"#,
        r#"{"pair":[[],{"i8":1}]}"#,
        r#"{"list":[{"i8":1},{"bad":0}]}"#,
        r#"{"f64":"infinity"}"#,
        r#"{"text":5}"#,
        r#"not json"#,
    ];
    for case in cases {
        let err = JsonCodec
            .decode(case.as_bytes())
            .expect_err(&format!("{case} is not a tagged value"));
        assert!(
            matches!(err, ValueError::Decode { codec: "json", .. }),
            "{case}: {err:?}"
        );
    }
}

#[test]
fn integers_read_under_a_narrower_tag_must_fit() {
    assert_eq!(
        JsonCodec.decode(br#"{"i32":-2147483648}"#).expect("fits"),
        Value::I32(i32::MIN)
    );
    assert_eq!(
        JsonCodec.decode(br#"{"u32":4294967295}"#).expect("fits"),
        Value::UInt32(u32::MAX)
    );
    assert_eq!(
        JsonCodec.decode(br#"{"i64":9223372036854775807}"#).expect("fits"),
        Value::I64(i64::MAX)
    );
    let err = json::narrow::<i8, i64>(128, "i8").expect_err("128 is not an i8");
    match err {
        ValueError::Decode { codec, message } => {
            assert_eq!(codec, "json");
            assert_eq!(message, "integer does not fit in i8");
        }
        other => panic!("expected a decode error, got {other:?}"),
    }
    assert_eq!(json::narrow::<u8, u64>(255, "u8").expect("fits"), 255u8);
}

#[test]
fn hex_round_trips_and_rejects_what_is_not_hex() {
    assert_eq!(json::to_hex(&[0x00, 0x7f, 0xff, 0x10]), "007fff10");
    assert_eq!(json::to_hex(&[]), "");
    assert_eq!(json::from_hex("007fff10").expect("hex"), vec![0x00, 0x7f, 0xff, 0x10]);
    assert_eq!(json::from_hex("ABcd").expect("either case"), vec![0xab, 0xcd]);
    assert_eq!(json::from_hex("+f").expect("a sign and a digit"), vec![0x0f]);
    assert!(json::from_hex("abc").is_err());
    assert!(json::from_hex("zz").is_err());
    assert!(json::from_hex("é1").is_err());
    let err = json::err("bad".to_string());
    assert_eq!(err, ValueError::Decode { codec: "json", message: "bad".to_string() });
}

#[test]
fn a_float_number_under_an_integer_tag_is_rejected() {
    assert!(JsonCodec.decode(br#"{"i64":1.5}"#).is_err());
    assert_eq!(
        JsonCodec.decode(br#"{"f64":3}"#).expect("an integer reads as a float"),
        Value::F64(3.0f64.to_bits())
    );
}

// ---------------------------------------------------------------------------
// Values and errors.
// ---------------------------------------------------------------------------

#[test]
fn accumulate_builds_then_extends_a_multi() {
    let mut v = Value::I32(1);
    assert!(!v.is_multi());
    v.accumulate(Value::I32(2));
    assert_eq!(v, Value::Multi(vec![Value::I32(1), Value::I32(2)]));
    v.accumulate(Value::Text("three".into()));
    assert!(v.is_multi());
    assert_eq!(
        v,
        Value::Multi(vec![Value::I32(1), Value::I32(2), Value::Text("three".into())])
    );
}

#[test]
fn conversions_are_exact_match() {
    assert_eq!(i32::try_from_value(Value::I32(7)), Ok(7));
    assert_eq!(i64::try_from_value(Value::I32(7)), Err(ValueError::TypeMismatch));
    assert_eq!(u8::try_from_value(Value::UInt32(7)), Err(ValueError::TypeMismatch));
    assert_eq!(
        Vec::<Value>::try_from_value(Value::Multi(vec![Value::I8(1)])),
        Ok(vec![Value::I8(1)])
    );
    assert_eq!(Value::from(5u64), Value::UInt64(5));
    assert_eq!(Value::from('c'), Value::Char('c'));
    assert_eq!(Value::from(vec![1u8]), Value::Bytes(vec![1]));
}

#[test]
fn only_a_missing_key_is_not_found() {
    assert!(DbError::Value(ValueError::NotFound).is_not_found());
    assert!(!DbError::Value(ValueError::TypeMismatch).is_not_found());
    assert!(!DbError::Io { message: "x".into() }.is_not_found());
    let e = ValueError::decode("json", "m".to_string());
    assert_eq!(e, ValueError::Decode { codec: "json", message: "m".to_string() });
}

#[test]
fn a_call_hands_out_its_job_once() {
    let mut call: kvdb::kvdb_call::KvdbCall<i32, &'static str, u8> =
        kvdb::kvdb_call::KvdbCall::new("job", 3);
    assert!(!call.is_dispatched());
    assert_eq!(*call.pool(), 3);
    assert_eq!(call.take_job(), Some("job"));
    assert!(call.is_dispatched());
    assert_eq!(call.take_job(), None);
    *call.result_slot().lock().expect("not poisoned") = Some(9);
    assert_eq!(call.result_slot().lock().expect("not poisoned").take(), Some(9));
}

// ---------------------------------------------------------------------------
// The in-memory B-tree.
// ---------------------------------------------------------------------------

#[test]
fn btree_test_insertion_structure() {
    let mut tree = kvdb::memtree::BTree::<i32>::new().unlock();
    tree.put(5, Value::I32(10));
    tree.put(10, Value::I32(100));
    tree.put(15, Value::I32(150));
    tree.put(15, Value::I32(150));
    tree.put(20, Value::I32(200));
    tree.put(25, Value::I32(250));

    let tree = tree.lock();

    let range = tree.range();
    let len = tree.len();
    assert_eq!(len, 5);
    assert_eq!(
        range,
        vec![
            (5, Value::I32(10)),
            (10, Value::I32(100)),
            (15, Value::I32(150)),
            (20, Value::I32(200)),
            (25, Value::I32(250)),
        ]
    );

    assert_eq!(tree.get(&10), Some(Value::I32(100)));
    assert_eq!(tree.get(&5), Some(Value::I32(10)));
    assert_eq!(tree.get(&15), Some(Value::I32(150)));
}

#[test]
fn the_in_memory_tree_splits_and_stays_sorted() {
    let mut tree = kvdb::memtree::BTree::<i64>::new().unlock();
    for i in 0..300i64 {
        let key = (i * 37) % 300;
        tree.put(key, Value::I64(key * 3));
    }
    for i in 0..300i64 {
        tree.put(i, Value::I64(i * 2));
    }
    assert_eq!(tree.len(), 300);
    let range = tree.range();
    assert_eq!(range.len(), 300);
    for (i, (key, value)) in range.into_iter().enumerate() {
        assert_eq!(key, i as i64);
        assert_eq!(value, Value::I64(key * 2));
    }
    assert_eq!(tree.get(&299), Some(Value::I64(598)));
    assert_eq!(tree.get(&300), None);
    assert_eq!(tree.get(&-1), None);
}

#[test]
fn the_in_memory_delete_removes_a_key() {
    let mut tree = kvdb::memtree::BTree::<i32>::new().unlock();
    assert_eq!(tree.delete(1), (false, None));
    for i in 0..60 {
        tree.put(i, Value::I32(i * 2));
    }
    assert_eq!(tree.delete(3), (true, Some(Value::I32(6))));
    assert_eq!(tree.delete(3), (false, None));
    assert_eq!(tree.len(), 59);
    assert_eq!(tree.get(&3), None);
    let mut left: Vec<i32> = (0..60).filter(|i| *i != 3).collect();
    for key in [30, 0, 59, 17, 45, 8, 31, 29, 50, 1] {
        assert_eq!(tree.delete(key), (true, Some(Value::I32(key * 2))), "delete({key})");
        left.retain(|i| *i != key);
        let keys: Vec<i32> = tree.range().into_iter().map(|(k, _)| k).collect();
        assert_eq!(keys, left, "after delete({key})");
    }
    for key in left.clone() {
        assert_eq!(tree.delete(key), (true, Some(Value::I32(key * 2))));
    }
    assert_eq!(tree.len(), 0);
    tree.put(7, Value::I32(70));
    assert_eq!(tree.get(&7), Some(Value::I32(70)));
}

#[test]
fn test_kvdb_runs_on_a_swapped_codec() -> Result<(), DbError> {
    let mut db = fresh();

    for i in 1..=40 {
        db.put(i, (i * 10).into())?;
    }
    db.put(
        41,
        Value::List(vec![Value::Char('π'), Value::F64(f64::NAN.to_bits())]),
    )?;

    for i in 1..=40 {
        assert_eq!(db.get::<i32>(&i)?, i * 10, "get({i}) mismatch");
    }
    let nested: Vec<Value> = db.get(&41)?;
    assert!(matches!(nested[0], Value::Char('π')));
    assert!(
        matches!(nested[1], Value::F64(bits) if f64::from_bits(bits).is_nan()),
        "NaN must survive a format with no NaN literal"
    );

    assert_eq!(db.len()?, 41);
    assert_eq!(db.delete(20)?, (true, Some(Value::I32(200))));
    assert!(db.get::<i32>(&20).is_err_and(|err| err.is_not_found()));

    let mut scanned = 0;
    let mut iter = db.scan();
    while let Some(item) = iter.next(db.pager_state()) {
        item?;
        scanned += 1;
    }
    assert_eq!(scanned, 40, "scan() must see every remaining entry");

    let raw = db.pager_state().pager.file_bytes();
    assert!(
        String::from_utf8_lossy(raw).contains(r#"{"i32":100}"#),
        "the file should hold readable json"
    );
    Ok(())
}
