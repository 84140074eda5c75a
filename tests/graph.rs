use helix_graph::{
    decode_node, encode_node, encode_value, AddNAdapter, CodecError, GraphError, GraphStorage,
    IdGenerator, IndexDecl, Node, RwTraversalIterator, RwTxn, StorageError, TraversalVal, Value,
};
use helix_graph::traversal::index_key;

fn by_name_storage() -> GraphStorage {
    GraphStorage::new(vec![IndexDecl { name: "by_name".to_string(), property: "name".to_string() }])
}

fn start(storage: GraphStorage, now: u64) -> RwTraversalIterator<()> {
    RwTraversalIterator { inner: (), txn: RwTxn::begin(storage, now) }
}

fn sample_node() -> Node {
    Node {
        id: 0x0102_0304_0506_0708_090a_0b0c_0d0e_0f10,
        label: "person".to_string(),
        properties: vec![
            ("name".to_string(), Value::String("Ada".to_string())),
            ("age".to_string(), Value::U64(36)),
            ("delta".to_string(), Value::I64(-5)),
            ("admin".to_string(), Value::Boolean(true)),
            ("note".to_string(), Value::Empty),
            ("city".to_string(), Value::String("Zürich".to_string())),
        ],
    }
}

#[test]
fn round_trip_node() {
    let n = sample_node();
    let bytes = encode_node(&n).unwrap();
    assert_eq!(decode_node(&bytes), Ok(n));
}

#[test]
fn round_trip_empty_node() {
    let n = Node { id: 0, label: String::new(), properties: vec![] };
    let bytes = encode_node(&n).unwrap();
    assert_eq!(bytes.len(), 32);
    assert_eq!(decode_node(&bytes), Ok(n));
}

#[test]
fn node_layout_is_exact() {
    let n = Node { id: 1u128 << 64 | 2, label: "a".to_string(), properties: vec![] };
    let bytes = encode_node(&n).unwrap();
    let mut expected = vec![2, 0, 0, 0, 0, 0, 0, 0, 1, 0, 0, 0, 0, 0, 0, 0];
    expected.extend_from_slice(&[1, 0, 0, 0, 0, 0, 0, 0, b'a']);
    expected.extend_from_slice(&[0, 0, 0, 0, 0, 0, 0, 0]);
    assert_eq!(bytes, expected);
}

#[test]
fn value_keys_are_exact() {
    assert_eq!(
        encode_value(&Value::String("Bob".to_string())).unwrap(),
        vec![4, 0, 0, 0, 3, 0, 0, 0, 0, 0, 0, 0, b'B', b'o', b'b']
    );
    assert_eq!(encode_value(&Value::Empty).unwrap(), vec![0, 0, 0, 0]);
    assert_eq!(encode_value(&Value::Boolean(true)).unwrap(), vec![1, 0, 0, 0, 1]);
    assert_eq!(
        encode_value(&Value::I64(-2)).unwrap(),
        vec![2, 0, 0, 0, 0xfe, 0xff, 0xff, 0xff, 0xff, 0xff, 0xff, 0xff]
    );
    assert_eq!(
        encode_value(&Value::U64(0x0102)).unwrap(),
        vec![3, 0, 0, 0, 2, 1, 0, 0, 0, 0, 0, 0]
    );
}

#[test]
fn decode_rejects_foreign_bytes() {
    let mut bytes = encode_node(&sample_node()).unwrap();
    bytes.push(0);
    assert_eq!(decode_node(&bytes), Err(CodecError::Decode));
    assert_eq!(decode_node(&vec![1, 2, 3]), Err(CodecError::Decode));
    assert_eq!(decode_node(&vec![]), Err(CodecError::Decode));
}

#[test]
fn decode_rejects_bad_utf8_and_bad_tag() {
    let n = Node { id: 7, label: "x".to_string(), properties: vec![] };
    let mut bytes = encode_node(&n).unwrap();
    bytes[24] = 0xff;
    assert_eq!(decode_node(&bytes), Err(CodecError::Decode));
    let m = Node { id: 7, label: String::new(), properties: vec![("k".to_string(), Value::Empty)] };
    let mut bytes = encode_node(&m).unwrap();
    let tag_at = bytes.len() - 4;
    bytes[tag_at] = 9;
    assert_eq!(decode_node(&bytes), Err(CodecError::Decode));
}

#[test]
fn ids_strictly_increase() {
    let mut g = IdGenerator::new();
    let a = g.next_id(1000);
    let b = g.next_id(1000);
    let c = g.next_id(999);
    let d = g.next_id(2000);
    assert_eq!(a, 1000u128 << 64);
    assert_eq!(b, a + 1);
    assert_eq!(c, b + 1);
    assert_eq!(d, 2000u128 << 64);
    assert!(a < b && b < c && c < d);
}

#[test]
fn insert_person_without_indices() {
    let it = start(GraphStorage::new(vec![]), 5);
    let props = vec![("name".to_string(), Value::String("Ada".to_string()))];
    let mut out = it.add_n("person", props, None, None);
    let res = out.inner.next().unwrap();
    let node = match res {
        Ok(TraversalVal::Node(n)) => n,
        other => panic!("unexpected {:?}", other),
    };
    assert_eq!(node.label, "person");
    assert_eq!(node.check_property("name"), Some(&Value::String("Ada".to_string())));
    assert_eq!(node.id, 5u128 << 64);
    assert!(out.inner.next().is_none());
    let storage = out.txn.commit();
    assert_eq!(storage.nodes.len(), 1);
    assert_eq!(storage.nodes[0].0, node.id);
    let stored = storage.get_node(node.id).unwrap();
    assert_eq!(decode_node(stored), Ok(node));
}

#[test]
fn secondary_index_consistency() {
    let it = start(by_name_storage(), 9);
    let props = vec![("name".to_string(), Value::String("Bob".to_string()))];
    let names = vec!["by_name".to_string()];
    let mut out = it.add_n("person", props, Some(&names), None);
    let node = match out.inner.next().unwrap() {
        Ok(TraversalVal::Node(n)) => n,
        other => panic!("unexpected {:?}", other),
    };
    let storage = out.txn.commit();
    let key = encode_value(&Value::String("Bob".to_string())).unwrap();
    assert_eq!(storage.index_entries, vec![(0usize, key.clone(), node.id)]);
    assert_eq!(storage.index_get(&"by_name".to_string(), &key), Some(node.id));
    assert_eq!(storage.index_get(&"by_city".to_string(), &key), None);
    assert!(storage.get_node(node.id).is_some());
}

#[test]
fn missing_property_fails_and_abort_clears() {
    let it = start(by_name_storage(), 9);
    let props = vec![("age".to_string(), Value::U64(3))];
    let names = vec!["by_name".to_string()];
    let mut out = it.add_n("person", props, Some(&names), Some(42));
    assert_eq!(out.inner.next(), Some(Err(GraphError::AddNodeFailed)));
    assert!(out.txn.storage.get_node(42).is_some());
    let storage = out.txn.abort();
    assert!(storage.get_node(42).is_none());
    assert!(storage.nodes.is_empty());
    assert!(storage.index_entries.is_empty());
}

#[test]
fn missing_index_fails_like_missing_property() {
    let it = start(by_name_storage(), 9);
    let props = vec![("name".to_string(), Value::String("Cy".to_string()))];
    let names = vec!["by_age".to_string(), "by_name".to_string()];
    let mut out = it.add_n("person", props, Some(&names), Some(7));
    assert_eq!(out.inner.next(), Some(Err(GraphError::AddNodeFailed)));
    let storage = out.txn.commit();
    assert_eq!(storage.index_entries.len(), 1);
    assert_eq!(storage.index_entries[0].2, 7);
}

#[test]
fn explicit_id_reuse_fails_second() {
    let it = start(GraphStorage::new(vec![]), 1);
    let mut out = it.add_n("a", vec![], None, Some(100));
    assert!(matches!(out.inner.next(), Some(Ok(TraversalVal::Node(_)))));
    let storage = out.txn.commit();
    let it = start(storage, 2);
    let mut out = it.add_n("b", vec![], None, Some(100));
    assert_eq!(
        out.inner.next(),
        Some(Err(GraphError::Storage(StorageError::KeyNotAppended)))
    );
    let storage = out.txn.abort();
    assert_eq!(storage.nodes.len(), 1);
    let stored = decode_node(storage.get_node(100).unwrap()).unwrap();
    assert_eq!(stored.label, "a");
}

#[test]
fn put_primary_requires_increasing_ids() {
    let mut s = GraphStorage::new(vec![]);
    assert_eq!(s.put_primary(5, vec![1]), Ok(()));
    assert_eq!(s.put_primary(5, vec![2]), Err(StorageError::KeyNotAppended));
    assert_eq!(s.put_primary(4, vec![2]), Err(StorageError::KeyNotAppended));
    assert_eq!(s.put_primary(6, vec![3]), Ok(()));
    assert_eq!(s.get_node(5), Some(&vec![1]));
}

#[test]
fn index_key_reports_each_error() {
    let s = by_name_storage();
    let with_name = Node {
        id: 1,
        label: "p".to_string(),
        properties: vec![("name".to_string(), Value::String("Bob".to_string()))],
    };
    let without = Node { id: 2, label: "p".to_string(), properties: vec![] };
    let key = encode_value(&Value::String("Bob".to_string())).unwrap();
    assert_eq!(index_key(&s, &with_name, &"by_name".to_string()), Ok((0, key)));
    assert_eq!(
        index_key(&s, &without, &"by_name".to_string()),
        Err(GraphError::MissingProperty("by_name".to_string()))
    );
    assert_eq!(
        index_key(&s, &with_name, &"nope".to_string()),
        Err(GraphError::MissingIndex("nope".to_string()))
    );
}

#[test]
fn later_property_overrides_earlier() {
    let n = Node {
        id: 1,
        label: "p".to_string(),
        properties: vec![
            ("name".to_string(), Value::String("Old".to_string())),
            ("name".to_string(), Value::String("New".to_string())),
        ],
    };
    assert_eq!(n.check_property("name"), Some(&Value::String("New".to_string())));
    assert_eq!(n.check_property("other"), None);
}

#[test]
fn index_get_sees_latest_entry() {
    let mut s = by_name_storage();
    let key = encode_value(&Value::String("Eve".to_string())).unwrap();
    let other = encode_value(&Value::String("Max".to_string())).unwrap();
    assert_eq!(s.index_get(&"by_name".to_string(), &key), None);
    assert_eq!(s.index_put(0, key.clone(), 1), Ok(()));
    assert_eq!(s.index_put(0, other.clone(), 2), Ok(()));
    assert_eq!(s.index_put(0, key.clone(), 3), Ok(()));
    assert_eq!(s.index_get(&"by_name".to_string(), &key), Some(3));
    assert_eq!(s.index_get(&"by_name".to_string(), &other), Some(2));
}

#[test]
fn generated_ids_follow_each_other_in_one_transaction() {
    let it = start(GraphStorage::new(vec![]), 3);
    let mut first = it.add_n("a", vec![], None, None);
    assert!(matches!(first.inner.next(), Some(Ok(TraversalVal::Node(_)))));
    let it = RwTraversalIterator { inner: (), txn: first.txn };
    let mut second = it.add_n("b", vec![], None, None);
    let node = match second.inner.next() {
        Some(Ok(TraversalVal::Node(n))) => n,
        other => panic!("unexpected {:?}", other),
    };
    assert_eq!(node.id, (3u128 << 64) + 1);
    let storage = second.txn.commit();
    assert_eq!(storage.nodes.len(), 2);
    assert_eq!(storage.ids.last, (3u128 << 64) + 1);
}

#[test]
fn abort_keeps_earlier_commits() {
    let it = start(by_name_storage(), 1);
    let names = vec!["by_name".to_string()];
    let props = vec![("name".to_string(), Value::String("Ann".to_string()))];
    let out = it.add_n("p", props, Some(&names), Some(10));
    let storage = out.txn.commit();
    let it = start(storage, 2);
    let props = vec![("name".to_string(), Value::String("Ben".to_string()))];
    let out = it.add_n("p", props, Some(&names), Some(11));
    let storage = out.txn.abort();
    assert_eq!(storage.nodes.len(), 1);
    assert_eq!(storage.index_entries.len(), 1);
    assert_eq!(storage.nodes[0].0, 10);
}

#[test]
fn refused_append_with_failed_index_gives_generic_error() {
    let it = start(by_name_storage(), 1);
    let out = it.add_n("a", vec![], None, Some(50));
    let storage = out.txn.commit();
    let it = start(storage, 2);
    let names = vec!["by_name".to_string()];
    let mut out = it.add_n("b", vec![], Some(&names), Some(50));
    assert_eq!(out.inner.next(), Some(Err(GraphError::AddNodeFailed)));
}

#[test]
fn refused_append_still_writes_indices() {
    let it = start(by_name_storage(), 1);
    let out = it.add_n("a", vec![], None, Some(50));
    let storage = out.txn.commit();
    let it = start(storage, 2);
    let names = vec!["by_name".to_string()];
    let props = vec![("name".to_string(), Value::String("Dee".to_string()))];
    let mut out = it.add_n("b", props, Some(&names), Some(40));
    assert_eq!(
        out.inner.next(),
        Some(Err(GraphError::Storage(StorageError::KeyNotAppended)))
    );
    assert_eq!(out.txn.storage.index_entries.len(), 1);
    let storage = out.txn.abort();
    assert!(storage.index_entries.is_empty());
    assert_eq!(storage.nodes.len(), 1);
}

#[test]
fn exhausted_generator_changes_nothing() {
    let mut storage = GraphStorage::new(vec![]);
    storage.ids.last = u128::MAX;
    let it = start(storage, 1);
    let mut out = it.add_n("a", vec![], None, None);
    assert_eq!(out.inner.next(), Some(Err(GraphError::IdsExhausted)));
    assert!(out.txn.storage.nodes.is_empty());
    let it = RwTraversalIterator { inner: (), txn: out.txn };
    let mut out = it.add_n("a", vec![], None, Some(3));
    assert!(matches!(out.inner.next(), Some(Ok(TraversalVal::Node(_)))));
}

#[test]
fn repeated_property_names_keep_last_value_once() {
    let it = start(GraphStorage::new(vec![]), 1);
    let props = vec![
        ("name".to_string(), Value::String("Old".to_string())),
        ("age".to_string(), Value::U64(1)),
        ("name".to_string(), Value::String("New".to_string())),
    ];
    let mut out = it.add_n("p", props, None, Some(1));
    let node = match out.inner.next() {
        Some(Ok(TraversalVal::Node(n))) => n,
        other => panic!("unexpected {:?}", other),
    };
    assert_eq!(
        node.properties,
        vec![
            ("name".to_string(), Value::String("New".to_string())),
            ("age".to_string(), Value::U64(1)),
        ]
    );
    let storage = out.txn.commit();
    assert_eq!(decode_node(storage.get_node(1).unwrap()), Ok(node));
}
