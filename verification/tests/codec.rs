use std::collections::hash_map::DefaultHasher;

use ciborium::value::Value;
use ciborium::{de::from_reader, ser::into_writer};
use merkle_dag::dag::Merkle;
use merkle_dag::idset::IdSet;
use merkle_dag::node::Node;
use merkle_dag::store::BTreeStore;

type TestDag = Merkle<BTreeStore<DefaultHasher>, DefaultHasher>;

fn byte_array(bytes: &[u8]) -> Value {
    Value::Array(bytes.iter().map(|b| Value::Integer((*b).into())).collect())
}

fn bytes_of(value: &Value) -> Vec<u8> {
    match value {
        Value::Array(items) => items
            .iter()
            .map(|v| match v {
                Value::Integer(i) => u8::try_from(*i).unwrap(),
                _ => panic!("not a byte"),
            })
            .collect(),
        _ => panic!("not an array"),
    }
}

/// Writes the two fields that a node is made from, and nothing else.
fn encode(node: &Node<DefaultHasher>) -> Vec<u8> {
    let deps = node.dependency_ids();
    let mut dep_values = Vec::new();
    for i in 0..deps.len() {
        dep_values.push(byte_array(deps.get(i)));
    }
    let record = Value::Map(vec![
        (Value::Text("item".to_string()), byte_array(node.item())),
        (Value::Text("dependency_ids".to_string()), Value::Array(dep_values)),
    ]);
    let mut buf: Vec<u8> = Vec::new();
    into_writer(&record, &mut buf).unwrap();
    buf
}

/// Reads the two fields back and builds the node anew from them.
fn decode(buf: &[u8]) -> Node<DefaultHasher> {
    let record: Value = from_reader(buf).unwrap();
    let mut item: Option<Vec<u8>> = None;
    let mut deps: Option<Vec<Vec<u8>>> = None;
    match record {
        Value::Map(entries) => {
            for (key, value) in entries.iter() {
                match key {
                    Value::Text(name) if name == "item" => item = Some(bytes_of(value)),
                    Value::Text(name) if name == "dependency_ids" => match value {
                        Value::Array(items) => deps = Some(items.iter().map(bytes_of).collect()),
                        _ => panic!("not an array"),
                    },
                    _ => {}
                }
            }
        }
        _ => panic!("not a map"),
    }
    Node::new(item.unwrap(), IdSet::from_vec(deps.unwrap()))
}

fn assert_same(a: &Node<DefaultHasher>, b: &Node<DefaultHasher>) {
    assert_eq!(a.id(), b.id());
    assert_eq!(a.item_id(), b.item_id());
    assert_eq!(a.item(), b.item());
    assert_eq!(a.dependency_ids().len(), b.dependency_ids().len());
    for i in 0..a.dependency_ids().len() {
        assert_eq!(a.dependency_ids().get(i), b.dependency_ids().get(i));
    }
}

#[test]
fn test_node_deserializaton() {
    let mut dag = TestDag::new(BTreeStore::new());
    let simple_node_id = dag.add_node("simple".as_bytes().to_vec(), IdSet::new()).unwrap();
    let mut dep_set = IdSet::new();
    dep_set.insert(simple_node_id.clone());
    let root_node_id = dag.add_node("root".as_bytes().to_vec(), dep_set).unwrap();

    let simple_node_to_serialize = dag
        .get_node_by_id(simple_node_id.as_slice())
        .unwrap()
        .unwrap();
    let root_node_to_serialize = dag
        .get_node_by_id(root_node_id.as_slice())
        .unwrap()
        .unwrap();

    let simple_node_vec = encode(&simple_node_to_serialize);
    let root_node_vec = encode(&root_node_to_serialize);

    let simple_node_de = decode(simple_node_vec.as_slice());
    let root_node_de = decode(root_node_vec.as_slice());
    assert_eq!(simple_node_to_serialize.id(), simple_node_de.id());
    assert_eq!(simple_node_to_serialize.item_id(), simple_node_de.item_id());
    assert_eq!(simple_node_to_serialize.item(), simple_node_de.item());
    assert_eq!(
        simple_node_to_serialize.dependency_ids().len(),
        simple_node_de.dependency_ids().len()
    );
    assert_eq!(root_node_to_serialize.id(), root_node_de.id());
    assert_eq!(root_node_to_serialize.item_id(), root_node_de.item_id());
    assert_eq!(root_node_to_serialize.item(), root_node_de.item());
    assert_same(&root_node_to_serialize, &root_node_de);
    assert_same(&simple_node_to_serialize, &simple_node_de);
}

#[test]
fn every_node_of_a_dag_survives_the_codec() {
    let mut dag = TestDag::new(BTreeStore::new());
    let mut all: Vec<Vec<u8>> = Vec::new();
    let mut level: Vec<Vec<u8>> = Vec::new();
    for depth in 0..4u8 {
        let mut next: Vec<Vec<u8>> = Vec::new();
        for n in 0..3u8 {
            let deps: Vec<Vec<u8>> = level.iter().take(1 + n as usize).cloned().collect();
            let id = dag.add_node(vec![depth, n, 255], IdSet::from_vec(deps)).unwrap();
            all.push(id.clone());
            next.push(id);
        }
        level = next;
    }
    for id in all.iter() {
        let node = dag.get_node_by_id(id).unwrap().unwrap();
        let node_de = decode(encode(&node).as_slice());
        assert_same(&node, &node_de);
    }
}

#[test]
fn the_record_holds_no_identifier() {
    let node = Node::<DefaultHasher>::new(b"item".to_vec(), IdSet::new());
    let record: Value = from_reader(encode(&node).as_slice()).unwrap();
    match record {
        Value::Map(entries) => {
            assert_eq!(entries.len(), 2);
            assert_eq!(entries[0].0, Value::Text("item".to_string()));
            assert_eq!(entries[1].0, Value::Text("dependency_ids".to_string()));
        }
        _ => panic!("not a map"),
    }
}
