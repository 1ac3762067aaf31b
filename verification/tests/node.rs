use std::collections::hash_map::DefaultHasher;
use std::hash::Hasher;

use merkle_dag::hash::HashWriter;
use merkle_dag::idset::{copy_bytes, IdSet};
use merkle_dag::lex::{bytes_equal, lex_compare, LexOrder};
use merkle_dag::node::Node;
use merkle_dag::store::{BTreeStore, Store};

fn digest_of(chunks: &[&[u8]]) -> Vec<u8> {
    let mut hasher = DefaultHasher::new();
    for chunk in chunks {
        hasher.write(chunk);
    }
    hasher.finish().to_le_bytes().to_vec()
}

#[test]
fn hash_writer_records_and_reports_without_consuming() {
    let mut hw = <DefaultHasher as HashWriter>::fresh();
    let empty = hw.hash();
    assert_eq!(empty, digest_of(&[]));
    assert_eq!(empty.len(), 8);
    hw.record(b"abc");
    let first = hw.hash();
    assert_eq!(first, hw.hash());
    assert_eq!(first, digest_of(&[b"abc"]));
    assert_ne!(first, empty);
    hw.record(b"def");
    assert_eq!(hw.hash(), digest_of(&[b"abc", b"def"]));
    assert_ne!(hw.hash(), first);
}

#[test]
fn node_identifiers_follow_the_identity_rule() {
    let d1 = vec![9u8, 1];
    let d2 = vec![2u8, 200, 7];
    let d3 = vec![2u8];
    let deps = IdSet::from_vec(vec![d1.clone(), d2.clone(), d3.clone()]);
    let node = Node::<DefaultHasher>::new(b"payload".to_vec(), deps);
    assert_eq!(node.item(), b"payload");
    assert_eq!(node.item_id(), digest_of(&[b"payload"]).as_slice());
    // Ascending lexicographic order: [2] < [2, 200, 7] < [9, 1].
    assert_eq!(node.id(), digest_of(&[b"payload", &d3, &d2, &d1]).as_slice());
    assert_eq!(node.out_degree(), 3);
    assert_eq!(node.dependency_ids().get(0), &d3);
    assert_eq!(node.dependency_ids().get(1), &d2);
    assert_eq!(node.dependency_ids().get(2), &d1);
}

#[test]
fn leaf_identifier_is_the_item_identifier() {
    let node = Node::<DefaultHasher>::new(b"quax".to_vec(), IdSet::new());
    assert_eq!(node.id(), node.item_id());
    assert_eq!(node.id(), digest_of(&[b"quax"]).as_slice());
    assert_eq!(node.out_degree(), 0);
    assert!(node.dependency_ids().is_empty());
}

#[test]
fn equal_inputs_give_equal_identifiers() {
    let deps = vec![vec![1u8, 2], vec![3u8]];
    let a = Node::<DefaultHasher>::new(b"p".to_vec(), IdSet::from_vec(deps.clone()));
    let b = Node::<DefaultHasher>::new(b"p".to_vec(), IdSet::from_vec(deps));
    assert_eq!(a.id(), b.id());
    assert_eq!(a.item_id(), b.item_id());
    let other = Node::<DefaultHasher>::new(b"q".to_vec(), IdSet::new());
    assert_ne!(a.item_id(), other.item_id());
}

#[test]
fn identifier_ignores_the_order_of_dependencies() {
    let x = vec![5u8, 5];
    let y = vec![1u8];
    let z = vec![5u8];
    let orders = [
        vec![x.clone(), y.clone(), z.clone()],
        vec![z.clone(), x.clone(), y.clone()],
        vec![y.clone(), z.clone(), x.clone(), y.clone()],
    ];
    let first = Node::<DefaultHasher>::new(b"foo".to_vec(), IdSet::from_vec(orders[0].clone()));
    for order in orders.iter() {
        let node = Node::<DefaultHasher>::new(b"foo".to_vec(), IdSet::from_vec(order.clone()));
        assert_eq!(node.id(), first.id());
        assert_eq!(node.out_degree(), 3);
    }
}

#[test]
fn clone_keeps_every_accessor() {
    let node = Node::<DefaultHasher>::new(b"p".to_vec(), IdSet::from_vec(vec![vec![1u8], vec![0u8]]));
    let copy = node.clone();
    assert_eq!(copy.id(), node.id());
    assert_eq!(copy.item_id(), node.item_id());
    assert_eq!(copy.item(), node.item());
    assert_eq!(copy.out_degree(), 2);
    assert_eq!(copy.dependency_ids().get(0), node.dependency_ids().get(0));
    assert_eq!(copy.dependency_ids().get(1), node.dependency_ids().get(1));
}

#[test]
fn lexicographic_order_of_byte_strings() {
    assert_eq!(lex_compare(b"", b""), LexOrder::Equal);
    assert_eq!(lex_compare(b"", b"a"), LexOrder::Less);
    assert_eq!(lex_compare(b"a", b""), LexOrder::Greater);
    assert_eq!(lex_compare(b"ab", b"abc"), LexOrder::Less);
    assert_eq!(lex_compare(b"abd", b"abc"), LexOrder::Greater);
    assert_eq!(lex_compare(&[1, 255], &[2]), LexOrder::Less);
    assert_eq!(lex_compare(&[200], &[100, 100]), LexOrder::Greater);
    assert_eq!(lex_compare(b"same", b"same"), LexOrder::Equal);
    assert!(bytes_equal(b"same", b"same"));
    assert!(!bytes_equal(b"same", b"sama"));
    assert!(!bytes_equal(b"same", b"sam"));
    assert_eq!(copy_bytes(b"xyz"), b"xyz".to_vec());
}

#[test]
fn id_set_keeps_members_once_and_in_order() {
    let mut set = IdSet::new();
    assert!(set.is_empty());
    assert_eq!(set.len(), 0);
    assert!(set.insert(vec![3u8]));
    assert!(set.insert(vec![1u8, 9]));
    assert!(set.insert(vec![1u8]));
    assert!(!set.insert(vec![3u8]));
    assert_eq!(set.len(), 3);
    assert!(!set.is_empty());
    assert_eq!(set.get(0), &vec![1u8]);
    assert_eq!(set.get(1), &vec![1u8, 9]);
    assert_eq!(set.get(2), &vec![3u8]);
    assert!(set.contains(&[1, 9]));
    assert!(!set.contains(&[9, 1]));
    assert!(!set.contains(&[]));
    assert!(set.remove(&[1, 9]));
    assert!(!set.remove(&[1, 9]));
    assert_eq!(set.len(), 2);
    assert_eq!(set.get(0), &vec![1u8]);
    assert_eq!(set.get(1), &vec![3u8]);
    let copy = set.clone();
    assert_eq!(copy.len(), 2);
    assert!(copy.contains(&[3]));
}

#[test]
fn id_set_from_vec_drops_repeats() {
    let set = IdSet::from_vec(vec![vec![7u8], vec![], vec![7u8], vec![0u8, 0], vec![]]);
    assert_eq!(set.len(), 3);
    assert_eq!(set.get(0), &Vec::<u8>::new());
    assert_eq!(set.get(1), &vec![0u8, 0]);
    assert_eq!(set.get(2), &vec![7u8]);
}

#[test]
fn many_members_are_found_again() {
    let mut set = IdSet::new();
    for n in 0..200u16 {
        let id = vec![(n.wrapping_mul(37) % 251) as u8, (n % 7) as u8];
        set.insert(id);
    }
    for i in 1..set.len() {
        assert_eq!(
            lex_compare(set.get(i - 1), set.get(i)),
            LexOrder::Less
        );
    }
    for n in 0..200u16 {
        let id = vec![(n.wrapping_mul(37) % 251) as u8, (n % 7) as u8];
        assert!(set.contains(&id));
    }
    assert!(!set.contains(&[255, 255]));
}

#[test]
fn store_keeps_nodes_under_their_identifiers() {
    let mut store: BTreeStore<DefaultHasher> = BTreeStore::new();
    assert!(store.is_empty());
    let a = Node::<DefaultHasher>::new(b"a".to_vec(), IdSet::new());
    let b = Node::<DefaultHasher>::new(b"b".to_vec(), IdSet::from_vec(vec![a.id().to_vec()]));
    let a_id = a.id().to_vec();
    let b_id = b.id().to_vec();
    assert!(!store.contains(&a_id).unwrap());
    assert!(store.get(&a_id).unwrap().is_none());
    store.store(b).unwrap();
    store.store(a).unwrap();
    assert_eq!(store.len(), 2);
    assert!(!store.is_empty());
    assert!(store.contains(&a_id).unwrap());
    assert!(store.contains(&b_id).unwrap());
    let got = store.get(&b_id).unwrap().unwrap();
    assert_eq!(got.id(), b_id.as_slice());
    assert_eq!(got.item(), b"b");
    assert!(got.dependency_ids().contains(&a_id));
    let again = Node::<DefaultHasher>::new(b"a".to_vec(), IdSet::new());
    store.store(again).unwrap();
    assert_eq!(store.len(), 2);
    assert_eq!(store.get(&a_id).unwrap().unwrap().item(), b"a");
}

#[test]
fn nodes_are_equal_when_built_from_the_same_inputs() {
    let deps = vec![vec![4u8], vec![2u8, 2]];
    let a = Node::<DefaultHasher>::new(b"p".to_vec(), IdSet::from_vec(deps.clone()));
    let b = Node::<DefaultHasher>::new(b"p".to_vec(), IdSet::from_vec(vec![deps[1].clone(), deps[0].clone()]));
    let c = Node::<DefaultHasher>::new(b"p".to_vec(), IdSet::from_vec(vec![deps[0].clone()]));
    let d = Node::<DefaultHasher>::new(b"q".to_vec(), IdSet::from_vec(deps));
    assert!(a == b);
    assert!(a == a.clone());
    assert!(a != c);
    assert!(a != d);
    let rebuilt = Node::<DefaultHasher>::new(a.item().to_vec(), a.dependency_ids().clone());
    assert!(rebuilt == a);
}

#[test]
fn id_sets_with_the_same_members_are_the_same() {
    let a = IdSet::from_vec(vec![vec![1u8], vec![2u8], vec![3u8]]);
    let b = IdSet::from_vec(vec![vec![3u8], vec![1u8], vec![2u8], vec![1u8]]);
    let c = IdSet::from_vec(vec![vec![1u8], vec![2u8]]);
    let d = IdSet::from_vec(vec![vec![1u8], vec![2u8], vec![4u8]]);
    assert!(a.same_as(&b));
    assert!(b.same_as(&a));
    assert!(!a.same_as(&c));
    assert!(!a.same_as(&d));
    assert!(IdSet::new().same_as(&IdSet::from_vec(Vec::new())));
}

#[test]
fn default_store_is_empty() {
    let store: BTreeStore<DefaultHasher> = Default::default();
    assert!(store.is_empty());
    assert_eq!(store.len(), 0);
}
