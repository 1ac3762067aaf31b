use std::collections::hash_map::DefaultHasher;

use merkle_dag::prelude::{BTreeStore, HashWriter, IdSet, Merkle, Missing, Node, NodeCompare, Store, StoreError};

/// A store that fails whenever it is asked to, to see what the DAG does then.
struct FlakyStore {
    inner: BTreeStore<DefaultHasher>,
    failing: std::cell::Cell<bool>,
}

impl FlakyStore {
    fn check(&self) -> Result<(), StoreError> {
        if self.failing.get() {
            Err(StoreError::StoreFailure("down".to_string()))
        } else {
            Ok(())
        }
    }
}

impl Store<DefaultHasher> for FlakyStore {
    fn contains(&self, id: &[u8]) -> Result<bool, StoreError> {
        self.check()?;
        self.inner.contains(id)
    }

    fn get(&self, id: &[u8]) -> Result<Option<Node<DefaultHasher>>, StoreError> {
        self.check()?;
        self.inner.get(id)
    }

    fn store(&mut self, node: Node<DefaultHasher>) -> Result<(), StoreError> {
        self.check()?;
        self.inner.store(node)
    }
}

fn flaky_dag() -> Merkle<FlakyStore, DefaultHasher> {
    Merkle::new(FlakyStore {
        inner: BTreeStore::new(),
        failing: std::cell::Cell::new(false),
    })
}

#[test]
fn a_failing_store_leaves_the_dag_as_it_was() {
    let mut dag = flaky_dag();
    let a = dag.add_node(b"a".to_vec(), IdSet::new()).unwrap();
    dag.get_nodes().failing.set(true);
    let result = dag.add_node(b"b".to_vec(), IdSet::from_vec(vec![a.clone()]));
    assert!(matches!(result, Err(StoreError::StoreFailure(text)) if text == "down"));
    assert!(matches!(dag.check_for_node(&a), Err(StoreError::StoreFailure(_))));
    assert!(matches!(dag.get_node_by_id(&a), Err(StoreError::StoreFailure(_))));
    assert!(matches!(dag.compare(&a, b"other"), Err(StoreError::StoreFailure(_))));
    assert!(matches!(
        dag.find_next_non_descendant_nodes(&IdSet::new()),
        Err(StoreError::StoreFailure(_))
    ));
    // Comparing an identifier with itself asks the store nothing.
    assert_eq!(dag.compare(&a, &a).unwrap(), NodeCompare::Equivalent);
    dag.get_nodes().failing.set(false);
    assert_eq!(dag.get_roots().len(), 1);
    assert!(dag.get_roots().contains(&a));
    assert_eq!(dag.get_nodes().inner.len(), 1);
    let b = dag.add_node(b"b".to_vec(), IdSet::from_vec(vec![a.clone()])).unwrap();
    assert_eq!(dag.compare(&a, &b).unwrap(), NodeCompare::Before);
}

#[test]
fn a_failing_store_leaves_the_search_set_as_it_was() {
    let mut dag = flaky_dag();
    let a = dag.add_node(b"a".to_vec(), IdSet::new()).unwrap();
    let b = dag.add_node(b"b".to_vec(), IdSet::from_vec(vec![a.clone()])).unwrap();
    let mut missing: Missing<FlakyStore, DefaultHasher> = dag.gap_fill_iter(IdSet::from_vec(vec![a]));
    dag.get_nodes().failing.set(true);
    assert!(missing.next_nodes().is_err());
    dag.get_nodes().failing.set(false);
    let batch = missing.next_nodes().unwrap().unwrap();
    assert_eq!(batch.len(), 1);
    assert_eq!(batch[0].id(), b.as_slice());
}

#[test]
fn hash_writer_is_reachable_from_the_prelude() {
    let mut hw = <DefaultHasher as HashWriter>::fresh();
    hw.record(b"x");
    assert_eq!(hw.hash().len(), 8);
}
