//! The items that most callers need, in one place.

pub use crate::dag::{Merkle, Missing, NodeCompare};
pub use crate::hash::HashWriter;
pub use crate::idset::IdSet;
pub use crate::node::Node;
pub use crate::store::{BTreeStore, Store, StoreError};
