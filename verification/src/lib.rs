//! A content-addressed Merkle DAG: nodes are identified by the digest of their
//! payload and of the identifiers of the nodes they depend on.

pub mod dag;
pub mod graph;
pub mod hash;
pub mod idset;
pub mod lex;
pub mod node;
pub mod prelude;
pub mod store;
