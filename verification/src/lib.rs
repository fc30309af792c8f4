//! Leaf-deletion reduction of ordered rooted trees, and the reduction DAG
//! (with multi-edges) that it induces.

pub mod canonical;
pub mod counting;
pub mod dag;
pub mod dot;
pub mod dyck;
pub mod dyslexia;
pub mod enumerate;
pub mod equivalence;
pub mod growth;
pub mod hooks;
pub mod labels;
pub mod listing;
pub mod motifs;
pub mod parse;
pub mod random;
pub mod reach;
pub mod reconstruct;
pub mod reduction;
pub mod reordering;
pub mod search;
pub mod sums;
pub mod tree;

pub use dag::{MultiDag, NodeId};
pub use parse::TreeParseError;
pub use reduction::immediate_reductions;
pub use tree::Tree;
