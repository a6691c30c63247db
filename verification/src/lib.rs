//! Cascading tree-sitter queries: a small selector language over syntax trees, its
//! compilation to tree-sitter queries, and a call graph built from the same trees.

pub mod calltree;
pub mod chains;
pub mod compiler;
pub mod files;
pub mod order;
pub mod outline;
pub mod path;
pub mod query;
pub mod resolve;
pub mod results;
pub mod runner;
pub mod search;
pub mod syntax;
pub mod text;
pub mod tree;
pub mod walk;
