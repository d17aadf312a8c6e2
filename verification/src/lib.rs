//! Matching of CSS selectors against the elements of a document.

pub mod bloom;
pub mod combinators;
pub mod conditions;
pub mod laws;
pub mod matching;
pub mod parser;
pub mod relations;
pub mod semantics;
pub mod soundness;
pub mod tree;
