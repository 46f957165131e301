//! Token-constrained generation: which vocabulary tokens may extend a byte
//! string, by a segmentation lattice or by an automaton walked along a trie.

pub mod automaton;
pub mod bias;
pub mod codec;
pub mod indexed;
pub mod lattice;
pub mod node;
pub mod paths;
pub mod scanner;
pub mod segmentation;
pub mod session;
pub mod trie;
pub mod vocabulary;
