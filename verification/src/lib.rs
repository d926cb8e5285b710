//! A Boggle-style word search library: a prefix tree (trie) over a dictionary
//! combined with a depth-bounded, backtracking walk of a square letter grid's
//! 8-neighbor adjacency graph.

pub mod board;
pub mod dictionary;
pub mod solver;
pub mod trie;
