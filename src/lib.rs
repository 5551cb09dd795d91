pub mod algorithms;
pub mod fizzbuzz;
pub mod guessing;
pub mod phonecode;
pub mod render;
pub mod sublist;
pub mod trie;
