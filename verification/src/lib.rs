//! A solver core for a letter-covering word-chain puzzle: filter a dictionary
//! down to legal words, index the words by first letter, and search for the
//! shortest chain of words (each starting with the previous word's last
//! letter) that together use every letter of a fixed alphabet.

pub mod chain_graph;
pub mod partition;
pub mod search;
pub mod words;
