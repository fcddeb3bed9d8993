//! Verified library for decomposing digit sequences into dictionary words.
//!
//! The centrepiece is an Aho-Corasick-style automaton (`trie`) over the digit
//! alphabet 0-9, together with the occurrence scan, reachability computation
//! and decomposition enumeration built on top of it (`decomp`).  Smaller
//! verified utilities (`fizzbuzz`, `is_sublist`, `scoring_table`,
//! `basic_algs`, `guessing`, `keypad`) accompany it.

pub mod basic_algs;
pub mod decomp;
pub mod fizzbuzz;
pub mod guessing;
pub mod is_sublist;
pub mod keypad;
pub mod scoring_table;
pub mod text;
pub mod trie;

use vstd::prelude::*;

verus! {

/// Digits of the alphabet are `0..10`; each trie node has one child slot per digit.
pub open spec fn valid_digit(d: usize) -> bool {
    d < 10
}

} // verus!
