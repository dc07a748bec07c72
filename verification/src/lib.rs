//! Small inductive algorithms on sequences, words and binary trees, each
//! with a machine-checked contract.
//!
//! The centre of the crate is the longest strictly increasing subsequence:
//! [`increasing`] holds its mathematical model, [`lis`] the quadratic
//! table-driven engine and [`patience`] the log-linear engine, which can
//! also hand back one longest subsequence. Both engines are proved against
//! the same model, so they agree on every input.
//!
//! Beside it stand the greatest sum of a run of consecutive elements
//! ([`maximum_consecutive_subsequence`]), the balance factors of a binary
//! tree ([`balance_factors`]), and two generators of word lists
//! ([`generate_binary_nums`], [`generate_permutations`]).

pub mod balance_factors;
pub mod generate_binary_nums;
pub mod generate_permutations;
pub mod increasing;
pub mod lis;
pub mod maximum_consecutive_subsequence;
pub mod patience;
pub mod words;
