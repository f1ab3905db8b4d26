//! Engine for discrete-time Markov chains over interned states.
//!
//! States and transition labels are handled through their 64-bit digests and
//! probabilities through the bit patterns of their IEEE-754 values; the
//! arithmetic on those values lies with the caller. The library keeps the
//! distribution history, the transition graph and the registries of known
//! digests, and groups successors by digest for the fold of a step and for the
//! composition of rules.
use vstd::prelude::*;

pub mod chain;
pub mod digest_map;
pub mod entity;
pub mod error;
pub mod graph;
pub mod grouping;
pub mod rules;

verus! {

} // verus!
