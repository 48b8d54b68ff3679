//! Coherent caches: line states and their transitions.
use vstd::prelude::*;

pub mod coherency_manager;
pub mod config;
pub mod controller;
pub mod contents;
pub mod line_state;
pub mod metrics;

verus! {
} // verus!
