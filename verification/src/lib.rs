//! Verified building blocks of hardware simulation models: tensors and
//! tensor views, operator partitioning, fabric port layout, memory maps and
//! cache line bookkeeping.
use vstd::prelude::*;

pub mod dtype;
pub mod error;
pub mod util;
pub mod tensor;
pub mod partition;
pub mod tensor_view;
pub mod fabric;
pub mod floor_sum;
pub mod flop_windows;
pub mod progression;
pub mod overlap;
pub mod registers;
pub mod activity;
pub mod cache;
pub mod lsu;
pub mod machine_ops;
pub mod memory;
pub mod operators;
pub mod task;

verus! {
}
