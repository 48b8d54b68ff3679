//! The callbacks that control and status registers make on accesses.
use vstd::prelude::*;

verus! {

/// Told of each completed write: the value before, the value written and
/// the value after.
pub trait Written {
    fn written(&self, old_value: u64, value_written: u64, new_value: u64);
}

/// Told of each completed read and the value read.
pub trait Read {
    fn read(&self, value_read: u64);
}

} // verus!
