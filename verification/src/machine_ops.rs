//! Counts of the machine operations that compute tasks perform.
use vstd::prelude::*;

verus! {

/// A kind of machine operation.
#[derive(Clone, Copy, Debug, PartialEq, Eq, Hash, Structural)]
pub enum MachineOp {
    Add,
    Compare,
    Mul,
}

/// The number of machine operations of each kind.
#[derive(Clone, Copy, Debug, PartialEq, Eq, Structural)]
pub struct MachineOpCounts {
    pub adds: usize,
    pub compares: usize,
    pub muls: usize,
}

impl Default for MachineOpCounts {
    fn default() -> (counts: Self)
        ensures
            counts == (MachineOpCounts { adds: 0, compares: 0, muls: 0 }),
    {
        MachineOpCounts { adds: 0, compares: 0, muls: 0 }
    }
}

/// The total number of operations of a count.
pub open spec fn total_ops(c: MachineOpCounts) -> nat {
    (c.adds + c.compares + c.muls) as nat
}

impl MachineOpCounts {
    /// The number of operations of every kind together.
    pub fn total(&self) -> (n: usize)
        requires
            total_ops(*self) <= usize::MAX,
        ensures
            n == total_ops(*self),
    {
        self.adds + self.compares + self.muls
    }

    /// Add the counts of `other`, kind by kind.
    pub fn add_assign(&mut self, other: Self)
        requires
            old(self).adds + other.adds <= usize::MAX,
            old(self).compares + other.compares <= usize::MAX,
            old(self).muls + other.muls <= usize::MAX,
        ensures
            final(self).adds == old(self).adds + other.adds,
            final(self).compares == old(self).compares + other.compares,
            final(self).muls == old(self).muls + other.muls,
    {
        self.adds = self.adds + other.adds;
        self.compares = self.compares + other.compares;
        self.muls = self.muls + other.muls;
    }
}

/// Adding counts adds their totals.
pub proof fn lemma_add_assign_total(a: MachineOpCounts, b: MachineOpCounts, sum: MachineOpCounts)
    requires
        sum.adds == a.adds + b.adds,
        sum.compares == a.compares + b.compares,
        sum.muls == a.muls + b.muls,
    ensures
        total_ops(sum) == total_ops(a) + total_ops(b),
{
}

} // verus!
