//! Memories: their configuration, the maps from addresses to devices, and
//! the bookkeeping of a simple set-associative cache.
use vstd::prelude::*;

use crate::cache::coherency_manager::{CoherenceMessage, response_of};
use crate::cache::contents::AccessKind;
use crate::error::ModelError;

pub mod access_gen;
pub mod cache;
pub mod memory_map;

verus! {

/// Whether a request asks caches to allocate a line for it.
#[derive(Clone, Copy, Debug, PartialEq, Eq, Structural)]
pub enum CacheHintType {
    Allocate,
    NoAllocate,
}

/// What a memory gives back for a read.
pub trait ReadMemory {
    fn read(&self) -> Vec<u8>;
}

/// The configuration of a memory.
#[derive(Clone, Copy, Debug)]
pub struct MemoryConfig {
    base_address: u64,
    capacity_bytes: usize,
    bw_bytes_per_cycle: usize,
    delay_ticks: usize,
}

/// What a memory configuration is: base address, capacity, bandwidth and
/// delay.
pub struct MemoryConfigModel {
    pub base_address: u64,
    pub capacity_bytes: usize,
    pub bw_bytes_per_cycle: usize,
    pub delay_ticks: usize,
}

impl View for MemoryConfig {
    type V = MemoryConfigModel;

    closed spec fn view(&self) -> MemoryConfigModel {
        MemoryConfigModel {
            base_address: self.base_address,
            capacity_bytes: self.capacity_bytes,
            bw_bytes_per_cycle: self.bw_bytes_per_cycle,
            delay_ticks: self.delay_ticks,
        }
    }
}

impl MemoryConfig {
    /// A memory configuration.
    pub fn new(base_address: u64, capacity_bytes: usize, bw_bytes_per_cycle: usize, delay_ticks: usize) -> (config: Self)
        ensures
            config@ == (MemoryConfigModel { base_address, capacity_bytes, bw_bytes_per_cycle, delay_ticks }),
    {
        MemoryConfig { base_address, capacity_bytes, bw_bytes_per_cycle, delay_ticks }
    }

    /// The first address of the memory.
    pub fn base_address(&self) -> (addr: u64)
        ensures
            addr == self@.base_address,
    {
        self.base_address
    }

    /// The capacity in bytes.
    pub fn capacity_bytes(&self) -> (n: usize)
        ensures
            n == self@.capacity_bytes,
    {
        self.capacity_bytes
    }

    /// The bytes transferred per cycle.
    pub fn bw_bytes_per_cycle(&self) -> (n: usize)
        ensures
            n == self@.bw_bytes_per_cycle,
    {
        self.bw_bytes_per_cycle
    }

    /// The cycles the memory is busy with an access: its payload over the
    /// bandwidth, rounded up.
    pub fn access_ticks(&self, access: &CoherenceMessage) -> (ticks: usize)
        requires
            self@.bw_bytes_per_cycle >= 1,
        ensures
            ticks == (access.access_size_bytes + self@.bw_bytes_per_cycle - 1) / (self@.bw_bytes_per_cycle as int),
    {
        let whole = access.access_size_bytes / self.bw_bytes_per_cycle;
        let part = access.access_size_bytes % self.bw_bytes_per_cycle;
        proof {
            let n = access.access_size_bytes as int;
            let b = self.bw_bytes_per_cycle as int;
            assert(n == whole * b + part) by (nonlinear_arith)
                requires
                    b >= 1,
                    whole == n / b,
                    part == n % b,
            ;
            if part == 0 {
                assert((n + b - 1) / b == whole) by (nonlinear_arith)
                    requires
                        b >= 1,
                        n == whole * b,
                        whole >= 0,
                ;
            } else {
                assert((n + b - 1) / b == whole + 1) by (nonlinear_arith)
                    requires
                        b >= 1,
                        n == whole * b + part,
                        1 <= part < b,
                        whole >= 0,
                ;
                assert(whole + 1 <= usize::MAX) by (nonlinear_arith)
                    requires
                        n == whole * b + part,
                        1 <= part < b,
                        n <= usize::MAX,
                        whole >= 0,
                ;
            }
        }
        if part == 0 {
            whole
        } else {
            whole + 1
        }
    }

    /// The delay of an access, in ticks.
    pub fn delay_ticks(&self) -> (n: usize)
        ensures
            n == self@.delay_ticks,
    {
        self.delay_ticks
    }
}

/// The bytes a memory has read and written.
#[derive(Clone, Copy, Debug)]
pub struct MemoryStats {
    bytes_read: usize,
    bytes_written: usize,
}

impl View for MemoryStats {
    type V = (nat, nat);

    closed spec fn view(&self) -> (nat, nat) {
        (self.bytes_read as nat, self.bytes_written as nat)
    }
}

impl Default for MemoryStats {
    fn default() -> (stats: Self)
        ensures
            stats@ == (0nat, 0nat),
    {
        MemoryStats { bytes_read: 0, bytes_written: 0 }
    }
}

/// An access lies inside the memory, and neither its last address nor the
/// end of the memory overflows.
pub open spec fn access_in_memory(c: MemoryConfigModel, m: CoherenceMessage) -> bool {
    &&& m.dst_addr + m.access_size_bytes >= 1
    &&& m.dst_addr + m.access_size_bytes <= u64::MAX
    &&& c.base_address + c.capacity_bytes <= u64::MAX
    &&& m.dst_addr >= c.base_address
    &&& m.dst_addr + m.access_size_bytes - 1 < c.base_address + c.capacity_bytes
}

/// The count an access adds to stays within `usize`.
pub open spec fn count_fits(stats: (nat, nat), m: CoherenceMessage) -> bool {
    match m.access_type {
        AccessKind::ReadRequest => stats.0 + m.access_size_bytes <= usize::MAX,
        AccessKind::WriteRequest | AccessKind::WriteNonPostedRequest => stats.1 + m.access_size_bytes <= usize::MAX,
        _ => true,
    }
}

/// What a memory does with an access: the bytes read and written
/// afterwards, and the response it sends, if any. A read is answered with
/// its data, a non-posted write with an acknowledgement, a posted write not
/// at all; responses and barriers are refused.
pub open spec fn memory_step(stats: (nat, nat), m: CoherenceMessage) -> Result<((nat, nat), Option<CoherenceMessage>), ModelError> {
    match m.access_type {
        AccessKind::ReadRequest => Ok((((stats.0 + m.access_size_bytes) as nat, stats.1), Some(response_of(m)->Ok_0))),
        AccessKind::WriteRequest => Ok(((stats.0, (stats.1 + m.access_size_bytes) as nat), None)),
        AccessKind::WriteNonPostedRequest => Ok(((stats.0, (stats.1 + m.access_size_bytes) as nat), Some(response_of(m)->Ok_0))),
        _ => Err(ModelError::UnsupportedMemoryAccess),
    }
}

impl MemoryStats {
    /// Serve one access of a memory with the given configuration: count its
    /// bytes and give the response to send, if any.
    pub fn serve_access(&mut self, config: &MemoryConfig, access: CoherenceMessage) -> (result: Result<Option<CoherenceMessage>, ModelError>)
        requires
            access_in_memory(config@, access),
            access.access_type != AccessKind::Control,
            count_fits(old(self)@, access),
        ensures
            match memory_step(old(self)@, access) {
                Ok((s, r)) => final(self)@ == s && result == Ok::<Option<CoherenceMessage>, ModelError>(r),
                Err(e) => final(self)@ == old(self)@ && result == Err::<Option<CoherenceMessage>, ModelError>(e),
            },
    {
        match access.access_type {
            AccessKind::ReadRequest => {
                self.bytes_read = self.bytes_read + access.access_size_bytes;
                match access.to_response() {
                    Ok(r) => Ok(Some(r)),
                    Err(e) => Err(e),
                }
            },
            AccessKind::WriteRequest => {
                self.bytes_written = self.bytes_written + access.access_size_bytes;
                Ok(None)
            },
            AccessKind::WriteNonPostedRequest => {
                self.bytes_written = self.bytes_written + access.access_size_bytes;
                match access.to_response() {
                    Ok(r) => Ok(Some(r)),
                    Err(e) => Err(e),
                }
            },
            _ => Err(ModelError::UnsupportedMemoryAccess),
        }
    }

    /// The bytes read.
    pub fn bytes_read(&self) -> (n: usize)
        ensures
            n == self@.0,
    {
        self.bytes_read
    }

    /// The bytes written.
    pub fn bytes_written(&self) -> (n: usize)
        ensures
            n == self@.1,
    {
        self.bytes_written
    }
}

} // verus!
