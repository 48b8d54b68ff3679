//! The configuration of a coherent cache.
use std::rc::Rc;

use vstd::prelude::*;

use crate::memory::memory_map::{DeviceId, MemoryMap, MemoryRegion};

verus! {

/// The geometry, timing and address maps of a coherent cache.
#[derive(Clone)]
pub struct CacheConfig {
    pub line_size_bytes: usize,
    pub bw_bytes_per_cycle: usize,
    pub num_sets: usize,
    pub num_ways: usize,
    pub delay_ticks: usize,
    pub device_id: DeviceId,
    pub memory_map: Rc<MemoryMap>,
    pub coherency_manager_memory_map: Option<Rc<MemoryMap>>,
}

/// The regions of an optional memory map.
pub open spec fn map_regions(map: Option<Rc<MemoryMap>>) -> Option<Seq<MemoryRegion>> {
    match map {
        Some(m) => Some((*m)@),
        None => None,
    }
}

impl CacheConfig {
    /// A configuration without a coherency manager.
    pub fn new(
        device_id: DeviceId,
        line_size_bytes: usize,
        bw_bytes_per_cycle: usize,
        num_sets: usize,
        num_ways: usize,
        delay_ticks: usize,
        memory_map: &Rc<MemoryMap>,
    ) -> (config: Self)
        ensures
            config.device_id == device_id,
            config.line_size_bytes == line_size_bytes,
            config.bw_bytes_per_cycle == bw_bytes_per_cycle,
            config.num_sets == num_sets,
            config.num_ways == num_ways,
            config.delay_ticks == delay_ticks,
            (*config.memory_map)@ == (**memory_map)@,
            config.coherency_manager_memory_map is None,
    {
        CacheConfig {
            line_size_bytes,
            bw_bytes_per_cycle,
            num_sets,
            num_ways,
            delay_ticks,
            device_id,
            memory_map: memory_map.clone(),
            coherency_manager_memory_map: None,
        }
    }

    /// The same configuration, with coherence handled by the managers in
    /// `memory_map`.
    pub fn with_coherency_manager_memory_map(self, memory_map: &Rc<MemoryMap>) -> (config: Self)
        ensures
            config.device_id == self.device_id,
            config.line_size_bytes == self.line_size_bytes,
            config.bw_bytes_per_cycle == self.bw_bytes_per_cycle,
            config.num_sets == self.num_sets,
            config.num_ways == self.num_ways,
            config.delay_ticks == self.delay_ticks,
            (*config.memory_map)@ == (*self.memory_map)@,
            map_regions(config.coherency_manager_memory_map) == Some((**memory_map)@),
    {
        let mut config = self;
        config.coherency_manager_memory_map = Some(memory_map.clone());
        config
    }
}

} // verus!
