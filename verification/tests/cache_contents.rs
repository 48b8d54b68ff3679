use std::rc::Rc;

use gwr_models::cache::config::CacheConfig;
use gwr_models::cache::coherency_manager::CoherenceMessage;
use gwr_models::cache::contents::{AccessKind, AllocateResult, CacheContents};
use gwr_models::memory::CacheHintType;
use gwr_models::cache::line_state::{AllocateExclusive, AllocateShared, GrantShared, LineState};
use gwr_models::error::ModelError;
use gwr_models::memory::memory_map::{DeviceId, MemoryMap};

fn test_config(num_sets: usize, num_ways: usize) -> CacheConfig {
    let memory_map = Rc::new(MemoryMap::from_regions(&[(0, u64::MAX, DeviceId(0))]).unwrap());
    CacheConfig::new(DeviceId(0), 32, 32, num_sets, num_ways, 8, &memory_map)
}

fn test_access(id: u64, kind: AccessKind, addr: u64) -> CoherenceMessage {
    CoherenceMessage {
        id,
        access_type: kind,
        access_size_bytes: 32,
        dst_addr: addr,
        src_addr: 0x1000,
        dst_device: DeviceId(9),
        src_device: DeviceId(1),
        cache_hint: CacheHintType::Allocate,
        coherence_op: None,
        overhead_size_bytes: 8,
    }
}

#[test]
fn contents_basic_ways() {
    let line_size_bytes = 32;
    let bw_bytes_per_cycle = 32;
    let num_sets = 1024;
    let num_ways = 4;
    let memory_map = Rc::new(MemoryMap::from_regions(&[(0, u64::MAX, DeviceId(0))]).unwrap());
    let config = CacheConfig::new(
        DeviceId(0),
        line_size_bytes,
        bw_bytes_per_cycle,
        num_sets,
        num_ways,
        8,
        &memory_map,
    );
    let mut state = CacheContents::new(config);

    let mut addrs = Vec::new();
    let mut addr = 0x0100_0000;
    for _ in 0..num_ways + 1 {
        addrs.push(addr);
        addr += (line_size_bytes * num_sets * num_ways) as u64;
    }

    for addr in addrs.iter().take(num_ways) {
        assert_eq!(state.state_for(*addr), None);
        assert!(state.allocate::<AllocateShared>(*addr).is_allocated());
        assert_eq!(state.state_for(*addr), Some(LineState::AllocatedShared));
    }

    assert!(state.allocate::<AllocateShared>(addrs[num_ways]).is_blocked());
    for addr in addrs.iter().take(num_ways) {
        assert_eq!(state.state_for(*addr), Some(LineState::AllocatedShared));
    }
}

#[test]
fn contents_invalidate() {
    let num_ways = 4;
    let config = test_config(1024, num_ways);
    let mut state = CacheContents::new(config);

    let addr = 0x40000;
    assert!(state.allocate::<AllocateShared>(addr).is_allocated());
    assert_eq!(state.state_for(addr), Some(LineState::AllocatedShared));
    state.invalidate(addr);
    assert_eq!(state.state_for(addr), None);
}

#[test]
fn cache_contents_tracks_pending_lines_by_line_and_set() {
    let mut state = CacheContents::new(test_config(2, 2));

    let line_a = 0x0000;
    let same_line = line_a + 8;
    let same_set_other_tag = 0x0040;
    let other_set = 0x0020;

    let read_a = test_access(1, AccessKind::ReadRequest, line_a);
    let write_same_line = test_access(2, AccessKind::WriteRequest, same_line);
    let read_same_set = test_access(3, AccessKind::ReadRequest, same_set_other_tag);
    let read_other_set = test_access(4, AccessKind::ReadRequest, other_set);

    state.add_pending_line_waiter(read_a);
    state.add_pending_line_waiter(write_same_line);
    state.add_pending_line_waiter(read_same_set);
    state.add_pending_line_waiter(read_other_set);

    assert!(state.has_pending_write_for_addr(line_a));
    assert!(!state.has_pending_write_for_addr(other_set));

    let matching = state
        .take_pending_line_waiters(&test_access(9, AccessKind::ReadResponse, line_a))
        .unwrap();
    assert_eq!(matching.len(), 2);
    assert!(matching.iter().any(|access| access.id == read_a.id));
    assert!(matching.iter().any(|access| access.id == write_same_line.id));

    let (skip_tag, _) = state.tag_and_set_index_for_addr(line_a);
    let same_set = state.take_pending_line_waiters_for_index_except_tag(line_a, skip_tag).unwrap();
    assert_eq!(same_set.len(), 1);
    assert_eq!(same_set[0].id, read_same_set.id);

    let remaining = state.take_pending_line_waiters(&read_other_set).unwrap();
    assert_eq!(remaining.len(), 1);
    assert_eq!(remaining[0].id, read_other_set.id);
    assert!(state.take_pending_line_waiters(&read_other_set).is_none());
    assert!(state.take_pending_line_waiters_for_index_except_tag(line_a, skip_tag).is_none());
}

#[test]
fn cache_contents_barrier_and_blocked_queues_are_fifo() {
    let mut state = CacheContents::new(test_config(4, 2));
    let first = test_access(1, AccessKind::ReadRequest, 0x100);
    let second = test_access(2, AccessKind::ReadRequest, 0x120);
    let barrier = test_access(3, AccessKind::BarrierRequest, 0x100);

    assert!(!state.has_active_barrier());
    assert!(!state.barrier_forwarded());
    state.set_active_barrier(barrier);
    assert!(state.has_active_barrier());
    assert_eq!(state.active_barrier().unwrap().id, barrier.id);
    state.mark_barrier_forwarded();
    assert!(state.barrier_forwarded());

    state.queue_blocked_device_request(first);
    state.queue_blocked_device_request(second);
    assert_eq!(state.take_next_blocked_device_request().unwrap().id, first.id);
    assert_eq!(state.take_next_blocked_device_request().unwrap().id, second.id);
    assert!(state.take_next_blocked_device_request().is_none());

    assert_eq!(state.clear_active_barrier().unwrap().id, barrier.id);
    assert!(!state.has_active_barrier());
    assert!(!state.barrier_forwarded());
    assert!(state.clear_active_barrier().is_none());
}

#[test]
fn cache_contents_reports_outstanding_work_from_allocations_and_pending_line_waiters() {
    let mut state = CacheContents::new(test_config(4, 2));

    assert!(!state.has_allocated_lines());
    assert!(!state.has_outstanding_work());

    let addr = 0x200;
    assert!(state.allocate::<AllocateShared>(addr).is_allocated());
    assert!(state.has_allocated_lines());
    assert!(state.has_outstanding_work());

    state.transition::<GrantShared>(addr);
    assert!(!state.has_allocated_lines());
    assert!(!state.has_outstanding_work());

    state.add_pending_line_waiter(test_access(1, AccessKind::ReadRequest, addr));
    assert!(state.has_outstanding_work());
}

#[test]
fn cache_contents_maps_coherency_managers_and_reports_missing_regions() {
    let state = CacheContents::new(test_config(4, 2));
    assert!(!state.is_coherent());
    assert_eq!(state.device_id(), DeviceId(0));
    let err = state.coherency_manager_device_id_for_addr(0x100).unwrap_err();
    assert_eq!(err, ModelError::NoCoherencyManagerMap);
    assert!(err.message().contains("No coherency manager memory map configured"));

    let memory_map = Rc::new(MemoryMap::from_regions(&[(0x100, 0x20, DeviceId(7))]).unwrap());
    let coherent = CacheContents::new(test_config(4, 2).with_coherency_manager_memory_map(&memory_map));
    assert!(coherent.is_coherent());
    assert_eq!(coherent.coherency_manager_device_id_for_addr(0x100).unwrap(), DeviceId(7));
    let err = coherent.coherency_manager_device_id_for_addr(0x200).unwrap_err();
    assert_eq!(err, ModelError::NoCoherencyManagerForAddress { address: 0x200 });
    assert!(err.message().contains("No coherency manager mapped for address"));
}

#[test]
fn cache_contents_updates_existing_entries_and_reuses_evictable_ways() {
    let mut state = CacheContents::new(test_config(1, 2));
    let first = 0x0000;
    let second = 0x0020;
    let third = 0x0040;

    assert!(state.allocate::<AllocateShared>(first).is_allocated());
    assert_eq!(state.find_way(state.tag_and_set_index_for_addr(first).0, 0), Some(0));
    assert!(state.allocate::<AllocateExclusive>(second).is_allocated());
    assert!(state.allocate::<AllocateShared>(third).is_blocked());

    assert!(state.transition::<GrantShared>(first));
    assert_eq!(state.state_for(first), Some(LineState::Shared));
    state.grant_exclusive(second, false);
    assert!(state.allocate::<AllocateShared>(third).is_allocated());
    assert_eq!(state.state_for(third), Some(LineState::AllocatedShared));
    assert!(state.state_for(first).is_some() || state.state_for(second).is_some());
}

#[test]
fn modified_victim_must_be_explicitly_evicted_before_reallocation() {
    let mut state = CacheContents::new(test_config(1, 1));
    let first = 0x0000;
    let second = 0x0020;

    assert!(state.allocate::<AllocateExclusive>(first).is_allocated());
    assert!(state.grant_exclusive(first, true));
    assert_eq!(state.state_for(first), Some(LineState::Modified));

    let allocate_result = state.allocate::<AllocateShared>(second);
    let AllocateResult::NeedsWriteback { evicted_modified_addr } = allocate_result else {
        panic!("modified victim should require writeback before reallocation");
    };
    assert_eq!(evicted_modified_addr, first);
    assert_eq!(state.state_for(first), Some(LineState::Modified));
    assert_eq!(state.state_for(second), None);

    assert!(state.evict_modified(evicted_modified_addr));
    assert_eq!(state.state_for(first), None);

    assert!(state.allocate::<AllocateShared>(second).is_allocated());
    assert_eq!(state.state_for(second), Some(LineState::AllocatedShared));
}

#[test]
fn waiting_non_posted_writes_complete_per_line() {
    let mut state = CacheContents::new(test_config(2, 2));
    let write = test_access(1, AccessKind::WriteNonPostedRequest, 0x0);
    let posted = test_access(2, AccessKind::WriteRequest, 0x40);
    state.add_pending_exclusive_write(write);
    state.add_pending_exclusive_write(posted);
    assert!(state.has_pending_write_for_addr(0x0));
    assert!(state.has_pending_write_for_addr(0x40));
    let done = state.take_pending_nonposted_completions(&test_access(9, AccessKind::WriteNonPostedResponse, 0x8)).unwrap();
    assert_eq!(done, vec![write]);
    assert!(!state.has_pending_write_for_addr(0x0));
    assert!(state.take_pending_nonposted_completions(&write).is_none());
    let filled = state.take_pending_line_waiters(&posted).unwrap();
    assert_eq!(filled, vec![posted]);
}

#[test]
fn noallocate_completions_match_by_id() {
    let mut state = CacheContents::new(test_config(2, 2));
    let a = test_access(5, AccessKind::ReadRequest, 0x100);
    let b = test_access(6, AccessKind::ReadRequest, 0x100);
    state.add_pending_noallocate_completion(a);
    state.add_pending_noallocate_completion(b);
    assert!(state.take_pending_noallocate_completion(&test_access(7, AccessKind::ReadResponse, 0x100)).is_none());
    assert_eq!(state.take_pending_noallocate_completion(&test_access(6, AccessKind::ReadResponse, 0x100)), Some(b));
    assert_eq!(state.take_pending_noallocate_completion(&test_access(5, AccessKind::ReadResponse, 0x100)), Some(a));
    assert!(!state.has_outstanding_work());
}

#[test]
fn device_for_address_uses_backing_memory_when_not_coherent() {
    let memory_map = Rc::new(MemoryMap::from_regions(&[(0x1000, 0x100, DeviceId(3))]).unwrap());
    let state = CacheContents::new(CacheConfig::new(DeviceId(1), 32, 16, 4, 2, 8, &memory_map));
    assert_eq!(state.device_id_for_addr(0x1010), Ok(DeviceId(3)));
    assert_eq!(state.device_id_for_addr(0x2000), Err(ModelError::NoBackingMemoryForAddress { address: 0x2000 }));
    assert_eq!(state.bw_bytes_per_cycle(), 16);
    assert_eq!(state.tag_and_set_index_for_addr(0x1010), (0x1010 / 32 / 4, (0x1010 / 32) % 4));
}

#[test]
fn allocation_leaves_other_sets_alone() {
    let mut state = CacheContents::new(test_config(2, 1));
    assert!(state.allocate::<AllocateExclusive>(0x20).is_allocated());
    assert!(state.allocate::<AllocateShared>(0x0).is_allocated());
    assert_eq!(state.state_for(0x20), Some(LineState::AllocatedExclusive));
    assert_eq!(state.state_for(0x0), Some(LineState::AllocatedShared));
    assert!(state.transition::<GrantShared>(0x0));
    assert_eq!(state.state_for(0x0), Some(LineState::Shared));
    assert!(!state.transition::<GrantShared>(0x20));
    assert_eq!(state.state_for(0x20), Some(LineState::AllocatedExclusive));
}

#[test]
fn invalidation_stops_at_an_empty_way_with_the_same_tag() {
    let mut state = CacheContents::new(test_config(1, 2));
    assert!(state.allocate::<AllocateShared>(0x20).is_allocated());
    assert!(state.allocate::<AllocateShared>(0x0).is_allocated());
    assert_eq!(state.find_way(0, 0), Some(1));
    state.invalidate(0x20);
    assert_eq!(state.state_for(0x20), None);
    state.invalidate(0x0);
    assert_eq!(state.state_for(0x0), Some(LineState::AllocatedShared));
}
