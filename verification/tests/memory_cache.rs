use gwr_models::cache::coherency_manager::CoherenceMessage;
use gwr_models::cache::contents::AccessKind;
use gwr_models::error::ModelError;
use gwr_models::memory::cache::{Cache, CacheConfig, EntryState, SimpleCacheAction};
use gwr_models::memory::memory_map::DeviceId;
use gwr_models::memory::CacheHintType;

fn message(id: u64, access_type: AccessKind, addr: u64) -> CoherenceMessage {
    CoherenceMessage {
        id,
        access_type,
        access_size_bytes: 8,
        dst_addr: addr,
        src_addr: 0x9000,
        dst_device: DeviceId(7),
        src_device: DeviceId(1),
        cache_hint: CacheHintType::Allocate,
        coherence_op: None,
        overhead_size_bytes: 8,
    }
}

fn answer(m: CoherenceMessage) -> CoherenceMessage {
    m.to_response().unwrap()
}

#[test]
fn cache_basic_ways() {
    let line_size_bytes = 32;
    let bw_bytes_per_cycle = 32;
    let num_sets = 1024;
    let num_ways = 4;
    let config = CacheConfig::new(line_size_bytes, bw_bytes_per_cycle, num_sets, num_ways, 8);
    let mut state = Cache::new(config);

    let mut addrs = Vec::new();
    let mut addr = 0x1000000;
    for _ in 0..num_ways + 1 {
        addrs.push(addr);
        addr += (line_size_bytes * num_sets * num_ways) as u64;
    }

    for addr in addrs.iter().take(num_ways) {
        assert_eq!(state.state_for(*addr), None);
        state.allocate(*addr);
        assert_eq!(state.state_for(*addr), Some(EntryState::Allocated));
    }

    state.allocate(addrs[num_ways]);

    // Should have been evicted
    assert_eq!(state.state_for(addrs[0]), None);
    for i in 0..num_ways {
        // While all the rest remain
        assert_eq!(state.state_for(addrs[i + 1]), Some(EntryState::Allocated));
    }
}

#[test]
fn cache_invalidate() {
    let num_ways = 4;
    let config = CacheConfig::new(32, 32, 1024, num_ways, 8);
    let mut state = Cache::new(config);

    let addr = 0x40000;
    state.allocate(addr);
    assert_eq!(state.state_for(addr), Some(EntryState::Allocated));
    state.invalidate(addr);
    assert_eq!(state.state_for(addr), None);
}

#[test]
fn reads_miss_wait_for_the_fill_and_then_hit() {
    let mut cache = Cache::new(CacheConfig::new(32, 32, 16, 2, 4));
    let first = message(1, AccessKind::ReadRequest, 0x100);
    assert_eq!(cache.handle_request(first), Ok(vec![SimpleCacheAction::ToMemory(first)]));
    assert_eq!(cache.state_for(0x100), Some(EntryState::Allocated));
    assert_eq!((cache.num_hits(), cache.num_misses()), (0, 1));

    let second = message(2, AccessKind::ReadRequest, 0x108);
    assert_eq!(cache.handle_request(second), Ok(vec![]));
    assert_eq!((cache.num_hits(), cache.num_misses()), (1, 1));

    let fill = answer(first);
    assert_eq!(
        cache.handle_response(fill),
        Ok(vec![SimpleCacheAction::ToDevice(fill), SimpleCacheAction::ToDevice(answer(second))])
    );
    assert_eq!(cache.state_for(0x100), Some(EntryState::ValidData));

    let third = message(3, AccessKind::ReadRequest, 0x110);
    assert_eq!(cache.handle_request(third), Ok(vec![SimpleCacheAction::ToDevice(answer(third))]));
    assert_eq!((cache.num_hits(), cache.num_misses()), (2, 1));
    assert_eq!(cache.payload_bytes_read(), 24);
}

#[test]
fn writes_invalidate_the_line_and_go_to_memory() {
    let mut cache = Cache::new(CacheConfig::new(32, 32, 16, 2, 4));
    let read = message(1, AccessKind::ReadRequest, 0x200);
    cache.handle_request(read).unwrap();
    cache.handle_response(answer(read)).unwrap();
    assert_eq!(cache.state_for(0x200), Some(EntryState::ValidData));

    let write = message(2, AccessKind::WriteNonPostedRequest, 0x200);
    assert_eq!(cache.handle_request(write), Ok(vec![SimpleCacheAction::ToMemory(write)]));
    assert_eq!(cache.state_for(0x200), None);
    assert_eq!(cache.payload_bytes_written(), 8);

    cache.handle_request(read).unwrap();
    let control = message(3, AccessKind::Control, 0x200);
    assert_eq!(cache.handle_request(control), Ok(vec![]));
    assert_eq!(cache.state_for(0x200), None);
    assert_eq!(cache.handle_response(control), Ok(vec![]));
}

#[test]
fn unsupported_accesses_are_refused() {
    let mut cache = Cache::new(CacheConfig::new(32, 32, 16, 2, 4));
    assert_eq!(
        cache.handle_request(message(1, AccessKind::ReadResponse, 0)),
        Err(ModelError::UnsupportedDeviceAccess)
    );
    assert_eq!(
        cache.handle_response(message(1, AccessKind::ReadRequest, 0)),
        Err(ModelError::UnsupportedResponseAccess)
    );
    assert_eq!(
        cache.handle_response(message(1, AccessKind::WriteNonPostedRequest, 0)),
        Err(ModelError::UnsupportedResponseAccess)
    );
    assert_eq!(cache.metrics().payload_bytes_read, 0);
}
