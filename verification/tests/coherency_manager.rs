use gwr_models::cache::coherency_manager::{
    CoherenceMessage, CoherenceOp, CoherenceOpMetrics, CoherencyManagerConfig, DirectoryState,
};
use gwr_models::cache::contents::AccessKind;
use gwr_models::error::ModelError;
use gwr_models::memory::memory_map::{DeviceId, MemoryMap};
use gwr_models::memory::CacheHintType;

const MANAGER: DeviceId = DeviceId(50);
const MEMORY: DeviceId = DeviceId(100);
const OTHER_MEMORY: DeviceId = DeviceId(101);

fn manager() -> DirectoryState {
    let map = MemoryMap::from_regions(&[(0, 0x1000, MEMORY), (0x1000, 0x1000, OTHER_MEMORY)]).unwrap();
    DirectoryState::new(CoherencyManagerConfig::new(32, MANAGER, map))
}

fn message(
    id: u64,
    access_type: AccessKind,
    coherence_op: Option<CoherenceOp>,
    addr: u64,
    src_device: DeviceId,
    dst_device: DeviceId,
) -> CoherenceMessage {
    CoherenceMessage {
        id,
        access_type,
        access_size_bytes: 8,
        dst_addr: addr,
        src_addr: 0x8000,
        dst_device,
        src_device,
        cache_hint: CacheHintType::Allocate,
        coherence_op,
        overhead_size_bytes: 8,
    }
}

fn shared_read(id: u64, addr: u64, cache: u64) -> CoherenceMessage {
    message(id, AccessKind::ReadRequest, Some(CoherenceOp::SharedRead), addr, DeviceId(cache), MANAGER)
}

fn exclusive_write(id: u64, addr: u64, cache: u64) -> CoherenceMessage {
    message(id, AccessKind::WriteRequest, Some(CoherenceOp::ExclusiveWrite), addr, DeviceId(cache), MANAGER)
}

fn ack(id: u64, addr: u64, cache: u64) -> CoherenceMessage {
    message(id, AccessKind::Control, Some(CoherenceOp::InvalidateAck), addr, DeviceId(cache), MANAGER)
}

fn memory_read_response(id: u64, addr: u64) -> CoherenceMessage {
    message(id, AccessKind::ReadResponse, None, addr, MEMORY, MANAGER)
}

#[test]
fn shared_read_is_served_from_memory_and_granted() {
    let mut state = manager();
    let sent = state.handle_message(shared_read(1, 0x104, 1)).unwrap();
    assert_eq!(sent.len(), 1);
    assert_eq!(sent[0].access_type, AccessKind::ReadRequest);
    assert_eq!(sent[0].dst_device, MEMORY);
    assert_eq!(sent[0].src_device, MANAGER);
    assert_eq!(sent[0].coherence_op, None);
    assert_eq!(sent[0].id, 1);
    assert!(state.has_outstanding_work());

    let sent = state.handle_message(memory_read_response(1, 0x104)).unwrap();
    assert_eq!(sent.len(), 1);
    assert_eq!(sent[0].access_type, AccessKind::ReadResponse);
    assert_eq!(sent[0].dst_device, DeviceId(1));
    assert_eq!(sent[0].src_device, MANAGER);
    assert_eq!(sent[0].coherence_op, Some(CoherenceOp::GrantShared));
    assert!(!state.has_outstanding_work());
}

#[test]
fn exclusive_write_invalidates_sharers_in_device_order() {
    let mut state = manager();
    for cache in [3, 1] {
        state.handle_message(shared_read(cache, 0x40, cache)).unwrap();
        state.handle_message(memory_read_response(cache, 0x40)).unwrap();
    }

    let sent = state.handle_message(exclusive_write(7, 0x48, 2)).unwrap();
    assert_eq!(sent.len(), 2);
    assert_eq!(sent[0].dst_device, DeviceId(1));
    assert_eq!(sent[1].dst_device, DeviceId(3));
    for invalidate in &sent {
        assert_eq!(invalidate.access_type, AccessKind::Control);
        assert_eq!(invalidate.coherence_op, Some(CoherenceOp::Invalidate));
        assert_eq!(invalidate.src_device, MANAGER);
        assert_eq!(invalidate.id, 7);
    }

    assert!(state.handle_message(ack(8, 0x40, 3)).unwrap().is_empty());
    let sent = state.handle_message(ack(9, 0x40, 1)).unwrap();
    assert_eq!(sent.len(), 1);
    assert_eq!(sent[0].access_type, AccessKind::Control);
    assert_eq!(sent[0].coherence_op, Some(CoherenceOp::GrantExclusive));
    assert_eq!(sent[0].dst_device, DeviceId(2));
    assert_eq!(sent[0].id, 7);
    assert!(!state.has_outstanding_work());
}

#[test]
fn requests_for_a_busy_line_wait_their_turn() {
    let mut state = manager();
    state.handle_message(exclusive_write(1, 0x80, 1)).unwrap();

    // A read while the line is being fetched waits.
    state.handle_message(shared_read(2, 0x200, 2)).unwrap();
    assert!(state.handle_message(shared_read(3, 0x200, 3)).unwrap().is_empty());

    // The owner's write passes straight through to memory.
    let owner_write = message(4, AccessKind::WriteRequest, None, 0x80, DeviceId(1), MANAGER);
    let sent = state.handle_message(owner_write).unwrap();
    assert_eq!(sent.len(), 1);
    assert_eq!(sent[0].dst_device, MEMORY);
    assert_eq!(sent[0].coherence_op, None);

    // Once the first read completes, the waiting one is served.
    let sent = state.handle_message(memory_read_response(2, 0x200)).unwrap();
    assert_eq!(sent.len(), 2);
    assert_eq!(sent[0].coherence_op, Some(CoherenceOp::GrantShared));
    assert_eq!(sent[0].dst_device, DeviceId(2));
    assert_eq!(sent[1].access_type, AccessKind::ReadRequest);
    assert_eq!(sent[1].dst_device, MEMORY);
    assert_eq!(sent[1].id, 3);
}

#[test]
fn reading_an_owned_line_invalidates_the_owner() {
    let mut state = manager();
    state.handle_message(exclusive_write(1, 0x80, 1)).unwrap();
    let sent = state.handle_message(shared_read(2, 0x80, 2)).unwrap();
    assert_eq!(sent.len(), 1);
    assert_eq!(sent[0].coherence_op, Some(CoherenceOp::Invalidate));
    assert_eq!(sent[0].dst_device, DeviceId(1));

    let sent = state.handle_message(ack(3, 0x80, 1)).unwrap();
    assert_eq!(sent.len(), 1);
    assert_eq!(sent[0].dst_device, MEMORY);
    assert_eq!(sent[0].id, 2);
}

#[test]
fn a_write_from_a_non_owner_is_upgraded_to_exclusive() {
    let mut state = manager();
    let write = message(1, AccessKind::WriteNonPostedRequest, None, 0x80, DeviceId(4), MANAGER);
    let sent = state.handle_message(write).unwrap();
    assert_eq!(sent.len(), 1);
    assert_eq!(sent[0].coherence_op, Some(CoherenceOp::GrantExclusive));
    assert_eq!(sent[0].dst_device, DeviceId(4));
    assert_eq!(sent[0].access_type, AccessKind::Control);
}

#[test]
fn barriers_wait_for_outstanding_work_and_hold_later_requests() {
    let mut state = manager();
    let barrier = message(10, AccessKind::BarrierRequest, None, 0x0, DeviceId(5), MANAGER);

    // An idle manager answers a barrier at once.
    let sent = state.handle_message(barrier).unwrap();
    assert_eq!(sent.len(), 1);
    assert_eq!(sent[0].access_type, AccessKind::BarrierResponse);
    assert_eq!(sent[0].dst_device, DeviceId(5));
    assert_eq!(sent[0].src_device, MANAGER);
    assert!(!state.has_active_barrier());

    // A busy one holds it, and the requests behind it.
    state.handle_message(shared_read(1, 0x100, 1)).unwrap();
    assert!(state.handle_message(barrier).unwrap().is_empty());
    assert!(state.has_active_barrier());
    assert!(state.handle_message(shared_read(2, 0x300, 2)).unwrap().is_empty());

    let sent = state.handle_message(memory_read_response(1, 0x100)).unwrap();
    assert_eq!(sent.len(), 3);
    assert_eq!(sent[0].coherence_op, Some(CoherenceOp::GrantShared));
    assert_eq!(sent[1].access_type, AccessKind::BarrierResponse);
    assert_eq!(sent[2].access_type, AccessKind::ReadRequest);
    assert_eq!(sent[2].id, 2);
    assert!(!state.has_active_barrier());
}

#[test]
fn rejects_accesses_the_backing_memory_cannot_serve() {
    let mut state = manager();
    assert_eq!(
        state.handle_message(shared_read(1, 0x5000, 1)).unwrap_err(),
        ModelError::NoBackingMemoryForAddress { address: 0x5000 }
    );
    assert_eq!(
        state.handle_message(shared_read(2, 0xffc, 1)).unwrap_err(),
        ModelError::SpansMultipleBackingMemories { begin: 0xffc, end: 0x1003 }
    );
    assert_eq!(
        state.handle_message(ack(3, 0x100, 1)).unwrap_err(),
        ModelError::UnexpectedInvalidateAck { line: 0x100 }
    );
    assert_eq!(
        state.handle_message(memory_read_response(4, 0x120)).unwrap_err(),
        ModelError::UnexpectedMemoryResponse { line: 0x120 }
    );
    let odd = message(5, AccessKind::ReadRequest, Some(CoherenceOp::GrantShared), 0x100, DeviceId(1), MANAGER);
    assert_eq!(state.handle_message(odd).unwrap_err(), ModelError::UnsupportedCoherenceRequest);
}

#[test]
fn coherence_op_metrics_count_each_kind() {
    let mut metrics = CoherenceOpMetrics::default();
    assert_eq!(metrics.total(), 0);
    metrics.record(CoherenceOp::Invalidate);
    metrics.record(CoherenceOp::Invalidate);
    metrics.record(CoherenceOp::GrantShared);
    assert_eq!(metrics.op_count(CoherenceOp::Invalidate), 2);
    assert_eq!(metrics.op_count(CoherenceOp::GrantShared), 1);
    assert_eq!(metrics.op_count(CoherenceOp::SharedRead), 0);
    assert_eq!(metrics.total(), 3);
}

#[test]
fn messages_report_link_bytes_and_responses() {
    let read = shared_read(1, 0x100, 1);
    assert_eq!(read.total_bytes(), 8);
    let write = message(2, AccessKind::WriteRequest, None, 0x100, DeviceId(1), MANAGER);
    assert_eq!(write.total_bytes(), 16);
    let response = read.to_response().unwrap();
    assert_eq!(response.access_type, AccessKind::ReadResponse);
    assert_eq!(response.dst_device, DeviceId(1));
    assert_eq!(response.src_device, MANAGER);
    assert_eq!(response.total_bytes(), 16);
    assert_eq!(write.to_response().unwrap_err(), ModelError::UnsupportedResponse);
}
