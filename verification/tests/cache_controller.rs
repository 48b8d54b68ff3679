use std::rc::Rc;

use gwr_models::cache::coherency_manager::{CoherenceMessage, CoherenceOp};
use gwr_models::cache::config::CacheConfig;
use gwr_models::cache::contents::AccessKind;
use gwr_models::cache::controller::{CacheAction, CacheController, CacheEvent};
use gwr_models::cache::line_state::LineState;
use gwr_models::cache::metrics::CacheMetrics;
use gwr_models::error::ModelError;
use gwr_models::memory::memory_map::{DeviceId, MemoryMap};
use gwr_models::memory::CacheHintType;

const CACHE: DeviceId = DeviceId(0);
const DEVICE: DeviceId = DeviceId(1);
const MEMORY: DeviceId = DeviceId(7);
const MANAGER: DeviceId = DeviceId(50);

fn config(num_sets: usize, num_ways: usize) -> CacheConfig {
    let memory_map = Rc::new(MemoryMap::from_regions(&[(0, 0x10000, MEMORY)]).unwrap());
    CacheConfig::new(CACHE, 32, 32, num_sets, num_ways, 8, &memory_map)
}

fn request(id: u64, access_type: AccessKind, addr: u64) -> CoherenceMessage {
    CoherenceMessage {
        id,
        access_type,
        access_size_bytes: 8,
        dst_addr: addr,
        src_addr: 0x9000,
        dst_device: MEMORY,
        src_device: DEVICE,
        cache_hint: CacheHintType::Allocate,
        coherence_op: None,
        overhead_size_bytes: 8,
    }
}

fn response_from_memory(id: u64, access_type: AccessKind, addr: u64, op: Option<CoherenceOp>) -> CoherenceMessage {
    CoherenceMessage { dst_device: DEVICE, src_device: MEMORY, coherence_op: op, ..request(id, access_type, addr) }
}

fn sent_to_memory(actions: &[CacheAction]) -> Vec<CoherenceMessage> {
    actions
        .iter()
        .filter_map(|a| match a {
            CacheAction::ToMemory(m) => Some(*m),
            _ => None,
        })
        .collect()
}

fn sent_to_device(actions: &[CacheAction]) -> Vec<CoherenceMessage> {
    actions
        .iter()
        .filter_map(|a| match a {
            CacheAction::ToDevice(m) => Some(*m),
            _ => None,
        })
        .collect()
}

#[test]
fn read_miss_allocates_forwards_and_is_answered_after_the_fill() {
    let mut cache = CacheController::new(config(4, 2));
    let read = request(1, AccessKind::ReadRequest, 0x100);

    let actions = cache.handle_device_request(read).unwrap();
    assert_eq!(
        actions,
        vec![
            CacheAction::Record(CacheEvent::ReceivedOp { op: None }),
            CacheAction::Record(CacheEvent::PayloadRead { bytes: 8 }),
            CacheAction::Record(CacheEvent::ReadMiss),
            CacheAction::Record(CacheEvent::SentOp { op: Some(CoherenceOp::SharedRead) }),
            CacheAction::ToMemory(CoherenceMessage { coherence_op: Some(CoherenceOp::SharedRead), ..read }),
        ]
    );
    assert_eq!(cache.contents().state_for(0x100), Some(LineState::AllocatedShared));

    let actions = cache.handle_memory_response(response_from_memory(1, AccessKind::ReadResponse, 0x100, None)).unwrap();
    assert_eq!(actions, vec![CacheAction::Record(CacheEvent::ReceivedOp { op: None })]);
    assert_eq!(cache.contents().state_for(0x100), Some(LineState::Shared));
    assert!(cache.has_retry_requests());

    let actions = cache.handle_next_retry().unwrap();
    assert!(!cache.has_retry_requests());
    let answers = sent_to_device(&actions);
    assert_eq!(answers.len(), 1);
    assert_eq!(answers[0].access_type, AccessKind::ReadResponse);
    assert_eq!(answers[0].dst_device, DEVICE);
    assert_eq!(answers[0].src_device, MEMORY);
    assert_eq!(answers[0].id, 1);
    assert!(actions.iter().all(|a| !matches!(a, CacheAction::Record(_))));
}

#[test]
fn a_write_to_a_shared_line_upgrades_it_and_marks_it_modified() {
    let mut cache = CacheController::new(config(4, 2));
    cache.handle_device_request(request(1, AccessKind::ReadRequest, 0x40)).unwrap();
    cache.handle_memory_response(response_from_memory(1, AccessKind::ReadResponse, 0x40, None)).unwrap();
    cache.handle_next_retry().unwrap();

    let write = request(2, AccessKind::WriteRequest, 0x48);
    let actions = cache.handle_device_request(write).unwrap();
    assert!(actions.contains(&CacheAction::Record(CacheEvent::WriteMiss)));
    assert!(actions.contains(&CacheAction::Record(CacheEvent::CompletedWrite {
        access_type: AccessKind::WriteRequest,
        bytes: 8
    })));
    let forwarded = sent_to_memory(&actions);
    assert_eq!(forwarded.len(), 1);
    assert_eq!(forwarded[0].coherence_op, Some(CoherenceOp::ExclusiveWrite));
    assert_eq!(cache.contents().state_for(0x40), Some(LineState::Modified));

    // A later write hits.
    let actions = cache.handle_device_request(request(3, AccessKind::WriteNonPostedRequest, 0x50)).unwrap();
    assert!(actions.contains(&CacheAction::Record(CacheEvent::WriteHit)));
    let answers = sent_to_device(&actions);
    assert_eq!(answers.len(), 1);
    assert_eq!(answers[0].access_type, AccessKind::WriteNonPostedResponse);
}

#[test]
fn a_modified_victim_is_written_back_before_its_way_is_reused() {
    let mut cache = CacheController::new(config(1, 1));
    cache.handle_device_request(request(1, AccessKind::WriteRequest, 0x0)).unwrap();
    assert_eq!(cache.contents().state_for(0x0), Some(LineState::Modified));

    let actions = cache.handle_device_request(request(2, AccessKind::ReadRequest, 0x20)).unwrap();
    let writebacks: Vec<CoherenceMessage> = actions
        .iter()
        .filter_map(|a| match a {
            CacheAction::MemoryAck(m) => Some(*m),
            _ => None,
        })
        .collect();
    assert_eq!(writebacks.len(), 1);
    assert_eq!(writebacks[0].access_type, AccessKind::WriteRequest);
    assert_eq!(writebacks[0].dst_addr, 0x0);
    assert_eq!(writebacks[0].dst_device, MEMORY);
    assert_eq!(writebacks[0].src_device, CACHE);
    assert_eq!(writebacks[0].coherence_op, None);
    assert_eq!(cache.contents().state_for(0x0), None);
    assert_eq!(cache.contents().state_for(0x20), Some(LineState::AllocatedShared));
    assert_eq!(sent_to_memory(&actions).len(), 1);
}

#[test]
fn requests_that_bypass_allocation_complete_on_their_response() {
    let mut cache = CacheController::new(config(4, 2));
    let read = CoherenceMessage { cache_hint: CacheHintType::NoAllocate, ..request(5, AccessKind::ReadRequest, 0x200) };
    let actions = cache.handle_device_request(read).unwrap();
    assert_eq!(sent_to_memory(&actions).len(), 1);
    assert_eq!(cache.contents().state_for(0x200), None);

    let actions = cache.handle_memory_response(response_from_memory(5, AccessKind::ReadResponse, 0x200, None)).unwrap();
    let answers = sent_to_device(&actions);
    assert_eq!(answers.len(), 1);
    assert_eq!(answers[0].id, 5);
    assert_eq!(answers[0].access_type, AccessKind::ReadResponse);
    assert_eq!(cache.contents().state_for(0x200), None);
}

#[test]
fn barriers_complete_once_the_cache_is_idle() {
    let mut cache = CacheController::new(config(4, 2));
    let barrier = request(9, AccessKind::BarrierRequest, 0x0);
    let actions = cache.handle_device_request(barrier).unwrap();
    let answers = sent_to_device(&actions);
    assert_eq!(answers.len(), 1);
    assert_eq!(answers[0].access_type, AccessKind::BarrierResponse);

    // With a read outstanding, the barrier waits and holds what follows.
    cache.handle_device_request(request(1, AccessKind::ReadRequest, 0x100)).unwrap();
    assert!(sent_to_device(&cache.handle_device_request(barrier).unwrap()).is_empty());
    assert!(cache.handle_device_request(request(2, AccessKind::ReadRequest, 0x300)).unwrap().len() == 1);

    cache.handle_memory_response(response_from_memory(1, AccessKind::ReadResponse, 0x100, None)).unwrap();
    let retried = cache.handle_next_retry().unwrap();
    let answers = sent_to_device(&retried);
    assert_eq!(answers.len(), 2);
    assert_eq!(answers[0].id, 1);
    assert_eq!(answers[1].access_type, AccessKind::BarrierResponse);
    assert!(cache.has_retry_requests());
    let released = cache.handle_next_retry().unwrap();
    assert_eq!(sent_to_memory(&released).len(), 1);
    assert_eq!(sent_to_memory(&released)[0].id, 2);
}

#[test]
fn coherent_caches_forward_misses_to_their_coherency_manager() {
    let managers = Rc::new(MemoryMap::from_regions(&[(0, 0x10000, MANAGER)]).unwrap());
    let mut cache = CacheController::new(config(4, 2).with_coherency_manager_memory_map(&managers));
    let actions = cache.handle_device_request(request(1, AccessKind::WriteNonPostedRequest, 0x80)).unwrap();
    let forwarded = sent_to_memory(&actions);
    assert_eq!(forwarded.len(), 1);
    assert_eq!(forwarded[0].dst_device, MANAGER);
    assert_eq!(forwarded[0].src_device, CACHE);
    assert_eq!(forwarded[0].coherence_op, Some(CoherenceOp::ExclusiveWrite));
    assert_eq!(cache.contents().state_for(0x80), Some(LineState::AllocatedExclusive));

    // The grant completes the waiting non-posted write.
    let grant = CoherenceMessage {
        access_type: AccessKind::Control,
        dst_device: CACHE,
        src_device: MANAGER,
        coherence_op: Some(CoherenceOp::GrantExclusive),
        ..request(1, AccessKind::Control, 0x80)
    };
    let actions = cache.handle_memory_response(grant).unwrap();
    assert_eq!(cache.contents().state_for(0x80), Some(LineState::Modified));
    let answers = sent_to_device(&actions);
    assert_eq!(answers.len(), 1);
    assert_eq!(answers[0].access_type, AccessKind::WriteNonPostedResponse);

    // An invalidate from the manager writes the dirty line back and acks.
    let invalidate = CoherenceMessage { coherence_op: Some(CoherenceOp::Invalidate), ..grant };
    let actions = cache.handle_memory_response(invalidate).unwrap();
    let acks: Vec<CoherenceMessage> = actions
        .iter()
        .filter_map(|a| match a {
            CacheAction::MemoryAck(m) => Some(*m),
            _ => None,
        })
        .collect();
    assert_eq!(acks.len(), 2);
    assert_eq!(acks[0].access_type, AccessKind::WriteRequest);
    assert_eq!(acks[1].coherence_op, Some(CoherenceOp::InvalidateAck));
    assert_eq!(acks[1].dst_device, MANAGER);
    assert_eq!(cache.contents().state_for(0x80), None);
}

#[test]
fn rejects_accesses_on_the_wrong_side() {
    let mut cache = CacheController::new(config(4, 2));
    assert_eq!(
        cache.handle_device_request(request(1, AccessKind::ReadResponse, 0x0)).unwrap_err(),
        ModelError::UnsupportedDeviceAccess
    );
    assert_eq!(
        cache.handle_memory_response(response_from_memory(2, AccessKind::BarrierResponse, 0x0, None)).unwrap_err(),
        ModelError::BarrierResponseWithoutBarrier
    );
    assert_eq!(
        cache.handle_memory_response(request(3, AccessKind::ReadRequest, 0x0)).unwrap_err(),
        ModelError::UnsupportedResponseAccess
    );
    let control = CoherenceMessage { coherence_op: Some(CoherenceOp::GrantShared), ..request(4, AccessKind::Control, 0) };
    assert_eq!(cache.handle_device_request(control).unwrap_err(), ModelError::UnsupportedDeviceControl);
}

#[test]
fn cache_metrics_count_events() {
    let mut metrics = CacheMetrics::new();
    for event in [
        CacheEvent::PayloadRead { bytes: 64 },
        CacheEvent::ReadHit,
        CacheEvent::ReadPendingHit,
        CacheEvent::WriteMiss,
        CacheEvent::CompletedWrite { access_type: AccessKind::WriteRequest, bytes: 32 },
        CacheEvent::CompletedWrite { access_type: AccessKind::ReadRequest, bytes: 32 },
        CacheEvent::SentOp { op: Some(CoherenceOp::SharedRead) },
        CacheEvent::ReceivedOp { op: None },
    ] {
        assert!(metrics.can_record(event));
        metrics.record(event);
    }
    assert_eq!(metrics.payload_bytes_read, 64);
    assert_eq!(metrics.payload_bytes_written, 32);
    assert_eq!(metrics.num_hits(), 2);
    assert_eq!(metrics.num_misses(), 1);
    assert_eq!(metrics.coherence_ops_sent.op_count(CoherenceOp::SharedRead), 1);
    assert_eq!(metrics.coherence_ops_received.total(), 0);
    metrics.payload_bytes_read = usize::MAX;
    assert!(!metrics.can_record(CacheEvent::PayloadRead { bytes: 1 }));
}

#[test]
fn a_read_hit_is_answered_at_once_and_changes_no_line() {
    let mut cache = CacheController::new(config(4, 2));
    cache.handle_device_request(request(1, AccessKind::ReadRequest, 0x100)).unwrap();
    cache.handle_memory_response(response_from_memory(1, AccessKind::ReadResponse, 0x100, None)).unwrap();
    cache.handle_next_retry().unwrap();
    assert_eq!(cache.contents().state_for(0x100), Some(LineState::Shared));

    let read = request(2, AccessKind::ReadRequest, 0x108);
    let actions = cache.handle_device_request(read).unwrap();
    assert_eq!(
        actions,
        vec![
            CacheAction::Record(CacheEvent::ReceivedOp { op: None }),
            CacheAction::Record(CacheEvent::PayloadRead { bytes: 8 }),
            CacheAction::Record(CacheEvent::ReadHit),
            CacheAction::ToDevice(CoherenceMessage {
                access_type: AccessKind::ReadResponse,
                dst_device: DEVICE,
                src_device: MEMORY,
                ..read
            }),
        ]
    );
    assert_eq!(cache.contents().state_for(0x100), Some(LineState::Shared));
    assert!(!cache.has_retry_requests());
}
