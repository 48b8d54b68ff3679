use gwr_models::cache::coherency_manager::CoherenceMessage;
use gwr_models::cache::contents::AccessKind;
use gwr_models::dtype::DataType;
use gwr_models::error::ModelError;
use gwr_models::lsu::{create_memory_access, split_access, tensor_view_access, view_accesses, LoadStoreSlots};
use gwr_models::memory::memory_map::{DeviceId, MemoryMap};
use gwr_models::memory::{CacheHintType, MemoryConfig, MemoryStats};
use gwr_models::tensor::Tensor;
use gwr_models::tensor_view::TensorView;

fn access(access_type: AccessKind, addr: u64, size: usize, src_addr: u64) -> CoherenceMessage {
    CoherenceMessage {
        id: 7,
        access_type,
        access_size_bytes: size,
        dst_addr: addr,
        src_addr,
        dst_device: DeviceId(100),
        src_device: DeviceId(3),
        cache_hint: CacheHintType::Allocate,
        coherence_op: None,
        overhead_size_bytes: 8,
    }
}

#[test]
fn tensor_view_access_includes_each_partially_touched_byte() {
    let tensor = Tensor::new(&[4], &DataType::Int4, 0x1000).unwrap();
    let view = TensorView::new(tensor, &[2], &[1]).unwrap();

    assert_eq!(tensor_view_access(&view).unwrap(), (0x1000, 2));
}

#[test]
fn tensor_view_access_starts_at_the_first_touched_byte() {
    let tensor = Tensor::new(&[4, 8], &DataType::Int32, 0x2000).unwrap();
    let view = TensorView::new(tensor, &[2, 8], &[1, 0]).unwrap();

    assert_eq!(view.byte_range(), 32..96);
    assert_eq!(tensor_view_access(&view).unwrap(), (0x2020, 64));
}

#[test]
fn tensor_view_access_reaches_the_last_address() {
    let tensor = Tensor::new(&[4], &DataType::Int8, u64::MAX - 3).unwrap();
    let view = TensorView::new(tensor, &[1], &[3]).unwrap();
    assert_eq!(tensor_view_access(&view).unwrap(), (u64::MAX, 1));
}

#[test]
fn split_access_breaks_an_access_into_maximum_sized_requests() {
    assert_eq!(
        split_access(100, 0x1000, 32, 1024).unwrap(),
        vec![(0x1000, 32), (0x1020, 32), (0x1040, 32), (0x1060, 4)]
    );
    assert_eq!(split_access(64, 0x40, 32, 64).unwrap(), vec![(0x40, 32), (0x60, 32)]);
    assert_eq!(split_access(5, 0, 8, 64).unwrap(), vec![(0, 5)]);
    assert_eq!(split_access(0, 0x10, 8, 64).unwrap(), vec![]);
}

#[test]
fn split_access_refuses_an_access_larger_than_the_sram() {
    assert_eq!(split_access(65, 0, 8, 64), Err(ModelError::AccessExceedsSram { bytes: 65 }));
}

#[test]
fn slots_are_allocated_in_order_until_all_are_taken() {
    let mut unit = LoadStoreSlots::new(2);
    assert_eq!(unit.num_slots(), 2);
    assert_eq!(unit.allocate_request_slot(), Some(0));
    assert_eq!(unit.allocate_request_slot(), Some(1));
    assert_eq!(unit.allocate_request_slot(), None);
}

#[test]
fn a_request_goes_out_and_its_response_releases_the_slot() {
    let mut unit = LoadStoreSlots::new(2);
    let slot = unit.allocate_request_slot().unwrap();
    let request = access(AccessKind::ReadRequest, 0x100, 16, slot as u64);
    unit.make_request(slot, request);
    assert!(unit.has_pending_requests());
    assert_eq!(unit.take_next_request(), Ok(Some((slot, request))));
    assert!(!unit.has_pending_requests());
    assert_eq!(unit.take_next_request(), Ok(None));

    let response = access(AccessKind::ReadResponse, 0x100, 16, slot as u64);
    assert_eq!(unit.put_response(response), Ok(()));
    assert_eq!(unit.handle_response_in_slot(slot), Ok(()));
    assert_eq!(unit.allocate_request_slot(), Some(slot));
}

#[test]
fn requests_are_sent_in_the_order_they_were_made() {
    let mut unit = LoadStoreSlots::new(3);
    let a = unit.allocate_request_slot().unwrap();
    let b = unit.allocate_request_slot().unwrap();
    let first = access(AccessKind::WriteRequest, 0x200, 8, b as u64);
    let second = access(AccessKind::WriteRequest, 0x208, 8, a as u64);
    unit.make_request(b, first);
    unit.make_request(a, second);
    assert_eq!(unit.take_next_request(), Ok(Some((b, first))));
    assert_eq!(unit.take_next_request(), Ok(Some((a, second))));
}

#[test]
fn slot_errors_are_reported() {
    let mut unit = LoadStoreSlots::new(1);
    let response = access(AccessKind::ReadResponse, 0x100, 16, 5);
    assert_eq!(unit.put_response(response), Err(ModelError::InvalidResponseSlot { index: 5 }));
    assert_eq!(unit.handle_response_in_slot(0), Err(ModelError::SlotNotInUse { slot: 0 }));

    let slot = unit.allocate_request_slot().unwrap();
    assert_eq!(unit.handle_response_in_slot(slot), Err(ModelError::MissingResponse { slot }));
    assert_eq!(unit.allocate_request_slot(), Some(slot));

    unit.make_request(slot, access(AccessKind::ReadRequest, 0, 4, 0));
    unit.make_request(slot, access(AccessKind::ReadRequest, 4, 4, 0));
    assert!(unit.take_next_request().unwrap().is_some());
    assert_eq!(unit.take_next_request(), Err(ModelError::MissingRequest { slot }));

    let mut idle = LoadStoreSlots::new(1);
    idle.make_request(0, access(AccessKind::ReadRequest, 0, 4, 0));
    assert_eq!(idle.take_next_request(), Err(ModelError::RequestSlotIdle { slot: 0 }));
}

#[test]
fn memory_accesses_go_to_the_mapped_device_with_the_slot_as_source() {
    let map = MemoryMap::from_regions(&[(0x1000, 0x1000, DeviceId(100))]).unwrap();
    let made = create_memory_access(&map, DeviceId(3), 8, 9, AccessKind::ReadRequest, 32, 0x1800, 2).unwrap();
    assert_eq!(made.dst_device, DeviceId(100));
    assert_eq!(made.src_device, DeviceId(3));
    assert_eq!(made.src_addr, 2);
    assert_eq!(made.dst_addr, 0x1800);
    assert_eq!(made.access_size_bytes, 32);
    assert_eq!(made.overhead_size_bytes, 8);
    assert_eq!(made.id, 9);
    assert_eq!(made.coherence_op, None);
    assert_eq!(made.cache_hint, CacheHintType::Allocate);

    assert_eq!(
        create_memory_access(&map, DeviceId(3), 8, 9, AccessKind::ReadRequest, 32, 0x2000, 2),
        Err(ModelError::AddressNotMapped { address: 0x2000 })
    );
}

#[test]
fn memory_counts_bytes_and_answers_reads_and_non_posted_writes() {
    let config = MemoryConfig::new(0x1000, 0x1000, 16, 2);
    let mut stats = MemoryStats::default();

    let read = access(AccessKind::ReadRequest, 0x1000, 64, 1);
    let response = stats.serve_access(&config, read).unwrap().unwrap();
    assert_eq!(response.access_type, AccessKind::ReadResponse);
    assert_eq!(response.dst_device, read.src_device);
    assert_eq!(response.src_device, read.dst_device);
    assert_eq!(stats.bytes_read(), 64);

    let write = access(AccessKind::WriteRequest, 0x1f00, 0x100, 1);
    assert_eq!(stats.serve_access(&config, write), Ok(None));
    assert_eq!(stats.bytes_written(), 0x100);

    let np = access(AccessKind::WriteNonPostedRequest, 0x1100, 8, 1);
    let ack = stats.serve_access(&config, np).unwrap().unwrap();
    assert_eq!(ack.access_type, AccessKind::WriteNonPostedResponse);
    assert_eq!(stats.bytes_written(), 0x108);

    let stray = access(AccessKind::ReadResponse, 0x1000, 8, 1);
    assert_eq!(stats.serve_access(&config, stray), Err(ModelError::UnsupportedMemoryAccess));
    assert_eq!(stats.bytes_read(), 64);
}

#[test]
fn memory_access_ticks_round_up() {
    let config = MemoryConfig::new(0, 0x1000, 16, 2);
    assert_eq!(config.access_ticks(&access(AccessKind::ReadRequest, 0, 64, 0)), 4);
    assert_eq!(config.access_ticks(&access(AccessKind::ReadRequest, 0, 65, 0)), 5);
    assert_eq!(config.access_ticks(&access(AccessKind::ReadRequest, 0, 0, 0)), 0);
}

#[test]
fn view_accesses_cover_the_present_views_in_order() {
    let a = TensorView::new(Tensor::new(&[4, 8], &DataType::Int32, 0x2000).unwrap(), &[2, 8], &[1, 0]).unwrap();
    let b = TensorView::new(Tensor::new(&[4], &DataType::Int4, 0x1000).unwrap(), &[2], &[1]).unwrap();
    assert_eq!(view_accesses(&[Some(a), None, Some(b)]).unwrap(), vec![(0x2020, 64), (0x1000, 2)]);
    assert_eq!(view_accesses(&[]).unwrap(), vec![]);
}
