use gwr_models::error::ModelError;
use gwr_models::memory::memory_map::{DeviceId, MemoryMap};
use gwr_models::memory::{CacheHintType, MemoryConfig};

fn setup_map() -> MemoryMap {
    let mut memory_map = MemoryMap::new();
    memory_map.insert(0x0000_0000, 0x1000, DeviceId(1)).unwrap();
    memory_map.insert(0x0000_2000, 0x1000, DeviceId(2)).unwrap();
    memory_map.insert(0x0000_4000, 0x1000, DeviceId(3)).unwrap();
    memory_map
}

#[test]
fn insert_successfully() {
    let memory_map = setup_map();
    assert_eq!(memory_map.num_regions(), 3);
}

#[test]
fn insert_in_between() {
    let mut memory_map = setup_map();
    memory_map.insert(0x0000_3000, 0x1000, DeviceId(4)).unwrap();
    assert_eq!(memory_map.num_regions(), 4);
    let starts: Vec<u64> = memory_map.regions().iter().map(|r| r.start).collect();
    assert_eq!(starts, vec![0x0, 0x2000, 0x3000, 0x4000]);
}

#[test]
#[should_panic(expected = "Region overlap")]
fn insert_overlap() {
    let mut memory_map = setup_map();
    memory_map.insert(0x0000_0F00, 0x200, DeviceId(3)).map_err(|e| e.message()).unwrap();
}

#[test]
#[should_panic(expected = "Region overlap")]
fn insert_overlap_inserted() {
    let mut memory_map = setup_map();
    memory_map.insert(0x0000_3000, 0x2000, DeviceId(3)).map_err(|e| e.message()).unwrap();
}

#[test]
fn address_lookup() {
    let memmory_map = setup_map();
    let (dev, offset) = memmory_map.lookup(0x0000_2004).unwrap();
    assert_eq!(dev, DeviceId(2));
    assert_eq!(offset, 0x4);
}

#[test]
fn address_lookup_begin() {
    let memmory_map = setup_map();
    let (dev, offset) = memmory_map.lookup(0x0000_4000).unwrap();
    assert_eq!(dev, DeviceId(3));
    assert_eq!(offset, 0x0);
}

#[test]
fn address_lookup_end() {
    let memmory_map = setup_map();
    let (dev, offset) = memmory_map.lookup(0x0000_4fff).unwrap();
    assert_eq!(dev, DeviceId(3));
    assert_eq!(offset, 0xfff);
}

#[test]
fn address_lookup_after() {
    let memmory_map = setup_map();
    assert!(memmory_map.lookup(0x0000_5000).is_none());
}

#[test]
#[should_panic(expected = "Invalid region size 0")]
fn insert_zero_sized() {
    let mut memory_map = setup_map();
    memory_map.insert(0x0000_8000, 0x0, DeviceId(4)).map_err(|e| e.message()).unwrap();
}

#[test]
fn overlap_errors_name_the_address() {
    let mut memory_map = setup_map();
    assert_eq!(memory_map.insert(0x0F00, 0x200, DeviceId(3)), Err(ModelError::RegionOverlap { address: 0x0F00 }));
    assert_eq!(memory_map.insert(0x3000, 0x2000, DeviceId(3)), Err(ModelError::RegionOverlap { address: 0x4FFF }));
    assert_eq!(memory_map.insert(0x2000, 0x10, DeviceId(3)), Err(ModelError::RegionOverlap { address: 0x2000 }));
    assert_eq!(memory_map.num_regions(), 3);
}

#[test]
fn unmap_removes_by_exact_start() {
    let mut memory_map = setup_map();
    assert!(memory_map.unmap(0x2004).is_none());
    let removed = memory_map.unmap(0x2000).unwrap();
    assert_eq!(removed.device, DeviceId(2));
    assert_eq!(removed.end, 0x2fff);
    assert_eq!(memory_map.num_regions(), 2);
    assert!(memory_map.lookup(0x2004).is_none());
}

#[test]
fn builds_maps_from_regions() {
    let whole = MemoryMap::from_regions(&[(0, u64::MAX, DeviceId(0))]).unwrap();
    assert_eq!(whole.lookup(u64::MAX - 1), Some((DeviceId(0), u64::MAX - 1)));
    assert_eq!(whole.lookup(u64::MAX), None);
    let err = MemoryMap::from_regions(&[(0x100, 0x20, DeviceId(7)), (0x110, 0x20, DeviceId(8))]).unwrap_err();
    assert_eq!(err, ModelError::RegionOverlap { address: 0x110 });
    let copy = setup_map().clone();
    assert_eq!(copy.num_regions(), 3);
    assert_eq!(MemoryMap::default().num_regions(), 0);
}

#[test]
fn memory_config_keeps_its_values() {
    let config = MemoryConfig::new(0x1000, 4096, 32, 5);
    assert_eq!(config.base_address(), 0x1000);
    assert_eq!(config.capacity_bytes(), 4096);
    assert_eq!(config.bw_bytes_per_cycle(), 32);
    assert_eq!(config.delay_ticks(), 5);
    assert_ne!(CacheHintType::Allocate, CacheHintType::NoAllocate);
}

#[test]
fn the_default_map_sends_every_address_to_device_zero() {
    let map = gwr_models::memory::memory_map::create_default_memory_map();
    assert_eq!(map.lookup(0), Some((DeviceId(0), 0)));
    assert_eq!(map.lookup(0x1234), Some((DeviceId(0), 0x1234)));
    assert_eq!(map.num_regions(), 1);
}
