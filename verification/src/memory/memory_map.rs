//! Maps from address ranges to devices.
use vstd::prelude::*;

use crate::error::ModelError;

verus! {

/// The identity of a device on a fabric.
#[derive(Clone, Copy, Debug, PartialEq, Eq, Hash, Structural)]
pub struct DeviceId(pub u64);

/// An inclusive address range mapped to a device.
#[derive(Clone, Copy, Debug, PartialEq, Eq, Structural)]
pub struct MemoryRegion {
    pub start: u64,
    pub end: u64,
    pub device: DeviceId,
}

/// Whether a region holds an address.
pub open spec fn region_holds(r: MemoryRegion, addr: u64) -> bool {
    r.start <= addr <= r.end
}

/// Regions in increasing address order, each non-empty and each ending
/// before the next begins.
pub open spec fn regions_sorted(regions: Seq<MemoryRegion>) -> bool {
    &&& forall|i: int| 0 <= i < regions.len() ==> (#[trigger] regions[i]).start <= regions[i].end
    &&& forall|i: int, j: int| 0 <= i < j < regions.len() ==> (#[trigger] regions[i]).end < (#[trigger] regions[j]).start
}

/// The number of regions that start below `start`: where a region starting
/// at `start` goes.
pub open spec fn insert_index(regions: Seq<MemoryRegion>, start: u64) -> nat
    decreases regions.len(),
{
    if regions.len() == 0 {
        0
    } else {
        insert_index(regions.drop_last(), start) + if regions.last().start < start { 1nat } else { 0nat }
    }
}

/// The outcome of mapping `size` bytes from `start` to `device`: the
/// regions afterwards, or why the mapping is refused.
pub open spec fn insert_result(regions: Seq<MemoryRegion>, start: u64, size: u64, device: DeviceId) -> Result<Seq<MemoryRegion>, ModelError> {
    let end = (start + size - 1) as u64;
    if size == 0 {
        Err(ModelError::InvalidRegionSize)
    } else if exists|i: int| 0 <= i < regions.len() && region_holds(#[trigger] regions[i], start) {
        Err(ModelError::RegionOverlap { address: start })
    } else if exists|i: int| 0 <= i < regions.len() && start <= (#[trigger] regions[i]).start <= end {
        Err(ModelError::RegionOverlap { address: end })
    } else {
        Ok(regions.insert(insert_index(regions, start) as int, MemoryRegion { start, end, device }))
    }
}

/// The region that holds an address, if any.
pub open spec fn region_at(regions: Seq<MemoryRegion>, addr: u64) -> Option<MemoryRegion> {
    if exists|i: int| 0 <= i < regions.len() && region_holds(#[trigger] regions[i], addr) {
        Some(regions[choose|i: int| 0 <= i < regions.len() && region_holds(#[trigger] regions[i], addr)])
    } else {
        None
    }
}

/// What a lookup of an address gives: the device and the offset into its
/// region.
pub open spec fn lookup_result(regions: Seq<MemoryRegion>, addr: u64) -> Option<(DeviceId, u64)> {
    match region_at(regions, addr) {
        Some(r) => Some((r.device, (addr - r.start) as u64)),
        None => None,
    }
}

/// A map from disjoint address ranges to devices.
#[derive(Debug)]
pub struct MemoryMap {
    regions: Vec<MemoryRegion>,
}

impl View for MemoryMap {
    type V = Seq<MemoryRegion>;

    closed spec fn view(&self) -> Seq<MemoryRegion> {
        self.regions@
    }
}

/// In sorted disjoint regions at most one region holds an address.
pub proof fn lemma_region_unique(regions: Seq<MemoryRegion>, addr: u64, i: int, j: int)
    requires
        regions_sorted(regions),
        0 <= i < regions.len(),
        0 <= j < regions.len(),
        region_holds(regions[i], addr),
        region_holds(regions[j], addr),
    ensures
        i == j,
{
    if i < j {
        assert(regions[i].end < regions[j].start);
    } else if j < i {
        assert(regions[j].end < regions[i].start);
    }
}

/// The region at an address is the one region that holds it.
proof fn lemma_region_at(regions: Seq<MemoryRegion>, addr: u64, i: int)
    requires
        regions_sorted(regions),
        0 <= i < regions.len(),
        region_holds(regions[i], addr),
    ensures
        region_at(regions, addr) == Some(regions[i]),
{
    let k = choose|k: int| 0 <= k < regions.len() && region_holds(#[trigger] regions[k], addr);
    lemma_region_unique(regions, addr, i, k);
}

/// In sorted regions, the regions before the insertion index start below
/// `start` and the others do not.
proof fn lemma_insert_index(regions: Seq<MemoryRegion>, start: u64)
    requires
        regions_sorted(regions),
    ensures
        insert_index(regions, start) <= regions.len(),
        forall|i: int| 0 <= i < insert_index(regions, start) ==> (#[trigger] regions[i]).start < start,
        forall|i: int| insert_index(regions, start) <= i < regions.len() ==> (#[trigger] regions[i]).start >= start,
    decreases regions.len(),
{
    if regions.len() > 0 {
        let prefix = regions.drop_last();
        assert(regions_sorted(prefix)) by {
            assert forall|i: int, j: int| 0 <= i < j < prefix.len() implies (#[trigger] prefix[i]).end < (#[trigger] prefix[j]).start by {
                assert(prefix[i] == regions[i] && prefix[j] == regions[j]);
            }
        }
        lemma_insert_index(prefix, start);
        let k = insert_index(prefix, start);
        let last = regions.len() - 1;
        if regions[last].start < start {
            assert forall|i: int| 0 <= i < k implies (#[trigger] regions[i]).start < start by {
                assert(regions[i] == prefix[i]);
            }
            if k < prefix.len() {
                assert(regions[k as int].start >= start);
                assert(regions[k as int].end < regions[last].start);
                assert(false);
            }
        } else {
            assert forall|i: int| 0 <= i < k implies (#[trigger] regions[i]).start < start by {
                assert(regions[i] == prefix[i]);
            }
            assert forall|i: int| k <= i < regions.len() implies (#[trigger] regions[i]).start >= start by {
                if i < last {
                    assert(regions[i] == prefix[i]);
                }
            }
        }
    }
}

impl MemoryMap {
    #[verifier::type_invariant]
    spec fn sorted(self) -> bool {
        regions_sorted(self.regions@)
    }

    /// An empty map.
    pub fn new() -> (map: MemoryMap)
        ensures
            map@ == Seq::<MemoryRegion>::empty(),
    {
        MemoryMap { regions: Vec::new() }
    }

    /// Map the `size` bytes from `start` to `device`.
    pub fn insert(&mut self, start: u64, size: u64, device: DeviceId) -> (result: Result<(), ModelError>)
        requires
            start + size <= u64::MAX + 1,
        ensures
            match insert_result(old(self)@, start, size, device) {
                Ok(regions) => result is Ok && final(self)@ == regions,
                Err(e) => result == Err::<(), ModelError>(e) && final(self)@ == old(self)@,
            },
            regions_sorted(final(self)@),
    {
        proof {
            use_type_invariant(&*self);
        }
        if size == 0 {
            return Err(ModelError::InvalidRegionSize);
        }
        let end = start + (size - 1);
        let ghost regions = self.regions@;
        proof {
            lemma_insert_index(regions, start);
        }
        // Find the first region that starts above `start`.
        let mut index: usize = 0;
        while index < self.regions.len() && self.regions[index].start <= start
            invariant
                regions == self.regions@,
                regions_sorted(regions),
                index <= regions.len(),
                forall|i: int| 0 <= i < index ==> (#[trigger] regions[i]).start <= start,
            decreases regions.len() - index,
        {
            index = index + 1;
        }
        proof {
            assert forall|i: int| index <= i < regions.len() implies (#[trigger] regions[i]).start > start by {
                if i > index {
                    assert(regions[index as int].end < regions[i].start);
                    assert(regions[index as int].start <= regions[index as int].end);
                }
            }
        }
        // The region before it must end below `start`.
        if index > 0 && self.regions[index - 1].end >= start {
            proof {
                assert(region_holds(regions[index - 1], start));
            }
            return Err(ModelError::RegionOverlap { address: start });
        }
        proof {
            assert forall|i: int| 0 <= i < regions.len() implies !region_holds(#[trigger] regions[i], start) by {
                if i < index - 1 {
                    assert(regions[i].end < regions[index - 1].start);
                }
            }
            assert forall|i: int| 0 <= i < index implies (#[trigger] regions[i]).start < start by {
                if i < index - 1 {
                    assert(regions[i].end < regions[index - 1].start);
                    assert(regions[i].start <= regions[i].end);
                } else {
                    assert(regions[i].start <= regions[i].end);
                }
            }
            let k = insert_index(regions, start) as int;
            if index < k {
                assert(regions[index as int].start < start);
            }
            if index > k {
                assert(regions[k].start < start);
            }
            assert(index == k);
        }
        // The region after it must start above `end`.
        if index < self.regions.len() && self.regions[index].start <= end {
            return Err(ModelError::RegionOverlap { address: end });
        }
        proof {
            assert forall|i: int| 0 <= i < regions.len() implies !(start <= (#[trigger] regions[i]).start <= end) by {
                if i > index {
                    assert(regions[index as int].end < regions[i].start);
                    assert(regions[index as int].start <= regions[index as int].end);
                }
            }
        }
        let region = MemoryRegion { start, end, device };
        let mut regions_vec = Vec::new();
        std::mem::swap(&mut regions_vec, &mut self.regions);
        regions_vec.insert(index, region);
        proof {
            let s = regions_vec@;
            assert(s == regions.insert(index as int, region));
            assert forall|i: int| 0 <= i < s.len() implies (#[trigger] s[i]).start <= s[i].end by {
                if i < index {
                    assert(s[i] == regions[i]);
                } else if i > index {
                    assert(s[i] == regions[i - 1]);
                }
            }
            assert forall|i: int, j: int| 0 <= i < j < s.len() implies (#[trigger] s[i]).end < (#[trigger] s[j]).start by {
                if j < index {
                    assert(s[i] == regions[i] && s[j] == regions[j]);
                } else if j == index {
                    assert(s[i] == regions[i]);
                    assert(regions[index - 1].end < start);
                    if i < index - 1 {
                        assert(regions[i].end < regions[index - 1].start);
                        assert(regions[index - 1].start <= regions[index - 1].end);
                    }
                } else if i > index {
                    assert(s[i] == regions[i - 1] && s[j] == regions[j - 1]);
                } else if i == index {
                    assert(s[j] == regions[j - 1]);
                    assert(!(start <= regions[j - 1].start <= end));
                } else {
                    assert(s[i] == regions[i] && s[j] == regions[j - 1]);
                }
            }
        }
        self.regions = regions_vec;
        Ok(())
    }

    /// A map of the given `(start, size, device)` regions, inserted in
    /// order; the first refusal is the result.
    pub fn from_regions(regions: &[(u64, u64, DeviceId)]) -> (result: Result<MemoryMap, ModelError>)
        requires
            forall|i: int| 0 <= i < regions@.len() ==> (#[trigger] regions@[i]).0 + regions@[i].1 <= u64::MAX + 1,
        ensures
            match from_regions_result(regions@) {
                Ok(s) => result is Ok && result->Ok_0@ == s,
                Err(e) => result is Err && result->Err_0 == e,
            },
    {
        let mut map = MemoryMap::new();
        let mut i: usize = 0;
        assert(regions@.take(0) =~= Seq::<(u64, u64, DeviceId)>::empty());
        while i < regions.len()
            invariant
                i <= regions@.len(),
                forall|k: int| 0 <= k < regions@.len() ==> (#[trigger] regions@[k]).0 + regions@[k].1 <= u64::MAX + 1,
                from_regions_result(regions@.take(i as int)) == Ok::<Seq<MemoryRegion>, ModelError>(map@),
            decreases regions@.len() - i,
        {
            let (start, size, device) = regions[i];
            proof {
                assert(regions@.take(i + 1).drop_last() =~= regions@.take(i as int));
            }
            match map.insert(start, size, device) {
                Ok(()) => {},
                Err(e) => {
                    proof {
                        lemma_from_regions_error(regions@, i as int);
                    }
                    return Err(e);
                },
            }
            i = i + 1;
        }
        assert(regions@.take(regions@.len() as int) =~= regions@);
        Ok(map)
    }

    /// Remove the region that starts exactly at `start`.
    pub fn unmap(&mut self, start: u64) -> (removed: Option<MemoryRegion>)
        ensures
            match removed {
                Some(r) => r.start == start && exists|i: int| 0 <= i < old(self)@.len() && old(self)@[i] == r
                    && final(self)@ == old(self)@.remove(i),
                None => (forall|i: int| 0 <= i < old(self)@.len() ==> (#[trigger] old(self)@[i]).start != start)
                    && final(self)@ == old(self)@,
            },
            regions_sorted(final(self)@),
    {
        proof {
            use_type_invariant(&*self);
        }
        let ghost regions = self.regions@;
        let mut index: usize = 0;
        while index < self.regions.len()
            invariant
                regions == self.regions@,
                regions == old(self)@,
                regions_sorted(regions),
                index <= regions.len(),
                forall|i: int| 0 <= i < index ==> (#[trigger] regions[i]).start != start,
            decreases regions.len() - index,
        {
            if self.regions[index].start == start {
                let mut regions_vec = Vec::new();
                std::mem::swap(&mut regions_vec, &mut self.regions);
                let region = regions_vec.remove(index);
                proof {
                    let s = regions_vec@;
                    assert(s == regions.remove(index as int));
                    assert forall|i: int, j: int| 0 <= i < j < s.len() implies (#[trigger] s[i]).end < (#[trigger] s[j]).start by {
                        let a = if i < index { i } else { i + 1 };
                        let b = if j < index { j } else { j + 1 };
                        assert(s[i] == regions[a] && s[j] == regions[b]);
                    }
                    assert forall|i: int| 0 <= i < s.len() implies (#[trigger] s[i]).start <= s[i].end by {
                        let a = if i < index { i } else { i + 1 };
                        assert(s[i] == regions[a]);
                    }
                }
                self.regions = regions_vec;
                assert(regions[index as int] == region);
                assert(self@ == regions.remove(index as int));
                return Some(region);
            }
            index = index + 1;
        }
        None
    }

    /// The device that an address maps to and the offset of the address in
    /// the device's region.
    pub fn lookup(&self, addr: u64) -> (found: Option<(DeviceId, u64)>)
        ensures
            found == lookup_result(self@, addr),
    {
        proof {
            use_type_invariant(self);
        }
        let ghost regions = self.regions@;
        // Find the last region that starts at or below `addr`.
        let mut low: usize = 0;
        let mut high: usize = self.regions.len();
        while low < high
            invariant
                regions == self.regions@,
                regions_sorted(regions),
                low <= high <= regions.len(),
                forall|i: int| 0 <= i < low ==> (#[trigger] regions[i]).start <= addr,
                forall|i: int| high <= i < regions.len() ==> (#[trigger] regions[i]).start > addr,
            decreases high - low,
        {
            let mid = low + (high - low) / 2;
            if self.regions[mid].start <= addr {
                proof {
                    assert forall|i: int| 0 <= i <= mid implies (#[trigger] regions[i]).start <= addr by {
                        if i < mid {
                            assert(regions[i].end < regions[mid as int].start);
                            assert(regions[i].start <= regions[i].end);
                        }
                    }
                }
                low = mid + 1;
            } else {
                proof {
                    assert forall|i: int| mid <= i < regions.len() implies (#[trigger] regions[i]).start > addr by {
                        if i > mid {
                            assert(regions[mid as int].end < regions[i].start);
                            assert(regions[mid as int].start <= regions[mid as int].end);
                        }
                    }
                }
                high = mid;
            }
        }
        if low == 0 {
            proof {
                assert forall|i: int| 0 <= i < regions.len() implies !region_holds(#[trigger] regions[i], addr) by {}
            }
            return None;
        }
        let region = self.regions[low - 1];
        if addr <= region.end {
            proof {
                lemma_region_at(regions, addr, low - 1);
            }
            Some((region.device, addr - region.start))
        } else {
            proof {
                assert forall|i: int| 0 <= i < regions.len() implies !region_holds(#[trigger] regions[i], addr) by {
                    if i < low - 1 {
                        assert(regions[i].end < regions[low - 1].start);
                    }
                }
            }
            None
        }
    }

    /// The number of mapped regions.
    pub fn num_regions(&self) -> (n: usize)
        ensures
            n == self@.len(),
    {
        self.regions.len()
    }

    /// The mapped regions in increasing address order.
    pub fn regions(&self) -> (regions: Vec<MemoryRegion>)
        ensures
            regions@ == self@,
            regions_sorted(regions@),
    {
        proof {
            use_type_invariant(self);
        }
        let mut copy: Vec<MemoryRegion> = Vec::new();
        let mut i: usize = 0;
        while i < self.regions.len()
            invariant
                i <= self.regions@.len(),
                copy@ == self.regions@.take(i as int),
            decreases self.regions@.len() - i,
        {
            copy.push(self.regions[i]);
            i = i + 1;
            assert(copy@ =~= self.regions@.take(i as int));
        }
        assert(self.regions@.take(self.regions@.len() as int) =~= self.regions@);
        copy
    }
}

impl Clone for MemoryMap {
    fn clone(&self) -> (copy: Self)
        ensures
            copy@ == self@,
    {
        MemoryMap { regions: self.regions() }
    }
}

impl Default for MemoryMap {
    fn default() -> (map: Self)
        ensures
            map@ == Seq::<MemoryRegion>::empty(),
    {
        MemoryMap::new()
    }
}

/// The regions of a map built by inserting `(start, size, device)` regions
/// in order, or the first refusal.
pub open spec fn from_regions_result(regions: Seq<(u64, u64, DeviceId)>) -> Result<Seq<MemoryRegion>, ModelError>
    decreases regions.len(),
{
    if regions.len() == 0 {
        Ok(Seq::empty())
    } else {
        match from_regions_result(regions.drop_last()) {
            Err(e) => Err(e),
            Ok(map) => {
                let (start, size, device) = regions.last();
                insert_result(map, start, size, device)
            },
        }
    }
}

proof fn lemma_from_regions_error(regions: Seq<(u64, u64, DeviceId)>, i: int)
    requires
        0 <= i < regions.len(),
        from_regions_result(regions.take(i + 1)) is Err,
    ensures
        from_regions_result(regions) == from_regions_result(regions.take(i + 1)),
    decreases regions.len() - i,
{
    if i + 1 < regions.len() {
        assert(regions.take(i + 2).drop_last() =~= regions.take(i + 1));
        lemma_from_regions_error(regions, i + 1);
    } else {
        assert(regions.take(i + 1) =~= regions);
    }
}

/// After a region is mapped, every address in it looks up to its device,
/// at its offset from the region's start.
pub proof fn lemma_lookup_after_insert(regions: Seq<MemoryRegion>, start: u64, size: u64, device: DeviceId, addr: u64)
    requires
        regions_sorted(regions),
        start + size <= u64::MAX + 1,
        insert_result(regions, start, size, device) is Ok,
        start <= addr <= start + size - 1,
    ensures
        lookup_result(insert_result(regions, start, size, device)->Ok_0, addr) == Some((device, (addr - start) as u64)),
{
    let k = insert_index(regions, start) as int;
    lemma_insert_index(regions, start);
    let end = (start + size - 1) as u64;
    let region = MemoryRegion { start, end, device };
    let s = regions.insert(k, region);
    assert(s[k] == region);
    assert(regions_sorted(s)) by {
        assert forall|i: int, j: int| 0 <= i < j < s.len() implies (#[trigger] s[i]).end < (#[trigger] s[j]).start by {
            if j < k {
                assert(s[i] == regions[i] && s[j] == regions[j]);
            } else if j == k {
                assert(s[i] == regions[i]);
                assert(!region_holds(regions[i], start));
            } else if i > k {
                assert(s[i] == regions[i - 1] && s[j] == regions[j - 1]);
            } else if i == k {
                assert(s[j] == regions[j - 1]);
                assert(!(start <= regions[j - 1].start <= end));
            } else {
                assert(s[i] == regions[i] && s[j] == regions[j - 1]);
            }
        }
        assert forall|i: int| 0 <= i < s.len() implies (#[trigger] s[i]).start <= s[i].end by {
            if i < k {
                assert(s[i] == regions[i]);
            } else if i > k {
                assert(s[i] == regions[i - 1]);
            }
        }
    }
    lemma_region_at(s, addr, k);
}

/// Mapping a region leaves the lookup of every address outside it
/// unchanged.
pub proof fn lemma_lookup_outside_insert(regions: Seq<MemoryRegion>, start: u64, size: u64, device: DeviceId, addr: u64)
    requires
        regions_sorted(regions),
        start + size <= u64::MAX + 1,
        insert_result(regions, start, size, device) is Ok,
        !(start <= addr <= start + size - 1),
    ensures
        lookup_result(insert_result(regions, start, size, device)->Ok_0, addr) == lookup_result(regions, addr),
{
    let k = insert_index(regions, start) as int;
    let end = (start + size - 1) as u64;
    let region = MemoryRegion { start, end, device };
    let s = regions.insert(k, region);
    lemma_insert_index(regions, start);
    assert(regions_sorted(s)) by {
        assert forall|i: int, j: int| 0 <= i < j < s.len() implies (#[trigger] s[i]).end < (#[trigger] s[j]).start by {
            if j < k {
                assert(s[i] == regions[i] && s[j] == regions[j]);
            } else if j == k {
                assert(s[i] == regions[i]);
                assert(!region_holds(regions[i], start));
            } else if i > k {
                assert(s[i] == regions[i - 1] && s[j] == regions[j - 1]);
            } else if i == k {
                assert(s[j] == regions[j - 1]);
                assert(!(start <= regions[j - 1].start <= end));
            } else {
                assert(s[i] == regions[i] && s[j] == regions[j - 1]);
            }
        }
        assert forall|i: int| 0 <= i < s.len() implies (#[trigger] s[i]).start <= s[i].end by {
            if i < k {
                assert(s[i] == regions[i]);
            } else if i > k {
                assert(s[i] == regions[i - 1]);
            }
        }
    }
    if exists|i: int| 0 <= i < regions.len() && region_holds(#[trigger] regions[i], addr) {
        let i = choose|i: int| 0 <= i < regions.len() && region_holds(#[trigger] regions[i], addr);
        lemma_region_at(regions, addr, i);
        let j = if i < k { i } else { i + 1 };
        assert(s[j] == regions[i]);
        lemma_region_at(s, addr, j);
    } else {
        assert forall|j: int| 0 <= j < s.len() implies !region_holds(#[trigger] s[j], addr) by {
            if j < k {
                assert(s[j] == regions[j]);
            } else if j > k {
                assert(s[j] == regions[j - 1]);
            }
        }
    }
}

/// A map that sends every address but the last to device 0.
pub fn create_default_memory_map() -> (map: MemoryMap)
    ensures
        map@ == seq![MemoryRegion { start: 0, end: (u64::MAX - 1) as u64, device: DeviceId(0) }],
{
    let regions = vec![(0u64, u64::MAX, DeviceId(0))];
    proof {
        let r = regions@;
        assert(r.len() == 1);
        assert(r[0] == (0u64, u64::MAX, DeviceId(0)));
        assert(r.drop_last() =~= Seq::<(u64, u64, DeviceId)>::empty());
        let empty = Seq::<MemoryRegion>::empty();
        assert(from_regions_result(r.drop_last()) == Ok::<Seq<MemoryRegion>, ModelError>(empty));
        assert(r.last() == (0u64, u64::MAX, DeviceId(0)));
        assert(insert_index(empty, 0) == 0);
        assert(empty.insert(0, MemoryRegion { start: 0, end: (u64::MAX - 1) as u64, device: DeviceId(0) }) =~= seq![
            MemoryRegion { start: 0, end: (u64::MAX - 1) as u64, device: DeviceId(0) },
        ]);
        assert(insert_result(empty, 0, u64::MAX, DeviceId(0)) == Ok::<Seq<MemoryRegion>, ModelError>(seq![
            MemoryRegion { start: 0, end: (u64::MAX - 1) as u64, device: DeviceId(0) },
        ]));
        assert(from_regions_result(r) == Ok::<Seq<MemoryRegion>, ModelError>(seq![
            MemoryRegion { start: 0, end: (u64::MAX - 1) as u64, device: DeviceId(0) },
        ]));
    }
    match MemoryMap::from_regions(regions.as_slice()) {
        Ok(map) => map,
        Err(_) => {
            assert(false);
            MemoryMap::new()
        },
    }
}

} // verus!
