//! The load/store unit of a processing element.
//!
//! An access larger than the unit's largest request is broken into requests
//! that follow each other through memory. Each request occupies a slot until
//! its response has been handled; slots wait in a queue, in the order their
//! requests were made, for their request to be sent. A response finds its
//! slot by the source address of the request, which is the slot's index.
use std::collections::VecDeque;

use vstd::prelude::*;

use crate::cache::coherency_manager::CoherenceMessage;
use crate::cache::contents::AccessKind;
use crate::error::ModelError;
use crate::memory::CacheHintType;
use crate::memory::memory_map::{DeviceId, MemoryMap, lookup_result};
use crate::operators::view_models;
use crate::tensor_view::{TensorView, ViewModel, view_byte_range};

verus! {

/// One slot for an outstanding request: whether it is taken, the request
/// waiting to be sent, and the response waiting to be handled.
#[derive(Clone, Copy, Debug, PartialEq, Eq, Structural)]
pub struct RequestSlot {
    pub in_use: bool,
    pub request: Option<CoherenceMessage>,
    pub response: Option<CoherenceMessage>,
}

/// A slot that nothing occupies.
pub open spec fn free_slot() -> RequestSlot {
    RequestSlot { in_use: false, request: None, response: None }
}

/// The slots of a load/store unit and the slots whose requests wait to be
/// sent, oldest first.
pub struct LsuModel {
    pub slots: Seq<RequestSlot>,
    pub pending: Seq<usize>,
}

/// Every queued slot exists.
pub open spec fn lsu_wf(m: LsuModel) -> bool {
    forall|k: int| 0 <= k < m.pending.len() ==> #[trigger] m.pending[k] < m.slots.len()
}

/// The first slot not in use, if any.
pub open spec fn first_free(slots: Seq<RequestSlot>) -> Option<int>
    decreases slots.len(),
{
    if slots.len() == 0 {
        None
    } else {
        match first_free(slots.drop_last()) {
            Some(i) => Some(i),
            None => if slots.last().in_use {
                None
            } else {
                Some(slots.len() - 1)
            },
        }
    }
}

/// Taking the first free slot: the unit afterwards and the slot taken.
pub open spec fn allocate_slot(m: LsuModel) -> (LsuModel, Option<usize>) {
    match first_free(m.slots) {
        Some(i) => (LsuModel { slots: m.slots.update(i, RequestSlot { in_use: true, ..m.slots[i] }), ..m }, Some(i as usize)),
        None => (m, None),
    }
}

/// Placing a request in a slot and queueing the slot to be sent.
pub open spec fn place_request(m: LsuModel, slot: usize, access: CoherenceMessage) -> LsuModel {
    LsuModel { slots: m.slots.update(slot as int, RequestSlot { request: Some(access), ..m.slots[slot as int] }), pending: m.pending.push(slot) }
}

/// Taking the oldest queued request to send: the unit afterwards, and the
/// slot and request, or why the queued slot has none.
pub open spec fn next_request(m: LsuModel) -> (LsuModel, Result<Option<(usize, CoherenceMessage)>, ModelError>) {
    if m.pending.len() == 0 {
        (m, Ok(None))
    } else {
        let slot = m.pending[0];
        let popped = LsuModel { pending: m.pending.drop_first(), ..m };
        let s = m.slots[slot as int];
        if !s.in_use {
            (popped, Err(ModelError::RequestSlotIdle { slot }))
        } else {
            match s.request {
                None => (popped, Err(ModelError::MissingRequest { slot })),
                Some(r) => (
                    LsuModel { slots: m.slots.update(slot as int, RequestSlot { request: None, ..s }), ..popped },
                    Ok(Some((slot, r))),
                ),
            }
        }
    }
}

/// Storing a response in the slot its source address names.
pub open spec fn store_response(m: LsuModel, response: CoherenceMessage) -> (LsuModel, Result<(), ModelError>) {
    if response.src_addr < m.slots.len() {
        let i = response.src_addr as int;
        (LsuModel { slots: m.slots.update(i, RequestSlot { response: Some(response), ..m.slots[i] }), ..m }, Ok(()))
    } else {
        (m, Err(ModelError::InvalidResponseSlot { index: response.src_addr }))
    }
}

/// Handling the response in a slot: the slot is released, and its response
/// dropped.
pub open spec fn release_slot(m: LsuModel, slot: usize) -> (LsuModel, Result<(), ModelError>) {
    let s = m.slots[slot as int];
    if !s.in_use {
        (m, Err(ModelError::SlotNotInUse { slot }))
    } else {
        let released = LsuModel { slots: m.slots.update(slot as int, RequestSlot { in_use: false, response: None, ..s }), ..m };
        if s.response is None {
            (released, Err(ModelError::MissingResponse { slot }))
        } else {
            (released, Ok(()))
        }
    }
}

/// The request slots of a load/store unit.
pub struct LoadStoreSlots {
    slots: Vec<RequestSlot>,
    pending: VecDeque<usize>,
}

impl View for LoadStoreSlots {
    type V = LsuModel;

    closed spec fn view(&self) -> LsuModel {
        LsuModel { slots: self.slots@, pending: self.pending@ }
    }
}

impl LoadStoreSlots {
    /// A unit with `num_active_requests` free slots and nothing queued.
    pub fn new(num_active_requests: usize) -> (unit: Self)
        ensures
            unit@.slots == Seq::new(num_active_requests as nat, |i: int| free_slot()),
            unit@.pending.len() == 0,
            lsu_wf(unit@),
    {
        let mut slots: Vec<RequestSlot> = Vec::new();
        let mut i: usize = 0;
        while i < num_active_requests
            invariant
                i <= num_active_requests,
                slots@ == Seq::new(i as nat, |k: int| free_slot()),
            decreases num_active_requests - i,
        {
            slots.push(RequestSlot { in_use: false, request: None, response: None });
            i = i + 1;
            assert(slots@ =~= Seq::new(i as nat, |k: int| free_slot()));
        }
        let unit = LoadStoreSlots { slots, pending: VecDeque::new() };
        assert(unit@.pending =~= Seq::<usize>::empty());
        unit
    }

    /// The number of slots.
    pub fn num_slots(&self) -> (n: usize)
        ensures
            n == self@.slots.len(),
    {
        self.slots.len()
    }

    /// Whether some request waits to be sent.
    pub fn has_pending_requests(&self) -> (any: bool)
        ensures
            any == (self@.pending.len() > 0),
    {
        self.pending.len() > 0
    }

    /// Take the first free slot and return its index; `None` when every
    /// slot is in use, and the caller waits for one to be released.
    pub fn allocate_request_slot(&mut self) -> (slot: Option<usize>)
        ensures
            (final(self)@, slot) == allocate_slot(old(self)@),
            lsu_wf(old(self)@) ==> lsu_wf(final(self)@),
    {
        let mut i: usize = 0;
        while i < self.slots.len()
            invariant
                i <= self.slots@.len(),
                self@ == old(self)@,
                first_free(self.slots@.subrange(0, i as int)) is None,
            decreases self.slots@.len() - i,
        {
            proof {
                lemma_first_free_prefix(self.slots@, i as int);
            }
            if !self.slots[i].in_use {
                proof {
                    lemma_first_free_extends(self.slots@, i as int);
                }
                let mut s = self.slots[i];
                s.in_use = true;
                self.slots.set(i, s);
                return Some(i);
            }
            i = i + 1;
        }
        proof {
            assert(self.slots@.subrange(0, self.slots@.len() as int) =~= self.slots@);
        }
        None
    }

    /// Place a request in an allocated slot and queue the slot to be sent.
    pub fn make_request(&mut self, slot: usize, access: CoherenceMessage)
        requires
            slot < old(self)@.slots.len(),
        ensures
            final(self)@ == place_request(old(self)@, slot, access),
            lsu_wf(old(self)@) ==> lsu_wf(final(self)@),
    {
        let mut s = self.slots[slot];
        s.request = Some(access);
        self.slots.set(slot, s);
        self.pending.push_back(slot);
        proof {
            assert(self@.slots =~= place_request(old(self)@, slot, access).slots);
        }
    }

    /// Take the oldest queued request to send, with its slot.
    pub fn take_next_request(&mut self) -> (result: Result<Option<(usize, CoherenceMessage)>, ModelError>)
        requires
            lsu_wf(old(self)@),
        ensures
            (final(self)@, result) == next_request(old(self)@),
            lsu_wf(final(self)@),
    {
        let slot = match self.pending.pop_front() {
            None => return Ok(None),
            Some(slot) => slot,
        };
        assert(self@.pending =~= old(self)@.pending.drop_first());
        assert(slot == old(self)@.pending[0]);
        let mut s = self.slots[slot];
        if !s.in_use {
            return Err(ModelError::RequestSlotIdle { slot });
        }
        match s.request {
            None => Err(ModelError::MissingRequest { slot }),
            Some(r) => {
                s.request = None;
                self.slots.set(slot, s);
                Ok(Some((slot, r)))
            },
        }
    }

    /// Store a response in the slot that its source address names.
    pub fn put_response(&mut self, response: CoherenceMessage) -> (result: Result<(), ModelError>)
        ensures
            (final(self)@, result) == store_response(old(self)@, response),
            lsu_wf(old(self)@) ==> lsu_wf(final(self)@),
    {
        if response.src_addr < self.slots.len() as u64 {
            let i = response.src_addr as usize;
            let mut s = self.slots[i];
            s.response = Some(response);
            self.slots.set(i, s);
            assert(self@.pending == old(self)@.pending && self@.slots.len() == old(self)@.slots.len());
            Ok(())
        } else {
            Err(ModelError::InvalidResponseSlot { index: response.src_addr })
        }
    }

    /// Handle the response in a slot and release the slot.
    pub fn handle_response_in_slot(&mut self, slot: usize) -> (result: Result<(), ModelError>)
        requires
            slot < old(self)@.slots.len(),
        ensures
            (final(self)@, result) == release_slot(old(self)@, slot),
            lsu_wf(old(self)@) ==> lsu_wf(final(self)@),
    {
        let mut s = self.slots[slot];
        if !s.in_use {
            return Err(ModelError::SlotNotInUse { slot });
        }
        let had_response = s.response.is_some();
        s.in_use = false;
        s.response = None;
        self.slots.set(slot, s);
        assert(self@.pending == old(self)@.pending && self@.slots.len() == old(self)@.slots.len());
        if had_response {
            Ok(())
        } else {
            Err(ModelError::MissingResponse { slot })
        }
    }
}

proof fn lemma_first_free_prefix(slots: Seq<RequestSlot>, i: int)
    requires
        0 <= i < slots.len(),
    ensures
        slots.subrange(0, i + 1).drop_last() =~= slots.subrange(0, i),
        slots.subrange(0, i + 1).last() == slots[i],
{
}

/// The first free slot of a prefix with none free is its next free slot.
proof fn lemma_first_free_extends(slots: Seq<RequestSlot>, i: int)
    requires
        0 <= i < slots.len(),
        first_free(slots.subrange(0, i)) is None,
        !slots[i].in_use,
    ensures
        first_free(slots) == Some(i),
{
    lemma_first_free_prefix(slots, i);
    lemma_first_free_of_prefix(slots, i + 1);
}

/// A free slot found in a prefix is the first free slot of the whole.
proof fn lemma_first_free_of_prefix(slots: Seq<RequestSlot>, n: int)
    requires
        0 <= n <= slots.len(),
        first_free(slots.subrange(0, n)) is Some,
    ensures
        first_free(slots) == first_free(slots.subrange(0, n)),
    decreases slots.len() - n,
{
    if n == slots.len() {
        assert(slots.subrange(0, n) =~= slots);
    } else {
        assert(slots.subrange(0, n + 1).drop_last() =~= slots.subrange(0, n));
        lemma_first_free_of_prefix(slots, n + 1);
    }
}

/// A slot taken, given a request, sent, answered and handled is free and
/// empty again, and nothing else in the unit has changed.
pub proof fn lemma_request_round_trip(m: LsuModel, access: CoherenceMessage, response: CoherenceMessage)
    requires
        lsu_wf(m),
        m.slots.len() <= usize::MAX,
        m.pending.len() == 0,
        first_free(m.slots) is Some,
        response.src_addr == first_free(m.slots)->Some_0,
    ensures
        ({
            let (m1, slot) = allocate_slot(m);
            let i = slot->Some_0;
            let m2 = place_request(m1, i, access);
            let (m3, sent) = next_request(m2);
            let (m4, stored) = store_response(m3, response);
            let (m5, handled) = release_slot(m4, i);
            &&& slot == Some(first_free(m.slots)->Some_0 as usize)
            &&& sent == Ok::<Option<(usize, CoherenceMessage)>, ModelError>(Some((i, access)))
            &&& stored == Ok::<(), ModelError>(())
            &&& handled == Ok::<(), ModelError>(())
            &&& m5.slots == m.slots.update(i as int, free_slot())
            &&& m5.pending == m.pending
        }),
{
    lemma_first_free_in_range(m.slots);
    let j = first_free(m.slots)->Some_0;
    let (m1, slot) = allocate_slot(m);
    let i = slot->Some_0;
    assert(i as int == j);
    let m2 = place_request(m1, i, access);
    assert(m2.pending =~= seq![i]);
    assert(m2.slots[j] == (RequestSlot { in_use: true, request: Some(access), response: m.slots[j].response }));
    let (m3, sent) = next_request(m2);
    assert(m3.pending =~= Seq::<usize>::empty());
    assert(m3.slots[j] == (RequestSlot { in_use: true, request: None, response: m.slots[j].response }));
    let (m4, stored) = store_response(m3, response);
    assert(m4.slots[j] == (RequestSlot { in_use: true, request: None, response: Some(response) }));
    let (m5, handled) = release_slot(m4, i);
    assert(m5.slots =~= m.slots.update(j, free_slot()));
}

/// The first free slot is a slot that is not in use.
pub proof fn lemma_first_free_in_range(slots: Seq<RequestSlot>)
    ensures
        first_free(slots) matches Some(i) ==> 0 <= i < slots.len() && !slots[i].in_use && forall|j: int|
            0 <= j < i ==> #[trigger] slots[j].in_use,
        first_free(slots) is None ==> forall|j: int| 0 <= j < slots.len() ==> #[trigger] slots[j].in_use,
    decreases slots.len(),
{
    if slots.len() > 0 {
        let d = slots.drop_last();
        lemma_first_free_in_range(d);
        assert forall|j: int| 0 <= j < d.len() implies d[j] == #[trigger] slots[j] by {}
        match first_free(d) {
            Some(i) => {
                assert(first_free(slots) == Some(i));
                assert forall|j: int| 0 <= j < i implies #[trigger] slots[j].in_use by {
                    assert(d[j] == slots[j]);
                }
            },
            None => {
                assert forall|j: int| 0 <= j < slots.len() - 1 implies #[trigger] slots[j].in_use by {
                    assert(d[j] == slots[j]);
                }
            },
        }
    }
}

/// The requests that an access of `size` bytes at `addr` becomes: each of
/// at most `max` bytes, each starting where the one before ended.
pub open spec fn access_chunks(addr: nat, size: nat, max: nat) -> Seq<(nat, nat)>
    decreases size,
{
    if size == 0 || max == 0 {
        Seq::empty()
    } else {
        let n = if max < size { max } else { size };
        seq![(addr, n)] + access_chunks(addr + n, (size - n) as nat, max)
    }
}

/// The chunks as addresses and sizes.
pub open spec fn chunk_values(chunks: Seq<(u64, usize)>) -> Seq<(nat, nat)> {
    chunks.map_values(|c: (u64, usize)| (c.0 as nat, c.1 as nat))
}

/// The chunks of an access cover it exactly: they start at its address,
/// each follows the one before, each is between one and `max` bytes, and
/// their sizes add up to its size; there are `size / max` of them, rounded
/// up.
pub proof fn lemma_chunks_cover_access(addr: nat, size: nat, max: nat)
    requires
        max >= 1,
    ensures
        ({
            let c = access_chunks(addr, size, max);
            &&& c.len() == ((size + max - 1) as nat) / max
            &&& size > 0 ==> c[0].0 == addr
            &&& forall|k: int| 0 <= k < c.len() ==> 1 <= (#[trigger] c[k]).1 <= max
            &&& forall|k: int| 0 <= k < c.len() - 1 ==> #[trigger] c[k + 1].0 == c[k].0 + c[k].1
            &&& forall|k: int| 0 <= k < c.len() ==> (#[trigger] c[k]).0 == addr + k * max
            &&& size > 0 ==> c.last().0 + c.last().1 == addr + size
        }),
    decreases size,
{
    let c = access_chunks(addr, size, max);
    if size == 0 {
        assert(((size + max - 1) as nat) / max == 0) by (nonlinear_arith)
            requires
                max >= 1,
                size == 0,
        ;
    } else if size <= max {
        let rest = access_chunks(addr + size, 0, max);
        assert(rest.len() == 0);
        assert(c =~= seq![(addr, size)]);
        assert(((size + max - 1) as nat) / max == 1) by (nonlinear_arith)
            requires
                max >= 1,
                1 <= size <= max,
        ;
    } else {
        let rest = access_chunks(addr + max, (size - max) as nat, max);
        lemma_chunks_cover_access(addr + max, (size - max) as nat, max);
        assert(c == seq![(addr, max)] + rest);
        assert(rest.len() >= 1) by {
            let n2 = if max < (size - max) as nat { max } else { (size - max) as nat };
            assert(rest == seq![(addr + max, n2)] + access_chunks(addr + max + n2, ((size - max) as nat - n2) as nat, max));
        }
        assert(((size + max - 1) as nat) / max == (((size - max) + max - 1) as nat) / max + 1) by (nonlinear_arith)
            requires
                max >= 1,
                max < size,
        {
            assert(size + max - 1 == ((size - max) + max - 1) + max);
        }
        assert forall|k: int| 0 <= k < c.len() implies 1 <= (#[trigger] c[k]).1 <= max by {
            if k > 0 {
                assert(c[k] == rest[k - 1]);
            }
        }
        assert forall|k: int| 0 <= k < c.len() implies (#[trigger] c[k]).0 == addr + k * max by {
            if k > 0 {
                assert(c[k] == rest[k - 1]);
                assert(rest[k - 1].0 == addr + max + (k - 1) * max);
                assert(addr + max + (k - 1) * max == addr + k * max) by (nonlinear_arith);
            }
        }
        assert forall|k: int| 0 <= k < c.len() - 1 implies #[trigger] c[k + 1].0 == c[k].0 + c[k].1 by {
            assert(c[k + 1] == rest[k]);
            if k > 0 {
                assert(c[k] == rest[k - 1]);
                assert(rest[(k - 1) + 1].0 == rest[k - 1].0 + rest[k - 1].1);
            } else {
                assert(rest[0].0 == addr + max);
            }
        }
        assert(c.last() == rest.last());
    }
}

/// Break an access of `access_size_bytes` at `dst_addr` into the requests
/// of at most `max_access_size_bytes` each that the unit makes; an access
/// larger than the SRAM is refused.
pub fn split_access(access_size_bytes: usize, dst_addr: u64, max_access_size_bytes: usize, sram_bytes: usize) -> (result: Result<
    Vec<(u64, usize)>,
    ModelError,
>)
    requires
        access_size_bytes > 0 && access_size_bytes <= sram_bytes ==> max_access_size_bytes >= 1,
        access_size_bytes <= sram_bytes ==> dst_addr + access_size_bytes <= u64::MAX,
    ensures
        access_size_bytes > sram_bytes ==> result == Err::<Vec<(u64, usize)>, ModelError>(
            ModelError::AccessExceedsSram { bytes: access_size_bytes },
        ),
        access_size_bytes <= sram_bytes ==> (result matches Ok(chunks) && chunk_values(chunks@) == access_chunks(
            dst_addr as nat,
            access_size_bytes as nat,
            max_access_size_bytes as nat,
        )),
{
    if access_size_bytes > sram_bytes {
        return Err(ModelError::AccessExceedsSram { bytes: access_size_bytes });
    }
    let mut chunks: Vec<(u64, usize)> = Vec::new();
    let mut remaining = access_size_bytes;
    let mut addr = dst_addr;
    while remaining > 0
        invariant
            remaining > 0 ==> max_access_size_bytes >= 1,
            addr + remaining == dst_addr + access_size_bytes,
            dst_addr + access_size_bytes <= u64::MAX,
            chunk_values(chunks@) + access_chunks(addr as nat, remaining as nat, max_access_size_bytes as nat) == access_chunks(
                dst_addr as nat,
                access_size_bytes as nat,
                max_access_size_bytes as nat,
            ),
        decreases remaining,
    {
        let n = if max_access_size_bytes < remaining { max_access_size_bytes } else { remaining };
        let ghost before = chunks@;
        chunks.push((addr, n));
        proof {
            let rest = access_chunks((addr + n) as nat, (remaining - n) as nat, max_access_size_bytes as nat);
            assert(access_chunks(addr as nat, remaining as nat, max_access_size_bytes as nat) == seq![(addr as nat, n as nat)]
                + rest);
            assert(chunk_values(chunks@) =~= chunk_values(before).push((addr as nat, n as nat)));
            assert(chunk_values(chunks@) + rest =~= chunk_values(before) + (seq![(addr as nat, n as nat)] + rest));
        }
        remaining = remaining - n;
        addr = addr + n as u64;
    }
    proof {
        assert(chunk_values(chunks@) + Seq::<(nat, nat)>::empty() =~= chunk_values(chunks@));
    }
    Ok(chunks)
}

/// The request the unit sends for one chunk of an access.
pub open spec fn memory_access_for(
    map: Seq<crate::memory::memory_map::MemoryRegion>,
    device_id: DeviceId,
    overhead_size_bytes: usize,
    id: u64,
    access_type: AccessKind,
    access_size_bytes: usize,
    dst_addr: u64,
    slot: usize,
) -> Result<CoherenceMessage, ModelError> {
    match lookup_result(map, dst_addr) {
        None => Err(ModelError::AddressNotMapped { address: dst_addr }),
        Some((dst_device, _)) => Ok(
            CoherenceMessage {
                id,
                access_type,
                access_size_bytes,
                dst_addr,
                src_addr: slot as u64,
                dst_device,
                src_device: device_id,
                cache_hint: CacheHintType::Allocate,
                coherence_op: None,
                overhead_size_bytes,
            },
        ),
    }
}

/// The request for one chunk of an access, to the device that the memory
/// map gives for its address, with the slot as its source address so that
/// the response finds its way back.
pub fn create_memory_access(
    memory_map: &MemoryMap,
    device_id: DeviceId,
    overhead_size_bytes: usize,
    id: u64,
    access_type: AccessKind,
    access_size_bytes: usize,
    dst_addr: u64,
    slot: usize,
) -> (result: Result<CoherenceMessage, ModelError>)
    ensures
        result == memory_access_for(memory_map@, device_id, overhead_size_bytes, id, access_type, access_size_bytes, dst_addr, slot),
{
    match memory_map.lookup(dst_addr) {
        None => Err(ModelError::AddressNotMapped { address: dst_addr }),
        Some((dst_device, _)) => Ok(
            CoherenceMessage {
                id,
                access_type,
                access_size_bytes,
                dst_addr,
                src_addr: slot as u64,
                dst_device,
                src_device: device_id,
                cache_hint: CacheHintType::Allocate,
                coherence_op: None,
                overhead_size_bytes,
            },
        ),
    }
}

/// The address and size of the access that covers the bytes of a view.
pub open spec fn view_access(addr: u64, bytes: (nat, nat)) -> Result<(u64, usize), ModelError> {
    if addr + bytes.0 > u64::MAX {
        Err(ModelError::ViewAddressOverflow)
    } else {
        Ok(((addr + bytes.0) as u64, (bytes.1 - bytes.0) as usize))
    }
}

/// The access that covers the bytes of a view: from the first byte it
/// touches to the end of the last, partly touched bytes included.
pub fn tensor_view_access(view: &TensorView) -> (result: Result<(u64, usize), ModelError>)
    ensures
        result == view_access(view@.tensor.addr, view_byte_range(view@)),
{
    let range = view.byte_range();
    let offset = range.start as u64;
    match view.tensor().addr().checked_add(offset) {
        None => Err(ModelError::ViewAddressOverflow),
        Some(address) => Ok((address, range.end - range.start)),
    }
}

/// The accesses that cover the present views of a list, in order, or the
/// first view whose address does not fit.
pub open spec fn accesses_of(views: Seq<Option<ViewModel>>) -> Result<Seq<(u64, usize)>, ModelError>
    decreases views.len(),
{
    if views.len() == 0 {
        Ok(Seq::empty())
    } else {
        match accesses_of(views.drop_last()) {
            Err(e) => Err(e),
            Ok(prefix) => match views.last() {
                None => Ok(prefix),
                Some(v) => match view_access(v.tensor.addr, view_byte_range(v)) {
                    Err(e) => Err(e),
                    Ok(a) => Ok(prefix.push(a)),
                },
            },
        }
    }
}

/// The accesses that a partition's present views need, in the order the
/// views come: the reads of its inputs before its compute, and the writes
/// of its outputs after it.
pub fn view_accesses(views: &[Option<TensorView>]) -> (result: Result<Vec<(u64, usize)>, ModelError>)
    ensures
        match accesses_of(view_models(views@)) {
            Ok(a) => result matches Ok(r) && r@ == a,
            Err(e) => result == Err::<Vec<(u64, usize)>, ModelError>(e),
        },
{
    let ghost vs = view_models(views@);
    let mut out: Vec<(u64, usize)> = Vec::new();
    let mut i: usize = 0;
    while i < views.len()
        invariant
            i <= views@.len(),
            vs == view_models(views@),
            accesses_of(vs.take(i as int)) == Ok::<Seq<(u64, usize)>, ModelError>(out@),
        decreases views@.len() - i,
    {
        proof {
            assert(vs.take(i + 1).drop_last() =~= vs.take(i as int));
            assert(vs.take(i + 1).last() == vs[i as int]);
        }
        match &views[i] {
            Some(v) => match tensor_view_access(v) {
                Ok(a) => {
                    out.push(a);
                },
                Err(e) => {
                    proof {
                        lemma_accesses_error_persists(vs, (i + 1) as nat);
                    }
                    return Err(e);
                },
            },
            None => {},
        }
        i = i + 1;
    }
    proof {
        assert(vs.take(views@.len() as int) =~= vs);
    }
    Ok(out)
}

/// Once a prefix of the views gives an error, the whole list gives it.
proof fn lemma_accesses_error_persists(views: Seq<Option<ViewModel>>, k: nat)
    requires
        k <= views.len(),
        accesses_of(views.take(k as int)) is Err,
    ensures
        accesses_of(views) == accesses_of(views.take(k as int)),
    decreases views.len() - k,
{
    if k < views.len() {
        assert(views.take(k + 1 as int).drop_last() =~= views.take(k as int));
        lemma_accesses_error_persists(views, k + 1);
    } else {
        assert(views.take(k as int) =~= views);
    }
}

} // verus!
