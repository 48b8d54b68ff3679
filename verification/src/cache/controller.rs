//! How a cache serves its device and the memory side.
//!
//! The cache reads and writes hit in its own lines, waits behind lines that
//! are being filled, and on a miss allocates a line (writing back a modified
//! victim first) and forwards the request, to a coherency manager when the
//! cache is coherent and to memory otherwise. Requests that wait on a line
//! are retried once the line is filled or dropped; every request waits
//! behind an active barrier, which completes once nothing is outstanding.
//!
//! Handling one device request, one retry or one memory response is a
//! function from the cache's state to its new state and the actions to
//! take, in order: messages to send on each path and statistics to count.
use std::collections::VecDeque;

use vstd::prelude::*;

use crate::cache::coherency_manager::{CoherenceMessage, CoherenceOp, CoherenceState, response_of, response_to};
use crate::cache::config::CacheConfig;
use crate::cache::contents::{
    AccessKind, AllocateResult, CacheContents, CacheContentsModel, after_allocate, after_evict, after_invalidate,
    after_transition, allocate_result, kept_waiters, line_set, line_tag, selected_waiters, state_of, write_waits,
    first_with_id, lemma_state_of_held, entry_at, lemma_first_holding_same, lemma_invalidate_then_absent, lines_unique,
    no_stale_tag,
};
use crate::cache::line_state::{
    AllocateExclusive, AllocateShared, GrantExclusiveClean, GrantExclusiveModified, GrantShared, LineState,
    LineStateTransition, LocalWriteModified, allocated, read_hit, write_hit,
};
use crate::error::ModelError;
use crate::memory::CacheHintType;
use crate::memory::memory_map::{DeviceId, lookup_result};

verus! {

/// A statistic the cache counts.
#[derive(Clone, Copy, Debug, PartialEq, Eq, Structural)]
pub enum CacheEvent {
    PayloadRead { bytes: usize },
    ReadHit,
    ReadPendingHit,
    ReadMiss,
    WriteHit,
    WritePendingHit,
    WriteMiss,
    CompletedWrite { access_type: AccessKind, bytes: usize },
    SentOp { op: Option<CoherenceOp> },
    ReceivedOp { op: Option<CoherenceOp> },
}

/// What a cache does: send a message towards memory, send one on the
/// memory side's acknowledgement path, answer its device, or count a
/// statistic.
#[derive(Clone, Copy, Debug, PartialEq, Eq, Structural)]
pub enum CacheAction {
    ToMemory(CoherenceMessage),
    MemoryAck(CoherenceMessage),
    ToDevice(CoherenceMessage),
    Record(CacheEvent),
}

/// A request to handle again: one from the device that waited behind a
/// barrier, or one that waited on a line.
#[derive(Clone, Copy, Debug, PartialEq, Eq, Structural)]
pub enum RetryRequest {
    Device(CoherenceMessage),
    Pending(CoherenceMessage),
}

/// The state of a cache: its contents and the requests to retry, oldest
/// first.
pub struct CtlModel {
    pub contents: CacheContentsModel,
    pub retry: Seq<RetryRequest>,
}

/// What handling gives: the state afterwards and the actions, in order.
pub type Stepped = (CtlModel, Seq<CacheAction>);

/// Some line waits for its fill, or some request waits on a line or a
/// completion.
pub open spec fn busy(c: CacheContentsModel) -> bool {
    (exists|i: int| 0 <= i < c.entries.len() && allocated(#[trigger] c.entries[i].line_state)) || c.line_waiters.len() > 0
        || c.nonposted_completions.len() > 0 || c.noallocate_completions.len() > 0
}

/// The cache takes part in coherence.
pub open spec fn coherent(c: CacheContentsModel) -> bool {
    c.coherency_map is Some
}

/// The coherency manager responsible for an address.
pub open spec fn manager_for(c: CacheContentsModel, addr: u64) -> Result<DeviceId, ModelError> {
    match c.coherency_map {
        None => Err(ModelError::NoCoherencyManagerMap),
        Some(regions) => match lookup_result(regions, addr) {
            Some((device, _)) => Ok(device),
            None => Err(ModelError::NoCoherencyManagerForAddress { address: addr }),
        },
    }
}

/// Where requests for an address go: its coherency manager in a coherent
/// cache, its backing memory otherwise.
pub open spec fn device_for(c: CacheContentsModel, addr: u64) -> Result<DeviceId, ModelError> {
    match c.coherency_map {
        Some(regions) => match lookup_result(regions, addr) {
            Some((device, _)) => Ok(device),
            None => Err(ModelError::NoCoherencyManagerForAddress { address: addr }),
        },
        None => match lookup_result(c.memory_map, addr) {
            Some((device, _)) => Ok(device),
            None => Err(ModelError::NoBackingMemoryForAddress { address: addr }),
        },
    }
}

/// A request passed on with coherence operation `op`: from the cache to the
/// address's coherency manager when the cache is coherent.
pub open spec fn rewrite_source(c: CacheContentsModel, m: CoherenceMessage, op: Option<CoherenceOp>) -> Result<CoherenceMessage, ModelError> {
    if coherent(c) {
        match manager_for(c, m.dst_addr) {
            Err(e) => Err(e),
            Ok(manager) => Ok(CoherenceMessage { dst_device: manager, src_device: c.device_id, coherence_op: op, ..m }),
        }
    } else {
        Ok(CoherenceMessage { coherence_op: op, ..m })
    }
}

/// A miss passed on, asking for the line in state `want`.
pub open spec fn miss_request(c: CacheContentsModel, m: CoherenceMessage, want: CoherenceState) -> Result<CoherenceMessage, ModelError> {
    match want {
        CoherenceState::Shared => rewrite_source(c, m, Some(CoherenceOp::SharedRead)),
        CoherenceState::Exclusive | CoherenceState::Modified => rewrite_source(c, m, Some(CoherenceOp::ExclusiveWrite)),
        CoherenceState::Invalid => Err(ModelError::InvalidCoherenceState),
    }
}

/// The write of a modified line at `addr` back to where it belongs.
pub open spec fn writeback_msg(c: CacheContentsModel, request: CoherenceMessage, addr: u64) -> Result<CoherenceMessage, ModelError> {
    match device_for(c, addr) {
        Err(e) => Err(e),
        Ok(device) => Ok(CoherenceMessage {
            access_type: AccessKind::WriteRequest,
            dst_addr: addr,
            dst_device: device,
            src_device: c.device_id,
            coherence_op: None,
            ..request
        }),
    }
}

/// A request asks to allocate a line.
pub open spec fn should_allocate(m: CoherenceMessage) -> bool {
    m.cache_hint == CacheHintType::Allocate
}

/// A non-posted write.
pub open spec fn non_posted(m: CoherenceMessage) -> bool {
    m.access_type == AccessKind::WriteNonPostedRequest
}

/// The contents with `m` waiting on its line.
pub open spec fn add_waiter(c: CacheContentsModel, m: CoherenceMessage) -> CacheContentsModel {
    CacheContentsModel { line_waiters: c.line_waiters.push((line_tag(c, m.dst_addr), line_set(c, m.dst_addr), m)), ..c }
}

/// The contents with the non-posted write `m` waiting for its grant.
pub open spec fn add_nonposted(c: CacheContentsModel, m: CoherenceMessage) -> CacheContentsModel {
    CacheContentsModel {
        nonposted_completions: c.nonposted_completions.push((line_tag(c, m.dst_addr), line_set(c, m.dst_addr), m)),
        ..c
    }
}

/// The contents with `m` waiting for its completion without allocation.
pub open spec fn add_noallocate(c: CacheContentsModel, m: CoherenceMessage) -> CacheContentsModel {
    CacheContentsModel { noallocate_completions: c.noallocate_completions.push(m), ..c }
}

/// The contents with the write `m` waiting for exclusive access.
pub open spec fn add_exclusive_write(c: CacheContentsModel, m: CoherenceMessage) -> CacheContentsModel {
    if non_posted(m) {
        add_nonposted(c, m)
    } else {
        add_waiter(c, m)
    }
}

/// The state with `m` held behind the barrier.
pub open spec fn add_blocked(s: CtlModel, m: CoherenceMessage) -> CtlModel {
    CtlModel { contents: CacheContentsModel { blocked: s.contents.blocked.push(m), ..s.contents }, ..s }
}

/// The state with other contents.
pub open spec fn with_contents(s: CtlModel, c: CacheContentsModel) -> CtlModel {
    CtlModel { contents: c, ..s }
}

/// Count a statistic.
pub open spec fn record(out: Seq<CacheAction>, e: CacheEvent) -> Seq<CacheAction> {
    out.push(CacheAction::Record(e))
}

/// Count a statistic when `count`.
pub open spec fn record_if(out: Seq<CacheAction>, count: bool, e: CacheEvent) -> Seq<CacheAction> {
    if count {
        record(out, e)
    } else {
        out
    }
}

/// Count the coherence operation of a message sent, then send it towards
/// memory.
pub open spec fn send_to_memory(out: Seq<CacheAction>, m: CoherenceMessage) -> Seq<CacheAction> {
    record(out, CacheEvent::SentOp { op: m.coherence_op }).push(CacheAction::ToMemory(m))
}

/// Count the payload of a completed write.
pub open spec fn completed_write(out: Seq<CacheAction>, m: CoherenceMessage) -> Seq<CacheAction> {
    record(out, CacheEvent::CompletedWrite { access_type: m.access_type, bytes: m.access_size_bytes })
}

/// Allocate a line for `request` at `addr` under `T`; a modified victim is
/// written back and evicted first.
pub open spec fn allocate_line<T: LineStateTransition>(
    c: CacheContentsModel,
    out: Seq<CacheAction>,
    request: CoherenceMessage,
    addr: u64,
) -> Result<(CacheContentsModel, Seq<CacheAction>, AllocateResult), ModelError> {
    let r = allocate_result::<T>(c, addr);
    let c1 = after_allocate::<T>(c, addr);
    match r {
        AllocateResult::NeedsWriteback { evicted_modified_addr } => match writeback_msg(c1, request, evicted_modified_addr) {
            Err(e) => Err(e),
            Ok(writeback) => if state_of(c1, evicted_modified_addr) != Some(LineState::Modified) {
                Err(ModelError::EvictionFailed { address: evicted_modified_addr })
            } else {
                let c2 = after_evict(c1, evicted_modified_addr);
                let r2 = allocate_result::<T>(c2, addr);
                if r2 is NeedsWriteback {
                    Err(ModelError::StillNeedsWriteback { address: evicted_modified_addr })
                } else {
                    Ok((after_allocate::<T>(c2, addr), out.push(CacheAction::MemoryAck(writeback)), r2))
                }
            },
        },
        _ => Ok((c1, out, r)),
    }
}

/// A read from the device.
pub open spec fn read_request(s: CtlModel, out: Seq<CacheAction>, request: CoherenceMessage, count: bool) -> Result<Stepped, ModelError> {
    let c = s.contents;
    let addr = request.dst_addr;
    let out0 = record_if(out, count, CacheEvent::PayloadRead { bytes: request.access_size_bytes });
    match state_of(c, addr) {
        Some(state) => if read_hit(state) {
            match response_of(request) {
                Err(e) => Err(e),
                Ok(r) => Ok((s, record_if(out0, count, CacheEvent::ReadHit).push(CacheAction::ToDevice(r)))),
            }
        } else {
            Ok((with_contents(s, add_waiter(c, request)), record_if(out0, count, CacheEvent::ReadPendingHit)))
        },
        None => {
            let out1 = record_if(out0, count, CacheEvent::ReadMiss);
            match miss_request(c, request, CoherenceState::Shared) {
                Err(e) => Err(e),
                Ok(forwarded) => if !should_allocate(request) {
                    Ok((with_contents(s, add_noallocate(c, request)), send_to_memory(out1, forwarded)))
                } else {
                    match allocate_line::<AllocateShared>(c, out1, request, addr) {
                        Err(e) => Err(e),
                        Ok((c1, out2, r)) => if r is Allocated {
                            Ok((with_contents(s, add_waiter(c1, request)), send_to_memory(out2, forwarded)))
                        } else {
                            Ok((with_contents(s, add_waiter(c1, request)), out2))
                        },
                    }
                },
            }
        },
    }
}

/// A write that hits: the line becomes modified and a non-posted write is
/// answered.
pub open spec fn complete_local_write(s: CtlModel, out: Seq<CacheAction>, request: CoherenceMessage) -> Result<Stepped, ModelError> {
    let c1 = after_transition::<LocalWriteModified>(s.contents, request.dst_addr);
    let out1 = completed_write(out, request);
    if non_posted(request) {
        match response_of(request) {
            Err(e) => Err(e),
            Ok(r) => Ok((with_contents(s, c1), out1.push(CacheAction::ToDevice(r)))),
        }
    } else {
        Ok((with_contents(s, c1), out1))
    }
}

/// A write from the device.
pub open spec fn write_request(s: CtlModel, out: Seq<CacheAction>, request: CoherenceMessage, count: bool) -> Result<Stepped, ModelError> {
    let c = s.contents;
    let addr = request.dst_addr;
    let state = state_of(c, addr);
    if state matches Some(x) && write_hit(x) {
        complete_local_write(s, record_if(out, count, CacheEvent::WriteHit), request)
    } else if state matches Some(x) && allocated(x) {
        Ok((with_contents(s, add_waiter(c, request)), record_if(out, count, CacheEvent::WritePendingHit)))
    } else {
        let out1 = record_if(out, count, CacheEvent::WriteMiss);
        match miss_request(c, request, CoherenceState::Exclusive) {
            Err(e) => Err(e),
            Ok(forwarded) => if !should_allocate(request) {
                let c1 = after_invalidate(c, addr);
                if non_posted(request) {
                    Ok((with_contents(s, add_noallocate(c1, request)), send_to_memory(out1, forwarded)))
                } else {
                    Ok((with_contents(s, c1), send_to_memory(completed_write(out1, request), forwarded)))
                }
            } else {
                match allocate_line::<AllocateExclusive>(c, out1, request, addr) {
                    Err(e) => Err(e),
                    Ok((c1, out2, r)) => if r is Allocated {
                        if coherent(c1) {
                            Ok((with_contents(s, add_exclusive_write(c1, request)), send_to_memory(out2, forwarded)))
                        } else {
                            let granted = after_transition::<GrantExclusiveModified>(c1, addr);
                            if non_posted(request) {
                                Ok((with_contents(s, add_nonposted(granted, request)), send_to_memory(out2, forwarded)))
                            } else {
                                Ok((with_contents(s, granted), send_to_memory(completed_write(out2, request), forwarded)))
                            }
                        }
                    } else {
                        Ok((with_contents(s, add_waiter(c1, request)), out2))
                    },
                }
            },
        }
    }
}

/// Drop the line of an invalidate, writing it back first when modified;
/// gives the ack to send.
pub open spec fn invalidate_and_ack(s: CtlModel, out: Seq<CacheAction>, access: CoherenceMessage) -> Result<
    (CtlModel, Seq<CacheAction>, CoherenceMessage),
    ModelError,
> {
    let c = s.contents;
    let addr = access.dst_addr;
    let written = if state_of(c, addr) == Some(LineState::Modified) {
        match writeback_msg(c, access, addr) {
            Err(e) => Err(e),
            Ok(writeback) => Ok(out.push(CacheAction::MemoryAck(writeback))),
        }
    } else {
        Ok(out)
    };
    match written {
        Err(e) => Err(e),
        Ok(out1) => {
            let ack = CoherenceMessage {
                dst_device: access.src_device,
                src_device: c.device_id,
                coherence_op: Some(CoherenceOp::InvalidateAck),
                ..access
            };
            Ok((
                with_contents(s, after_invalidate(c, addr)),
                record(out1, CacheEvent::SentOp { op: Some(CoherenceOp::InvalidateAck) }),
                ack,
            ))
        },
    }
}

/// Requests to retry after waiting on a line.
pub open spec fn pending_retries(ws: Seq<CoherenceMessage>) -> Seq<RetryRequest> {
    ws.map_values(|m: CoherenceMessage| RetryRequest::Pending(m))
}

/// Requests to retry after waiting behind a barrier.
pub open spec fn device_retries(ws: Seq<CoherenceMessage>) -> Seq<RetryRequest> {
    ws.map_values(|m: CoherenceMessage| RetryRequest::Device(m))
}

/// The waiters that a line's fill or drop releases, by line, and the
/// contents without them.
pub open spec fn release_waiters(c: CacheContentsModel, tag: u64, set: usize, except: bool) -> (CacheContentsModel, Seq<CoherenceMessage>) {
    let taken = selected_waiters(c.line_waiters, tag, set, except);
    if taken.len() == 0 {
        (c, taken)
    } else {
        (CacheContentsModel { line_waiters: kept_waiters(c.line_waiters, tag, set, except), ..c }, taken)
    }
}

/// Once the line of `line_access` is filled or dropped, its waiters, then
/// those of the other lines of its set, are retried; the barrier then moves
/// on if it can.
pub open spec fn process_waiters(s: CtlModel, out: Seq<CacheAction>, line_access: CoherenceMessage) -> Result<Stepped, ModelError> {
    let c = s.contents;
    let tag = line_tag(c, line_access.dst_addr);
    let set = line_set(c, line_access.dst_addr);
    let (c1, same_line) = release_waiters(c, tag, set, false);
    let (c2, same_set) = release_waiters(c1, tag, set, true);
    try_advance_barrier(
        CtlModel { contents: c2, retry: s.retry + pending_retries(same_line) + pending_retries(same_set) },
        out,
    )
}

/// Once nothing is outstanding and nothing waits to be retried, the active
/// barrier is forwarded to the coherency manager, or completed when the
/// cache is not coherent.
pub open spec fn try_advance_barrier(s: CtlModel, out: Seq<CacheAction>) -> Result<Stepped, ModelError> {
    let c = s.contents;
    match c.active_barrier {
        None => Ok((s, out)),
        Some(barrier) => if busy(c) || s.retry.len() > 0 || c.barrier_forwarded {
            Ok((s, out))
        } else if coherent(c) {
            match rewrite_source(c, barrier, None) {
                Err(e) => Err(e),
                Ok(forwarded) => Ok((
                    with_contents(s, CacheContentsModel { barrier_forwarded: true, ..c }),
                    out.push(CacheAction::ToMemory(forwarded)),
                )),
            }
        } else {
            complete_barrier(s, out, barrier)
        },
    }
}

/// Answer the barrier, end it, and retry the requests held behind it.
pub open spec fn complete_barrier(s: CtlModel, out: Seq<CacheAction>, barrier: CoherenceMessage) -> Result<Stepped, ModelError> {
    match response_of(barrier) {
        Err(e) => Err(e),
        Ok(r) => {
            let c = s.contents;
            Ok((
                CtlModel {
                    contents: CacheContentsModel {
                        active_barrier: None,
                        barrier_forwarded: false,
                        blocked: Seq::empty(),
                        ..c
                    },
                    retry: s.retry + device_retries(c.blocked),
                },
                out.push(CacheAction::ToDevice(r)),
            ))
        },
    }
}

/// A barrier from the device.
pub open spec fn barrier_request(s: CtlModel, out: Seq<CacheAction>, request: CoherenceMessage) -> Result<Stepped, ModelError> {
    if s.contents.active_barrier is Some {
        Ok((add_blocked(s, request), out))
    } else {
        try_advance_barrier(
            with_contents(s, CacheContentsModel { active_barrier: Some(request), barrier_forwarded: false, ..s.contents }),
            out,
        )
    }
}

/// A control access from the device: an invalidate, answered to the
/// device.
pub open spec fn control_request(s: CtlModel, out: Seq<CacheAction>, request: CoherenceMessage) -> Result<Stepped, ModelError> {
    if request.coherence_op == Some(CoherenceOp::Invalidate) {
        match invalidate_and_ack(s, out, request) {
            Err(e) => Err(e),
            Ok((s1, out1, ack)) => process_waiters(s1, out1.push(CacheAction::ToDevice(ack)), request),
        }
    } else {
        Err(ModelError::UnsupportedDeviceControl)
    }
}

/// A request from the device, new (`count`) or retried after waiting on a
/// line; a new one waits behind an active barrier.
pub open spec fn handle_request(s: CtlModel, out: Seq<CacheAction>, request: CoherenceMessage, count: bool) -> Result<Stepped, ModelError> {
    if count && s.contents.active_barrier is Some {
        Ok((add_blocked(s, request), out))
    } else {
        match request.access_type {
            AccessKind::Control => control_request(s, out, request),
            AccessKind::ReadRequest => read_request(s, out, request, count),
            AccessKind::BarrierRequest => barrier_request(s, out, request),
            AccessKind::WriteRequest | AccessKind::WriteNonPostedRequest => write_request(s, out, request, count),
            _ => Err(ModelError::UnsupportedDeviceAccess),
        }
    }
}

/// A new request from the device: its coherence operation is counted.
pub open spec fn device_request(s: CtlModel, request: CoherenceMessage) -> Result<Stepped, ModelError> {
    handle_request(s, seq![CacheAction::Record(CacheEvent::ReceivedOp { op: request.coherence_op })], request, true)
}

/// Retry the oldest request to retry, then move the barrier on if it can.
pub open spec fn retry_step(s: CtlModel) -> Result<Stepped, ModelError> {
    if s.retry.len() == 0 {
        Ok((s, Seq::empty()))
    } else {
        let s1 = CtlModel { retry: s.retry.drop_first(), ..s };
        let handled = match s.retry[0] {
            RetryRequest::Device(request) => if s1.contents.active_barrier is Some {
                Ok((add_blocked(s1, request), Seq::empty()))
            } else {
                handle_request(s1, Seq::empty(), request, true)
            },
            RetryRequest::Pending(request) => handle_request(s1, Seq::empty(), request, false),
        };
        match handled {
            Err(e) => Err(e),
            Ok((s2, out2)) => try_advance_barrier(s2, out2),
        }
    }
}

/// Complete a request that bypassed allocation, if `access` answers one;
/// says whether it did.
pub open spec fn complete_noallocate(s: CtlModel, out: Seq<CacheAction>, access: CoherenceMessage) -> Result<
    (CtlModel, Seq<CacheAction>, bool),
    ModelError,
> {
    let c = s.contents;
    match first_with_id(c.noallocate_completions, access.id, c.noallocate_completions.len()) {
        None => Ok((s, out, false)),
        Some(i) => {
            let request = c.noallocate_completions[i as int];
            match response_of(request) {
                Err(e) => Err(e),
                Ok(r) => Ok((
                    with_contents(s, CacheContentsModel { noallocate_completions: c.noallocate_completions.remove(i as int), ..c }),
                    completed_write(out, request).push(CacheAction::ToDevice(r)),
                    true,
                )),
            }
        },
    }
}

/// Answer each non-posted write of `ws`, in order.
pub open spec fn answer_writes(out: Seq<CacheAction>, ws: Seq<CoherenceMessage>) -> Result<Seq<CacheAction>, ModelError>
    decreases ws.len(),
{
    if ws.len() == 0 {
        Ok(out)
    } else if non_posted(ws[0]) {
        match response_of(ws[0]) {
            Err(e) => Err(e),
            Ok(r) => answer_writes(completed_write(out, ws[0]).push(CacheAction::ToDevice(r)), ws.drop_first()),
        }
    } else {
        answer_writes(out, ws.drop_first())
    }
}

/// Answer the non-posted writes that waited for the grant of a line.
pub open spec fn complete_nonposted(s: CtlModel, out: Seq<CacheAction>, access: CoherenceMessage) -> Result<Stepped, ModelError> {
    let c = s.contents;
    let tag = line_tag(c, access.dst_addr);
    let set = line_set(c, access.dst_addr);
    let taken = selected_waiters(c.nonposted_completions, tag, set, false);
    let c1 = if taken.len() == 0 {
        c
    } else {
        CacheContentsModel { nonposted_completions: kept_waiters(c.nonposted_completions, tag, set, false), ..c }
    };
    match answer_writes(out, taken) {
        Err(e) => Err(e),
        Ok(out1) => Ok((with_contents(s, c1), out1)),
    }
}

/// An exclusive grant: the line becomes modified when a write waits on it,
/// exclusive otherwise; with `respond`, the non-posted writes waiting on it
/// are answered.
pub open spec fn apply_grant(s: CtlModel, out: Seq<CacheAction>, access: CoherenceMessage, respond: bool) -> Result<Stepped, ModelError> {
    let c = s.contents;
    let tag = line_tag(c, access.dst_addr);
    let set = line_set(c, access.dst_addr);
    let modified = write_waits(c.line_waiters, tag, set) || write_waits(c.nonposted_completions, tag, set);
    let c1 = if modified {
        after_transition::<GrantExclusiveModified>(c, access.dst_addr)
    } else {
        after_transition::<GrantExclusiveClean>(c, access.dst_addr)
    };
    if respond {
        complete_nonposted(with_contents(s, c1), out, access)
    } else {
        Ok((with_contents(s, c1), out))
    }
}

/// Then retry what waited on the line of `access`.
pub open spec fn then_process(r: Result<Stepped, ModelError>, access: CoherenceMessage) -> Result<Stepped, ModelError> {
    match r {
        Err(e) => Err(e),
        Ok((s1, out1)) => process_waiters(s1, out1, access),
    }
}

/// A control access from the memory side: an invalidate, acknowledged
/// towards memory, or an exclusive grant.
pub open spec fn control_response(s: CtlModel, out: Seq<CacheAction>, access: CoherenceMessage) -> Result<Stepped, ModelError> {
    if access.coherence_op == Some(CoherenceOp::Invalidate) {
        match invalidate_and_ack(s, out, access) {
            Err(e) => Err(e),
            Ok((s1, out1, ack)) => process_waiters(s1, out1.push(CacheAction::MemoryAck(ack)), access),
        }
    } else if access.coherence_op == Some(CoherenceOp::GrantExclusive) {
        match complete_noallocate(s, out, access) {
            Err(e) => Err(e),
            Ok((s1, out1, done)) => then_process(
                if done {
                    Ok((s1, out1))
                } else {
                    apply_grant(s1, out1, access, true)
                },
                access,
            ),
        }
    } else {
        Err(ModelError::UnsupportedMemoryControl)
    }
}

/// The answer to a non-posted write.
pub open spec fn write_nonposted_response(s: CtlModel, out: Seq<CacheAction>, access: CoherenceMessage) -> Result<Stepped, ModelError> {
    match complete_noallocate(s, out, access) {
        Err(e) => Err(e),
        Ok((s1, out1, done)) => then_process(
            if done {
                Ok((s1, out1))
            } else if access.coherence_op == Some(CoherenceOp::GrantExclusive) {
                apply_grant(s1, out1, access, true)
            } else if !coherent(s1.contents) {
                complete_nonposted(s1, out1, access)
            } else {
                Ok((with_contents(s1, after_invalidate(s1.contents, access.dst_addr)), out1.push(CacheAction::ToDevice(access))))
            },
            access,
        ),
    }
}

/// The answer to a read.
pub open spec fn read_response(s: CtlModel, out: Seq<CacheAction>, access: CoherenceMessage) -> Result<Stepped, ModelError> {
    match complete_noallocate(s, out, access) {
        Err(e) => Err(e),
        Ok((s1, out1, done)) => then_process(
            if done {
                Ok((s1, out1))
            } else if access.coherence_op == Some(CoherenceOp::GrantExclusive) {
                apply_grant(s1, out1, access, false)
            } else {
                Ok((with_contents(s1, after_transition::<GrantShared>(s1.contents, access.dst_addr)), out1))
            },
            access,
        ),
    }
}

/// A message from the memory side: its coherence operation is counted.
pub open spec fn memory_response(s: CtlModel, access: CoherenceMessage) -> Result<Stepped, ModelError> {
    let out = seq![CacheAction::Record(CacheEvent::ReceivedOp { op: access.coherence_op })];
    match access.access_type {
        AccessKind::Control => control_response(s, out, access),
        AccessKind::BarrierResponse => match s.contents.active_barrier {
            None => Err(ModelError::BarrierResponseWithoutBarrier),
            Some(barrier) => complete_barrier(s, out, barrier),
        },
        AccessKind::WriteNonPostedResponse => write_nonposted_response(s, out, access),
        AccessKind::ReadResponse => read_response(s, out, access),
        _ => Err(ModelError::UnsupportedResponseAccess),
    }
}

} // verus!

verus! {

/// The actions a step took, and the state it left, or the error it
/// reported.
pub open spec fn stepped_as(expected: Result<Stepped, ModelError>, result: Result<(), ModelError>, s: CtlModel, out: Seq<CacheAction>) -> bool {
    match expected {
        Ok((s1, out1)) => result is Ok && s == s1 && out == out1,
        Err(e) => result == Err::<(), ModelError>(e),
    }
}

/// A cache: its contents and the requests it will retry.
pub struct CacheController {
    contents: CacheContents,
    retry: VecDeque<RetryRequest>,
}

impl View for CacheController {
    type V = CtlModel;

    closed spec fn view(&self) -> CtlModel {
        CtlModel { contents: self.contents@, retry: self.retry@ }
    }
}

impl CacheController {
    /// Whether the cache's contents are well formed.
    pub closed spec fn wf(&self) -> bool {
        self.contents.wf()
    }

    /// An empty cache of this configuration.
    pub fn new(config: CacheConfig) -> (cache: Self)
        requires
            config.line_size_bytes >= 1,
            config.num_sets >= 1,
            config.num_ways >= 1,
            config.num_sets * config.num_ways <= usize::MAX,
        ensures
            cache.wf(),
            cache@.retry.len() == 0,
            cache@.contents.line_size == config.line_size_bytes,
            cache@.contents.num_sets == config.num_sets,
            cache@.contents.num_ways == config.num_ways,
            cache@.contents.device_id == config.device_id,
            cache@.contents.line_waiters.len() == 0,
            cache@.contents.nonposted_completions.len() == 0,
            cache@.contents.noallocate_completions.len() == 0,
            cache@.contents.blocked.len() == 0,
            cache@.contents.active_barrier is None,
            forall|i: int| 0 <= i < cache@.contents.entries.len() ==> cache@.contents.entries[i].line_state == LineState::Invalid,
    {
        let cache = CacheController { contents: CacheContents::new(config), retry: VecDeque::new() };
        assert(cache@.retry =~= Seq::<RetryRequest>::empty());
        cache
    }

    /// The cache's contents.
    pub fn contents(&self) -> (contents: &CacheContents)
        ensures
            contents@ == self@.contents,
            self.wf() ==> contents.wf(),
    {
        &self.contents
    }

    /// Whether requests wait to be retried.
    pub fn has_retry_requests(&self) -> (any: bool)
        ensures
            any == (self@.retry.len() > 0),
    {
        self.retry.len() > 0
    }

    /// A request passed on with coherence operation `op`.
    fn rewrite_source(&self, m: CoherenceMessage, op: Option<CoherenceOp>) -> (result: Result<CoherenceMessage, ModelError>)
        requires
            self.wf(),
        ensures
            result == rewrite_source(self@.contents, m, op),
    {
        if self.contents.is_coherent() {
            let manager = match self.contents.coherency_manager_device_id_for_addr(m.dst_addr) {
                Ok(d) => d,
                Err(e) => return Err(e),
            };
            Ok(CoherenceMessage { dst_device: manager, src_device: self.contents.device_id(), coherence_op: op, ..m })
        } else {
            Ok(CoherenceMessage { coherence_op: op, ..m })
        }
    }

    /// A miss passed on, asking for the line in state `want`.
    fn prepare_miss_request(&self, m: CoherenceMessage, want: CoherenceState) -> (result: Result<CoherenceMessage, ModelError>)
        requires
            self.wf(),
        ensures
            result == miss_request(self@.contents, m, want),
    {
        match want {
            CoherenceState::Shared => self.rewrite_source(m, Some(CoherenceOp::SharedRead)),
            CoherenceState::Exclusive | CoherenceState::Modified => self.rewrite_source(m, Some(CoherenceOp::ExclusiveWrite)),
            CoherenceState::Invalid => Err(ModelError::InvalidCoherenceState),
        }
    }

    /// The write of the modified line at `addr` back to where it belongs.
    fn make_writeback(&self, request: CoherenceMessage, addr: u64) -> (result: Result<CoherenceMessage, ModelError>)
        requires
            self.wf(),
        ensures
            result == writeback_msg(self@.contents, request, addr),
    {
        let device = match self.contents.device_id_for_addr(addr) {
            Ok(d) => d,
            Err(e) => return Err(e),
        };
        Ok(CoherenceMessage {
            access_type: AccessKind::WriteRequest,
            dst_addr: addr,
            dst_device: device,
            src_device: self.contents.device_id(),
            coherence_op: None,
            ..request
        })
    }

    /// Allocate a line for `request` at `addr` under `T`, writing back and
    /// evicting a modified victim first.
    fn allocate_line<T: LineStateTransition>(&mut self, out: &mut Vec<CacheAction>, request: CoherenceMessage, addr: u64) -> (result:
        Result<AllocateResult, ModelError>)
        requires
            old(self).wf(),
        ensures
            match allocate_line::<T>(old(self)@.contents, old(out)@, request, addr) {
                Ok((c, o, r)) => result == Ok::<AllocateResult, ModelError>(r) && final(self)@ == with_contents(old(self)@, c)
                    && final(out)@ == o && final(self).wf(),
                Err(e) => result == Err::<AllocateResult, ModelError>(e),
            },
    {
        let result = self.contents.allocate::<T>(addr);
        let evicted = match result {
            AllocateResult::NeedsWriteback { evicted_modified_addr } => evicted_modified_addr,
            _ => return Ok(result),
        };
        let writeback = match self.make_writeback(request, evicted) {
            Ok(w) => w,
            Err(e) => return Err(e),
        };
        out.push(CacheAction::MemoryAck(writeback));
        if !self.contents.evict_modified(evicted) {
            return Err(ModelError::EvictionFailed { address: evicted });
        }
        let result = self.contents.allocate::<T>(addr);
        match result {
            AllocateResult::NeedsWriteback { .. } => Err(ModelError::StillNeedsWriteback { address: evicted }),
            _ => Ok(result),
        }
    }

    /// Queue the requests that waited on a line for a retry.
    fn retry_pending(&mut self, ws: &Vec<CoherenceMessage>)
        ensures
            final(self)@ == (CtlModel { retry: old(self)@.retry + pending_retries(ws@), ..old(self)@ }),
            final(self).wf() == old(self).wf(),
    {
        let ghost r0 = self.retry@;
        let mut i: usize = 0;
        while i < ws.len()
            invariant
                i <= ws@.len(),
                self@ == (CtlModel { retry: r0 + pending_retries(ws@.take(i as int)), ..old(self)@ }),
                self.wf() == old(self).wf(),
                r0 == old(self)@.retry,
            decreases ws@.len() - i,
        {
            self.retry.push_back(RetryRequest::Pending(ws[i]));
            proof {
                assert(pending_retries(ws@.take(i + 1)) =~= pending_retries(ws@.take(i as int)).push(RetryRequest::Pending(ws@[i as int])));
                assert(self@.retry =~= r0 + pending_retries(ws@.take(i + 1)));
            }
            i = i + 1;
        }
        assert(ws@.take(ws@.len() as int) =~= ws@);
    }

    /// Answer the barrier, end it, and retry the requests held behind it.
    fn complete_barrier(&mut self, out: &mut Vec<CacheAction>, barrier: CoherenceMessage) -> (result: Result<(), ModelError>)
        requires
            old(self).wf(),
        ensures
            stepped_as(complete_barrier(old(self)@, old(out)@, barrier), result, final(self)@, final(out)@),
            result is Ok ==> final(self).wf(),
    {
        let response = match response_to(barrier) {
            Ok(r) => r,
            Err(e) => return Err(e),
        };
        out.push(CacheAction::ToDevice(response));
        self.contents.clear_active_barrier();
        let ghost c1 = self.contents@;
        let ghost r0 = self.retry@;
        let ghost n = c1.blocked.len();
        let ghost mut k: int = 0;
        assert(c1.blocked.subrange(0, n as int) =~= c1.blocked);
        assert(r0 + device_retries(c1.blocked.subrange(0, 0)) =~= r0);
        loop
            invariant
                self.contents.wf(),
                n == c1.blocked.len(),
                0 <= k <= n,
                self.contents@ == (CacheContentsModel { blocked: c1.blocked.subrange(k, n as int), ..c1 }),
                self.retry@ == r0 + device_retries(c1.blocked.subrange(0, k)),
            ensures
                self.contents.wf(),
                self.contents@ == (CacheContentsModel { blocked: Seq::empty(), ..c1 }),
                self.retry@ == r0 + device_retries(c1.blocked),
            decreases n - k,
        {
            match self.contents.take_next_blocked_device_request() {
                None => {
                    proof {
                        assert(self.contents@.blocked.len() == n - k);
                        assert(k == n);
                        assert(c1.blocked.subrange(0, k) =~= c1.blocked);
                        assert(c1.blocked.subrange(k, n as int) =~= Seq::<CoherenceMessage>::empty());
                    }
                    break;
                },
                Some(request) => {
                    self.retry.push_back(RetryRequest::Device(request));
                    proof {
                        assert(k < n);
                        assert(request == c1.blocked[k]);
                        assert(c1.blocked.subrange(k, n as int).drop_first() =~= c1.blocked.subrange(k + 1, n as int));
                        assert(c1.blocked.subrange(0, k + 1) =~= c1.blocked.subrange(0, k).push(request));
                        assert(device_retries(c1.blocked.subrange(0, k + 1)) =~= device_retries(c1.blocked.subrange(0, k)).push(
                            RetryRequest::Device(request),
                        ));
                        k = k + 1;
                    }
                },
            }
        }
        Ok(())
    }

    /// Move the barrier on once nothing is outstanding or waiting.
    fn try_advance_barrier(&mut self, out: &mut Vec<CacheAction>) -> (result: Result<(), ModelError>)
        requires
            old(self).wf(),
        ensures
            stepped_as(try_advance_barrier(old(self)@, old(out)@), result, final(self)@, final(out)@),
            result is Ok ==> final(self).wf(),
    {
        let barrier = match self.contents.active_barrier() {
            None => return Ok(()),
            Some(b) => b,
        };
        if self.contents.has_outstanding_work() || self.retry.len() > 0 || self.contents.barrier_forwarded() {
            return Ok(());
        }
        if self.contents.is_coherent() {
            let forwarded = match self.rewrite_source(barrier, None) {
                Ok(f) => f,
                Err(e) => return Err(e),
            };
            self.contents.mark_barrier_forwarded();
            out.push(CacheAction::ToMemory(forwarded));
            return Ok(());
        }
        self.complete_barrier(out, barrier)
    }

    /// Retry what waited on the line of `line_access`, then move the
    /// barrier on.
    fn process_waiters(&mut self, out: &mut Vec<CacheAction>, line_access: CoherenceMessage) -> (result: Result<(), ModelError>)
        requires
            old(self).wf(),
        ensures
            stepped_as(process_waiters(old(self)@, old(out)@, line_access), result, final(self)@, final(out)@),
            result is Ok ==> final(self).wf(),
    {
        match self.contents.take_pending_line_waiters(&line_access) {
            Some(ws) => self.retry_pending(&ws),
            None => {
                assert(pending_retries(Seq::<CoherenceMessage>::empty()) =~= Seq::<RetryRequest>::empty());
                assert(self@.retry =~= old(self)@.retry + pending_retries(Seq::<CoherenceMessage>::empty()));
            },
        }
        let (tag, _) = self.contents.tag_and_set_index_for_addr(line_access.dst_addr);
        let ghost r1 = self@.retry;
        match self.contents.take_pending_line_waiters_for_index_except_tag(line_access.dst_addr, tag) {
            Some(ws) => self.retry_pending(&ws),
            None => {
                assert(self@.retry =~= r1 + pending_retries(Seq::<CoherenceMessage>::empty()));
            },
        }
        self.try_advance_barrier(out)
    }

    /// Drop the line of an invalidate, writing it back first when modified;
    /// gives the ack.
    fn invalidate_and_ack(&mut self, out: &mut Vec<CacheAction>, access: CoherenceMessage) -> (result: Result<
        CoherenceMessage,
        ModelError,
    >)
        requires
            old(self).wf(),
        ensures
            match invalidate_and_ack(old(self)@, old(out)@, access) {
                Ok((s, o, ack)) => result == Ok::<CoherenceMessage, ModelError>(ack) && final(self)@ == s && final(out)@ == o
                    && final(self).wf(),
                Err(e) => result == Err::<CoherenceMessage, ModelError>(e),
            },
    {
        let addr = access.dst_addr;
        if self.contents.is_modified(addr) {
            let writeback = match self.make_writeback(access, addr) {
                Ok(w) => w,
                Err(e) => return Err(e),
            };
            out.push(CacheAction::MemoryAck(writeback));
        }
        let device = self.contents.device_id();
        self.contents.invalidate(addr);
        out.push(CacheAction::Record(CacheEvent::SentOp { op: Some(CoherenceOp::InvalidateAck) }));
        Ok(CoherenceMessage { dst_device: access.src_device, src_device: device, coherence_op: Some(CoherenceOp::InvalidateAck), ..access })
    }
}

} // verus!

verus! {

/// Answer each non-posted write of `ws`, in order.
fn respond_to_writes(out: &mut Vec<CacheAction>, ws: &Vec<CoherenceMessage>) -> (result: Result<(), ModelError>)
    ensures
        match answer_writes(old(out)@, ws@) {
            Ok(o) => result is Ok && final(out)@ == o,
            Err(e) => result == Err::<(), ModelError>(e),
        },
{
    let ghost expected = answer_writes(out@, ws@);
    let mut i: usize = 0;
    assert(ws@.subrange(0, ws@.len() as int) =~= ws@);
    while i < ws.len()
        invariant
            i <= ws@.len(),
            expected == answer_writes(old(out)@, ws@),
            expected == answer_writes(out@, ws@.subrange(i as int, ws@.len() as int)),
        decreases ws@.len() - i,
    {
        let request = ws[i];
        proof {
            assert(ws@.subrange(i as int, ws@.len() as int).drop_first() =~= ws@.subrange(i + 1, ws@.len() as int));
            assert(ws@.subrange(i as int, ws@.len() as int)[0] == request);
        }
        if request.access_type == AccessKind::WriteNonPostedRequest {
            let response = match response_to(request) {
                Ok(r) => r,
                Err(e) => return Err(e),
            };
            out.push(CacheAction::Record(CacheEvent::CompletedWrite { access_type: request.access_type, bytes: request.access_size_bytes }));
            out.push(CacheAction::ToDevice(response));
        }
        i = i + 1;
    }
    Ok(())
}

impl CacheController {
    /// Complete the request that bypassed allocation and that `access`
    /// answers, if any; says whether there was one.
    fn complete_noallocate(&mut self, out: &mut Vec<CacheAction>, access: CoherenceMessage) -> (result: Result<bool, ModelError>)
        requires
            old(self).wf(),
        ensures
            match complete_noallocate(old(self)@, old(out)@, access) {
                Ok((s, o, done)) => result == Ok::<bool, ModelError>(done) && final(self)@ == s && final(out)@ == o
                    && final(self).wf(),
                Err(e) => result == Err::<bool, ModelError>(e),
            },
    {
        let request = match self.contents.take_pending_noallocate_completion(&access) {
            None => return Ok(false),
            Some(r) => r,
        };
        let response = match response_to(request) {
            Ok(r) => r,
            Err(e) => return Err(e),
        };
        out.push(CacheAction::Record(CacheEvent::CompletedWrite { access_type: request.access_type, bytes: request.access_size_bytes }));
        out.push(CacheAction::ToDevice(response));
        Ok(true)
    }

    /// Answer the non-posted writes that waited for the grant of a line.
    fn complete_nonposted(&mut self, out: &mut Vec<CacheAction>, access: CoherenceMessage) -> (result: Result<(), ModelError>)
        requires
            old(self).wf(),
        ensures
            stepped_as(complete_nonposted(old(self)@, old(out)@, access), result, final(self)@, final(out)@),
            result is Ok ==> final(self).wf(),
    {
        match self.contents.take_pending_nonposted_completions(&access) {
            Some(ws) => respond_to_writes(out, &ws),
            None => Ok(()),
        }
    }

    /// An exclusive grant for the line of `access`.
    fn apply_grant(&mut self, out: &mut Vec<CacheAction>, access: CoherenceMessage, respond: bool) -> (result: Result<(), ModelError>)
        requires
            old(self).wf(),
        ensures
            stepped_as(apply_grant(old(self)@, old(out)@, access, respond), result, final(self)@, final(out)@),
            result is Ok ==> final(self).wf(),
    {
        let modified = self.contents.has_pending_write_for_addr(access.dst_addr);
        self.contents.grant_exclusive(access.dst_addr, modified);
        if respond {
            self.complete_nonposted(out, access)
        } else {
            Ok(())
        }
    }

    /// A write that hits.
    fn complete_local_write(&mut self, out: &mut Vec<CacheAction>, request: CoherenceMessage) -> (result: Result<(), ModelError>)
        requires
            old(self).wf(),
        ensures
            stepped_as(complete_local_write(old(self)@, old(out)@, request), result, final(self)@, final(out)@),
            result is Ok ==> final(self).wf(),
    {
        self.contents.transition::<LocalWriteModified>(request.dst_addr);
        out.push(CacheAction::Record(CacheEvent::CompletedWrite { access_type: request.access_type, bytes: request.access_size_bytes }));
        if request.access_type == AccessKind::WriteNonPostedRequest {
            let response = match response_to(request) {
                Ok(r) => r,
                Err(e) => return Err(e),
            };
            out.push(CacheAction::ToDevice(response));
        }
        Ok(())
    }

    /// Count the coherence operation of a message and send it towards
    /// memory.
    fn send_to_memory(out: &mut Vec<CacheAction>, m: CoherenceMessage)
        ensures
            final(out)@ == send_to_memory(old(out)@, m),
    {
        out.push(CacheAction::Record(CacheEvent::SentOp { op: m.coherence_op }));
        out.push(CacheAction::ToMemory(m));
    }

    /// Count a statistic when `count`.
    fn record_if(out: &mut Vec<CacheAction>, count: bool, e: CacheEvent)
        ensures
            final(out)@ == record_if(old(out)@, count, e),
    {
        if count {
            out.push(CacheAction::Record(e));
        }
    }

    /// A read from the device.
    fn read_request(&mut self, out: &mut Vec<CacheAction>, request: CoherenceMessage, count: bool) -> (result: Result<(), ModelError>)
        requires
            old(self).wf(),
        ensures
            stepped_as(read_request(old(self)@, old(out)@, request, count), result, final(self)@, final(out)@),
            result is Ok ==> final(self).wf(),
    {
        let addr = request.dst_addr;
        Self::record_if(out, count, CacheEvent::PayloadRead { bytes: request.access_size_bytes });
        proof {
            lemma_state_of_held(self@.contents, addr);
        }
        match self.contents.state_for(addr) {
            Some(state) => {
                if state.can_read_hit() {
                    let response = match response_to(request) {
                        Ok(r) => r,
                        Err(e) => return Err(e),
                    };
                    Self::record_if(out, count, CacheEvent::ReadHit);
                    out.push(CacheAction::ToDevice(response));
                } else {
                    Self::record_if(out, count, CacheEvent::ReadPendingHit);
                    self.contents.add_pending_line_waiter(request);
                }
                Ok(())
            },
            None => {
                Self::record_if(out, count, CacheEvent::ReadMiss);
                let forwarded = match self.prepare_miss_request(request, CoherenceState::Shared) {
                    Ok(f) => f,
                    Err(e) => return Err(e),
                };
                if request.cache_hint != CacheHintType::Allocate {
                    self.contents.add_pending_noallocate_completion(request);
                    Self::send_to_memory(out, forwarded);
                    return Ok(());
                }
                let allocated = match self.allocate_line::<AllocateShared>(out, request, addr) {
                    Ok(r) => r,
                    Err(e) => return Err(e),
                };
                self.contents.add_pending_line_waiter(request);
                if allocated.is_allocated() {
                    Self::send_to_memory(out, forwarded);
                }
                Ok(())
            },
        }
    }

    /// A write from the device.
    fn write_request(&mut self, out: &mut Vec<CacheAction>, request: CoherenceMessage, count: bool) -> (result: Result<(), ModelError>)
        requires
            old(self).wf(),
        ensures
            stepped_as(write_request(old(self)@, old(out)@, request, count), result, final(self)@, final(out)@),
            result is Ok ==> final(self).wf(),
    {
        let addr = request.dst_addr;
        let state = self.contents.state_for(addr);
        let (hit, pending) = match state {
            Some(s) => (s.can_write_hit(), s.is_allocated()),
            None => (false, false),
        };
        if hit {
            Self::record_if(out, count, CacheEvent::WriteHit);
            return self.complete_local_write(out, request);
        }
        if pending {
            Self::record_if(out, count, CacheEvent::WritePendingHit);
            self.contents.add_pending_line_waiter(request);
            return Ok(());
        }
        Self::record_if(out, count, CacheEvent::WriteMiss);
        let forwarded = match self.prepare_miss_request(request, CoherenceState::Exclusive) {
            Ok(f) => f,
            Err(e) => return Err(e),
        };
        let non_posted = request.access_type == AccessKind::WriteNonPostedRequest;
        if request.cache_hint != CacheHintType::Allocate {
            self.contents.invalidate(addr);
            if non_posted {
                self.contents.add_pending_noallocate_completion(request);
            } else {
                out.push(CacheAction::Record(CacheEvent::CompletedWrite { access_type: request.access_type, bytes: request.access_size_bytes }));
            }
            Self::send_to_memory(out, forwarded);
            return Ok(());
        }
        let allocated = match self.allocate_line::<AllocateExclusive>(out, request, addr) {
            Ok(r) => r,
            Err(e) => return Err(e),
        };
        if !allocated.is_allocated() {
            self.contents.add_pending_line_waiter(request);
            return Ok(());
        }
        if self.contents.is_coherent() {
            self.contents.add_pending_exclusive_write(request);
        } else {
            self.contents.grant_exclusive(addr, true);
            if non_posted {
                self.contents.add_pending_nonposted_completion(request);
            } else {
                out.push(CacheAction::Record(CacheEvent::CompletedWrite { access_type: request.access_type, bytes: request.access_size_bytes }));
            }
        }
        Self::send_to_memory(out, forwarded);
        Ok(())
    }

    /// A barrier from the device.
    fn barrier_request(&mut self, out: &mut Vec<CacheAction>, request: CoherenceMessage) -> (result: Result<(), ModelError>)
        requires
            old(self).wf(),
        ensures
            stepped_as(barrier_request(old(self)@, old(out)@, request), result, final(self)@, final(out)@),
            result is Ok ==> final(self).wf(),
    {
        if self.contents.has_active_barrier() {
            self.contents.queue_blocked_device_request(request);
            return Ok(());
        }
        self.contents.set_active_barrier(request);
        self.try_advance_barrier(out)
    }

    /// A control access from the device.
    fn control_request(&mut self, out: &mut Vec<CacheAction>, request: CoherenceMessage) -> (result: Result<(), ModelError>)
        requires
            old(self).wf(),
        ensures
            stepped_as(control_request(old(self)@, old(out)@, request), result, final(self)@, final(out)@),
            result is Ok ==> final(self).wf(),
    {
        if request.coherence_op != Some(CoherenceOp::Invalidate) {
            return Err(ModelError::UnsupportedDeviceControl);
        }
        let ack = match self.invalidate_and_ack(out, request) {
            Ok(a) => a,
            Err(e) => return Err(e),
        };
        out.push(CacheAction::ToDevice(ack));
        self.process_waiters(out, request)
    }

    /// A request from the device, new (`count`) or retried after waiting on
    /// a line.
    fn handle_request(&mut self, out: &mut Vec<CacheAction>, request: CoherenceMessage, count: bool) -> (result: Result<(), ModelError>)
        requires
            old(self).wf(),
        ensures
            stepped_as(handle_request(old(self)@, old(out)@, request, count), result, final(self)@, final(out)@),
            result is Ok ==> final(self).wf(),
    {
        if count && self.contents.has_active_barrier() {
            self.contents.queue_blocked_device_request(request);
            return Ok(());
        }
        match request.access_type {
            AccessKind::Control => self.control_request(out, request),
            AccessKind::ReadRequest => self.read_request(out, request, count),
            AccessKind::BarrierRequest => self.barrier_request(out, request),
            AccessKind::WriteRequest | AccessKind::WriteNonPostedRequest => self.write_request(out, request, count),
            _ => Err(ModelError::UnsupportedDeviceAccess),
        }
    }

    /// Handle a new request from the device; gives the actions to take, in
    /// order.
    pub fn handle_device_request(&mut self, request: CoherenceMessage) -> (result: Result<Vec<CacheAction>, ModelError>)
        requires
            old(self).wf(),
        ensures
            match device_request(old(self)@, request) {
                Ok((s, o)) => (result matches Ok(actions) && actions@ == o) && final(self)@ == s && final(self).wf(),
                Err(e) => result == Err::<Vec<CacheAction>, ModelError>(e),
            },
    {
        let mut out: Vec<CacheAction> = Vec::new();
        out.push(CacheAction::Record(CacheEvent::ReceivedOp { op: request.coherence_op }));
        assert(out@ =~= seq![CacheAction::Record(CacheEvent::ReceivedOp { op: request.coherence_op })]);
        match self.handle_request(&mut out, request, true) {
            Ok(()) => Ok(out),
            Err(e) => Err(e),
        }
    }

    /// Retry the oldest request waiting to be retried, then move the barrier
    /// on; gives the actions to take, in order.
    pub fn handle_next_retry(&mut self) -> (result: Result<Vec<CacheAction>, ModelError>)
        requires
            old(self).wf(),
        ensures
            match retry_step(old(self)@) {
                Ok((s, o)) => (result matches Ok(actions) && actions@ == o) && final(self)@ == s && final(self).wf(),
                Err(e) => result == Err::<Vec<CacheAction>, ModelError>(e),
            },
    {
        let mut out: Vec<CacheAction> = Vec::new();
        assert(out@ =~= Seq::<CacheAction>::empty());
        let retry = match self.retry.pop_front() {
            None => return Ok(out),
            Some(r) => r,
        };
        proof {
            assert(self.retry@ =~= old(self)@.retry.drop_first());
        }
        let handled = match retry {
            RetryRequest::Device(request) => if self.contents.has_active_barrier() {
                self.contents.queue_blocked_device_request(request);
                Ok(())
            } else {
                self.handle_request(&mut out, request, true)
            },
            RetryRequest::Pending(request) => self.handle_request(&mut out, request, false),
        };
        match handled {
            Ok(()) => {},
            Err(e) => return Err(e),
        }
        match self.try_advance_barrier(&mut out) {
            Ok(()) => Ok(out),
            Err(e) => Err(e),
        }
    }

    /// Handle a message from the memory side; gives the actions to take, in
    /// order.
    pub fn handle_memory_response(&mut self, access: CoherenceMessage) -> (result: Result<Vec<CacheAction>, ModelError>)
        requires
            old(self).wf(),
        ensures
            match memory_response(old(self)@, access) {
                Ok((s, o)) => (result matches Ok(actions) && actions@ == o) && final(self)@ == s && final(self).wf(),
                Err(e) => result == Err::<Vec<CacheAction>, ModelError>(e),
            },
    {
        let mut out: Vec<CacheAction> = Vec::new();
        out.push(CacheAction::Record(CacheEvent::ReceivedOp { op: access.coherence_op }));
        assert(out@ =~= seq![CacheAction::Record(CacheEvent::ReceivedOp { op: access.coherence_op })]);
        let handled = match access.access_type {
            AccessKind::Control => self.control_response(&mut out, access),
            AccessKind::BarrierResponse => match self.contents.active_barrier() {
                None => Err(ModelError::BarrierResponseWithoutBarrier),
                Some(barrier) => self.complete_barrier(&mut out, barrier),
            },
            AccessKind::WriteNonPostedResponse => self.write_nonposted_response(&mut out, access),
            AccessKind::ReadResponse => self.read_response(&mut out, access),
            _ => Err(ModelError::UnsupportedResponseAccess),
        };
        match handled {
            Ok(()) => Ok(out),
            Err(e) => Err(e),
        }
    }

    /// A control access from the memory side.
    fn control_response(&mut self, out: &mut Vec<CacheAction>, access: CoherenceMessage) -> (result: Result<(), ModelError>)
        requires
            old(self).wf(),
        ensures
            stepped_as(control_response(old(self)@, old(out)@, access), result, final(self)@, final(out)@),
            result is Ok ==> final(self).wf(),
    {
        if access.coherence_op == Some(CoherenceOp::Invalidate) {
            let ack = match self.invalidate_and_ack(out, access) {
                Ok(a) => a,
                Err(e) => return Err(e),
            };
            out.push(CacheAction::MemoryAck(ack));
            return self.process_waiters(out, access);
        }
        if access.coherence_op != Some(CoherenceOp::GrantExclusive) {
            return Err(ModelError::UnsupportedMemoryControl);
        }
        let done = match self.complete_noallocate(out, access) {
            Ok(d) => d,
            Err(e) => return Err(e),
        };
        if !done {
            match self.apply_grant(out, access, true) {
                Ok(()) => {},
                Err(e) => return Err(e),
            }
        }
        self.process_waiters(out, access)
    }

    /// The answer to a non-posted write.
    fn write_nonposted_response(&mut self, out: &mut Vec<CacheAction>, access: CoherenceMessage) -> (result: Result<(), ModelError>)
        requires
            old(self).wf(),
        ensures
            stepped_as(write_nonposted_response(old(self)@, old(out)@, access), result, final(self)@, final(out)@),
            result is Ok ==> final(self).wf(),
    {
        let done = match self.complete_noallocate(out, access) {
            Ok(d) => d,
            Err(e) => return Err(e),
        };
        if !done {
            let handled = if access.coherence_op == Some(CoherenceOp::GrantExclusive) {
                self.apply_grant(out, access, true)
            } else if !self.contents.is_coherent() {
                self.complete_nonposted(out, access)
            } else {
                self.contents.invalidate(access.dst_addr);
                out.push(CacheAction::ToDevice(access));
                Ok(())
            };
            match handled {
                Ok(()) => {},
                Err(e) => return Err(e),
            }
        }
        self.process_waiters(out, access)
    }

    /// The answer to a read.
    fn read_response(&mut self, out: &mut Vec<CacheAction>, access: CoherenceMessage) -> (result: Result<(), ModelError>)
        requires
            old(self).wf(),
        ensures
            stepped_as(read_response(old(self)@, old(out)@, access), result, final(self)@, final(out)@),
            result is Ok ==> final(self).wf(),
    {
        let done = match self.complete_noallocate(out, access) {
            Ok(d) => d,
            Err(e) => return Err(e),
        };
        if !done {
            if access.coherence_op == Some(CoherenceOp::GrantExclusive) {
                match self.apply_grant(out, access, false) {
                    Ok(()) => {},
                    Err(e) => return Err(e),
                }
            } else {
                self.contents.transition::<GrantShared>(access.dst_addr);
            }
        }
        self.process_waiters(out, access)
    }
}

/// While a barrier is active, a new request from the device sends nothing:
/// it only counts the coherence operation received, and waits behind the
/// requests already blocked.
pub proof fn lemma_barrier_blocks_device_requests(s: CtlModel, request: CoherenceMessage)
    requires
        s.contents.active_barrier is Some,
    ensures
        device_request(s, request) == Ok::<Stepped, ModelError>(
            (add_blocked(s, request), seq![CacheAction::Record(CacheEvent::ReceivedOp { op: request.coherence_op })]),
        ),
{
}

/// A read that hits a readable line leaves the cache as it was and is
/// answered at once, after its bytes and the hit are counted.
pub proof fn lemma_read_hit_answers_at_once(s: CtlModel, request: CoherenceMessage)
    requires
        s.contents.active_barrier is None,
        request.access_type == AccessKind::ReadRequest,
        state_of(s.contents, request.dst_addr) matches Some(st) && read_hit(st),
    ensures
        response_of(request) is Ok,
        device_request(s, request) == Ok::<Stepped, ModelError>(
            (
                s,
                seq![
                    CacheAction::Record(CacheEvent::ReceivedOp { op: request.coherence_op }),
                    CacheAction::Record(CacheEvent::PayloadRead { bytes: request.access_size_bytes }),
                    CacheAction::Record(CacheEvent::ReadHit),
                    CacheAction::ToDevice(response_of(request)->Ok_0),
                ],
            ),
        ),
{
    let first = seq![CacheAction::Record(CacheEvent::ReceivedOp { op: request.coherence_op })];
    let r = response_of(request)->Ok_0;
    assert(record_if(record_if(first, true, CacheEvent::PayloadRead { bytes: request.access_size_bytes }), true, CacheEvent::ReadHit).push(
        CacheAction::ToDevice(r),
    ) =~= seq![
        CacheAction::Record(CacheEvent::ReceivedOp { op: request.coherence_op }),
        CacheAction::Record(CacheEvent::PayloadRead { bytes: request.access_size_bytes }),
        CacheAction::Record(CacheEvent::ReadHit),
        CacheAction::ToDevice(r),
    ]);
}

/// A device write that does not allocate and finds no line it may write,
/// once passed on to memory, leaves the cache holding no line for the
/// address, so the next read of it misses instead of answering from a
/// stale copy. This holds in a cache where each line has at most one way and
/// no empty way of the line's set carries its tag.
pub proof fn lemma_noallocate_write_drops_line(ctl: &CacheController, out: Seq<CacheAction>, request: CoherenceMessage, count: bool)
    requires
        ctl.wf(),
        lines_unique(ctl@.contents),
        no_stale_tag(ctl@.contents, request.dst_addr),
        !should_allocate(request),
        !(state_of(ctl@.contents, request.dst_addr) matches Some(x) && (write_hit(x) || allocated(x))),
    ensures
        write_request(ctl@, out, request, count) matches Ok((s1, out1)) ==> {
            &&& state_of(s1.contents, request.dst_addr) is None
            &&& out1.last() matches CacheAction::ToMemory(m) && m.dst_addr == request.dst_addr
        },
{
    let c = ctl@.contents;
    let addr = request.dst_addr;
    lemma_invalidate_then_absent(&ctl.contents, addr);
    let c1 = after_invalidate(c, addr);
    let n = add_noallocate(c1, request);
    assert forall|v: nat| v < c1.num_ways implies #[trigger] entry_at(n, line_set(c1, addr) as nat, v) == entry_at(
        c1,
        line_set(c1, addr) as nat,
        v,
    ) by {}
    lemma_first_holding_same(n, c1, line_set(c1, addr) as nat, line_tag(c1, addr), c1.num_ways);
    assert(line_set(n, addr) == line_set(c1, addr) && line_tag(n, addr) == line_tag(c1, addr));
    assert(line_set(c1, addr) == line_set(c, addr) && line_tag(c1, addr) == line_tag(c, addr));
    assert(state_of(n, addr) == state_of(c1, addr));
}

} // verus!
