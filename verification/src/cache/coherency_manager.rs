//! A directory-based coherence manager for an invalidate protocol.
//!
//! The manager keeps, for each line, the caches that share it, the cache
//! that owns it and the request it is serving. Read misses ask for shared
//! access and write misses for exclusive access; caches holding an old copy
//! are sent invalidates and answer with acks; backing memory stays the
//! source of data for reads. A request for a line that is busy waits behind
//! it, and every request waits behind an active barrier.
//!
//! Handling one message is a function from the directory and the message to
//! the new directory and the messages to send, in order.
use std::collections::VecDeque;

use vstd::prelude::*;

use crate::cache::contents::AccessKind;
use crate::error::ModelError;
use crate::memory::CacheHintType;
use crate::memory::memory_map::{DeviceId, MemoryMap, MemoryRegion, lookup_result};

verus! {

/// The state of a line in a coherent cache.
#[derive(Clone, Copy, Debug, PartialEq, Eq, Structural)]
pub enum CoherenceState {
    Invalid,
    Shared,
    Exclusive,
    Modified,
}

/// A coherence operation carried by a message.
#[derive(Clone, Copy, Debug, PartialEq, Eq, Structural)]
pub enum CoherenceOp {
    SharedRead,
    ExclusiveWrite,
    Invalidate,
    InvalidateAck,
    GrantShared,
    GrantExclusive,
}

/// A message to or from the manager, with what the manager reads and what
/// it passes on.
#[derive(Clone, Copy, Debug, PartialEq, Eq, Structural)]
pub struct CoherenceMessage {
    pub id: u64,
    pub access_type: AccessKind,
    pub access_size_bytes: usize,
    pub dst_addr: u64,
    pub src_addr: u64,
    pub dst_device: DeviceId,
    pub src_device: DeviceId,
    pub cache_hint: CacheHintType,
    pub coherence_op: Option<CoherenceOp>,
    pub overhead_size_bytes: usize,
}

/// The line size of a manager, its own device and the memory behind it.
pub struct CoherencyManagerConfig {
    line_size_bytes: usize,
    device_id: DeviceId,
    backing_memory_map: MemoryMap,
}

impl CoherencyManagerConfig {
    /// A manager configuration.
    pub fn new(line_size_bytes: usize, device_id: DeviceId, backing_memory_map: MemoryMap) -> (config: Self)
        ensures
            config.line_size_bytes() == line_size_bytes,
            config.device_id() == device_id,
            config.backing_regions() == backing_memory_map@,
    {
        CoherencyManagerConfig { line_size_bytes, device_id, backing_memory_map }
    }

    /// The size of a line.
    pub closed spec fn line_size_bytes(&self) -> usize {
        self.line_size_bytes
    }

    /// The manager's own device.
    pub closed spec fn device_id(&self) -> DeviceId {
        self.device_id
    }

    /// The regions of the backing memory.
    pub closed spec fn backing_regions(&self) -> Seq<MemoryRegion> {
        self.backing_memory_map@
    }
}

/// How many coherence operations of each kind were seen.
#[derive(Clone, Copy, Debug, Default, PartialEq, Eq, Structural)]
pub struct CoherenceOpMetrics {
    pub shared_read: usize,
    pub exclusive_write: usize,
    pub invalidate: usize,
    pub invalidate_ack: usize,
    pub grant_shared: usize,
    pub grant_exclusive: usize,
}

/// The count of one kind of operation.
pub open spec fn op_count_of(m: CoherenceOpMetrics, op: CoherenceOp) -> usize {
    match op {
        CoherenceOp::SharedRead => m.shared_read,
        CoherenceOp::ExclusiveWrite => m.exclusive_write,
        CoherenceOp::Invalidate => m.invalidate,
        CoherenceOp::InvalidateAck => m.invalidate_ack,
        CoherenceOp::GrantShared => m.grant_shared,
        CoherenceOp::GrantExclusive => m.grant_exclusive,
    }
}

/// The counts with one more operation of kind `op`.
pub open spec fn with_op(m: CoherenceOpMetrics, op: CoherenceOp) -> CoherenceOpMetrics {
    match op {
        CoherenceOp::SharedRead => CoherenceOpMetrics { shared_read: (m.shared_read + 1) as usize, ..m },
        CoherenceOp::ExclusiveWrite => CoherenceOpMetrics { exclusive_write: (m.exclusive_write + 1) as usize, ..m },
        CoherenceOp::Invalidate => CoherenceOpMetrics { invalidate: (m.invalidate + 1) as usize, ..m },
        CoherenceOp::InvalidateAck => CoherenceOpMetrics { invalidate_ack: (m.invalidate_ack + 1) as usize, ..m },
        CoherenceOp::GrantShared => CoherenceOpMetrics { grant_shared: (m.grant_shared + 1) as usize, ..m },
        CoherenceOp::GrantExclusive => CoherenceOpMetrics { grant_exclusive: (m.grant_exclusive + 1) as usize, ..m },
    }
}

/// Recording an operation adds one to its kind's count and leaves the other
/// kinds alone.
pub proof fn lemma_record_counts(m: CoherenceOpMetrics, op: CoherenceOp, other: CoherenceOp)
    requires
        op_count_of(m, op) < usize::MAX,
    ensures
        op_count_of(with_op(m, op), op) == op_count_of(m, op) + 1,
        other != op ==> op_count_of(with_op(m, op), other) == op_count_of(m, other),
        total_of(with_op(m, op)) == total_of(m) + 1,
{
}

/// The count of every kind of operation together.
pub open spec fn total_of(m: CoherenceOpMetrics) -> int {
    m.shared_read + m.exclusive_write + m.invalidate + m.invalidate_ack + m.grant_shared + m.grant_exclusive
}

impl CoherenceOpMetrics {
    /// The number of operations seen.
    pub fn total(&self) -> (n: usize)
        requires
            total_of(*self) <= usize::MAX,
        ensures
            n == total_of(*self),
    {
        self.shared_read + self.exclusive_write + self.invalidate + self.invalidate_ack + self.grant_shared
            + self.grant_exclusive
    }

    /// Count one more operation of kind `op`.
    pub fn record(&mut self, op: CoherenceOp)
        requires
            op_count_of(*old(self), op) < usize::MAX,
        ensures
            *final(self) == with_op(*old(self), op),
    {
        match op {
            CoherenceOp::SharedRead => self.shared_read = self.shared_read + 1,
            CoherenceOp::ExclusiveWrite => self.exclusive_write = self.exclusive_write + 1,
            CoherenceOp::Invalidate => self.invalidate = self.invalidate + 1,
            CoherenceOp::InvalidateAck => self.invalidate_ack = self.invalidate_ack + 1,
            CoherenceOp::GrantShared => self.grant_shared = self.grant_shared + 1,
            CoherenceOp::GrantExclusive => self.grant_exclusive = self.grant_exclusive + 1,
        }
    }

    /// The number of operations of kind `op` seen.
    pub fn op_count(&self, op: CoherenceOp) -> (n: usize)
        ensures
            n == op_count_of(*self, op),
    {
        match op {
            CoherenceOp::SharedRead => self.shared_read,
            CoherenceOp::ExclusiveWrite => self.exclusive_write,
            CoherenceOp::Invalidate => self.invalidate,
            CoherenceOp::InvalidateAck => self.invalidate_ack,
            CoherenceOp::GrantShared => self.grant_shared,
            CoherenceOp::GrantExclusive => self.grant_exclusive,
        }
    }
}

/// What a line waits for.
pub enum WaitModel {
    /// Acks from these devices, before serving the request.
    Invalidations { request: CoherenceMessage, waiting_for: Seq<DeviceId> },
    /// The memory's answer to a shared read.
    ReadResponse { request: CoherenceMessage },
}

/// What the directory knows of a line.
pub struct EntryModel {
    pub sharers: Seq<DeviceId>,
    pub owner: Option<DeviceId>,
    pub waiting: Option<WaitModel>,
}

/// The directory: its configuration, its lines, the requests waiting on
/// busy lines (each with its line, oldest first), the requests held behind
/// a barrier and the active barrier.
pub struct DirModel {
    pub line_size: nat,
    pub device_id: DeviceId,
    pub backing: Seq<MemoryRegion>,
    pub entries: Seq<(u64, EntryModel)>,
    pub queued: Seq<(u64, CoherenceMessage)>,
    pub blocked: Seq<CoherenceMessage>,
    pub barrier: Option<CoherenceMessage>,
}

/// What a handler gives: the directory afterwards, the messages sent so
/// far, and a line that may have become free.
pub type Handled = (DirModel, Seq<CoherenceMessage>, Option<u64>);

/// A message whose last byte is an address.
pub open spec fn msg_ok(m: CoherenceMessage) -> bool {
    m.access_size_bytes >= 1 && m.dst_addr + m.access_size_bytes - 1 <= u64::MAX
}

/// A line that nobody holds and nothing waits on.
pub open spec fn default_entry() -> EntryModel {
    EntryModel { sharers: Seq::empty(), owner: None, waiting: None }
}

/// The position of the first pair among the first `k` with this key.
pub open spec fn first_key<T>(s: Seq<(u64, T)>, key: u64, k: nat) -> Option<nat>
    decreases k,
{
    if k == 0 {
        None
    } else {
        match first_key(s, key, (k - 1) as nat) {
            Some(i) => Some(i),
            None => if s[k - 1].0 == key {
                Some((k - 1) as nat)
            } else {
                None
            },
        }
    }
}

/// What the directory knows of a line.
pub open spec fn entry_of(d: DirModel, line: u64) -> EntryModel {
    match first_key(d.entries, line, d.entries.len()) {
        Some(i) => d.entries[i as int].1,
        None => default_entry(),
    }
}

/// The directory with what it knows of a line replaced.
pub open spec fn with_entry(d: DirModel, line: u64, e: EntryModel) -> DirModel {
    match first_key(d.entries, line, d.entries.len()) {
        Some(i) => DirModel { entries: d.entries.update(i as int, (line, e)), ..d },
        None => DirModel { entries: d.entries.push((line, e)), ..d },
    }
}

/// The devices of `s` other than `x`, in order.
pub open spec fn seq_without(s: Seq<DeviceId>, x: DeviceId) -> Seq<DeviceId>
    decreases s.len(),
{
    if s.len() == 0 {
        s
    } else {
        let rest = seq_without(s.drop_last(), x);
        if s.last() == x {
            rest
        } else {
            rest.push(s.last())
        }
    }
}

/// The position of the first of the first `k` devices whose number is at
/// least `x`'s, or `k`.
pub open spec fn first_at_least(s: Seq<DeviceId>, x: DeviceId, k: nat) -> nat
    decreases k,
{
    if k == 0 {
        0
    } else if first_at_least(s, x, (k - 1) as nat) < k - 1 {
        first_at_least(s, x, (k - 1) as nat)
    } else if s[k - 1].0 >= x.0 {
        (k - 1) as nat
    } else {
        k
    }
}

/// The devices of `s` with `x` added in order of device number, where `s`
/// does not already hold it.
pub open spec fn seq_with(s: Seq<DeviceId>, x: DeviceId) -> Seq<DeviceId> {
    let i = first_at_least(s, x, s.len());
    if i < s.len() && s[i as int] == x {
        s
    } else {
        s.insert(i as int, x)
    }
}

/// The line that holds an address.
pub open spec fn line_of(d: DirModel, addr: u64) -> u64 {
    ((addr as nat / d.line_size) * d.line_size) as u64
}

/// The backing memory device of an access: both ends of the access must be
/// backed, by the same device.
pub open spec fn resolve(d: DirModel, addr: u64, size: usize) -> Result<DeviceId, ModelError> {
    let end = (addr + size - 1) as u64;
    match lookup_result(d.backing, addr) {
        None => Err(ModelError::NoBackingMemoryForAddress { address: addr }),
        Some((begin_device, _)) => match lookup_result(d.backing, end) {
            None => Err(ModelError::NoBackingMemoryForAddress { address: end }),
            Some((end_device, _)) => if begin_device != end_device {
                Err(ModelError::SpansMultipleBackingMemories { begin: addr, end })
            } else {
                Ok(begin_device)
            },
        },
    }
}

/// An invalidate of `access`'s line sent to `target`.
pub open spec fn invalidate_msg(access: CoherenceMessage, target: DeviceId, device: DeviceId) -> CoherenceMessage {
    CoherenceMessage {
        access_type: AccessKind::Control,
        dst_device: target,
        src_device: device,
        coherence_op: Some(CoherenceOp::Invalidate),
        ..access
    }
}

/// Invalidates of `access`'s line sent to each target, in order.
pub open spec fn invalidate_msgs(access: CoherenceMessage, targets: Seq<DeviceId>, device: DeviceId) -> Seq<CoherenceMessage> {
    targets.map_values(|t: DeviceId| invalidate_msg(access, t, device))
}

/// The grant of exclusive ownership to the requester of `access`.
pub open spec fn grant_exclusive_msg(access: CoherenceMessage, device: DeviceId) -> CoherenceMessage {
    CoherenceMessage {
        access_type: AccessKind::Control,
        dst_device: access.src_device,
        src_device: device,
        coherence_op: Some(CoherenceOp::GrantExclusive),
        ..access
    }
}

/// `access` passed on to the backing memory, from the manager.
pub open spec fn forward_msg(access: CoherenceMessage, memory: DeviceId, device: DeviceId) -> CoherenceMessage {
    CoherenceMessage { dst_device: memory, src_device: device, coherence_op: None, ..access }
}

/// The memory's `response` passed on to the requester of `request` as a
/// shared grant.
pub open spec fn grant_shared_msg(response: CoherenceMessage, request: CoherenceMessage, device: DeviceId) -> CoherenceMessage {
    CoherenceMessage {
        dst_device: request.src_device,
        src_device: device,
        coherence_op: Some(CoherenceOp::GrantShared),
        ..response
    }
}

/// The answer to a request, back to where it came from.
pub open spec fn response_of(m: CoherenceMessage) -> Result<CoherenceMessage, ModelError> {
    let kind = match m.access_type {
        AccessKind::Control => Some(AccessKind::Control),
        AccessKind::ReadRequest => Some(AccessKind::ReadResponse),
        AccessKind::WriteNonPostedRequest => Some(AccessKind::WriteNonPostedResponse),
        AccessKind::BarrierRequest => Some(AccessKind::BarrierResponse),
        _ => None,
    };
    match kind {
        Some(k) => Ok(CoherenceMessage { access_type: k, dst_device: m.src_device, src_device: m.dst_device, ..m }),
        None => Err(ModelError::UnsupportedResponse),
    }
}

/// An ack of an invalidate.
pub open spec fn is_ack(m: CoherenceMessage) -> bool {
    m.access_type == AccessKind::Control && m.coherence_op == Some(CoherenceOp::InvalidateAck)
}

/// A read from memory for `access`.
pub open spec fn issue_read(d: DirModel, out: Seq<CoherenceMessage>, access: CoherenceMessage) -> Result<Handled, ModelError> {
    match resolve(d, access.dst_addr, access.access_size_bytes) {
        Err(e) => Err(e),
        Ok(memory) => Ok((d, out.push(forward_msg(access, memory, d.device_id)), None)),
    }
}

/// Make the requester of `access` the line's only holder and tell it so;
/// the line is then free.
pub open spec fn grant_exclusive(d: DirModel, out: Seq<CoherenceMessage>, line: u64, access: CoherenceMessage) -> Result<Handled, ModelError> {
    let e = entry_of(d, line);
    Ok((
        with_entry(d, line, EntryModel { sharers: Seq::empty(), owner: Some(access.src_device), ..e }),
        out.push(grant_exclusive_msg(access, d.device_id)),
        Some(line),
    ))
}

/// A shared read: invalidate another owner first, else read from memory.
pub open spec fn shared_read(d: DirModel, out: Seq<CoherenceMessage>, line: u64, access: CoherenceMessage) -> Result<Handled, ModelError> {
    let e = entry_of(d, line);
    match e.owner {
        Some(o) if o != access.src_device => Ok((
            with_entry(
                d,
                line,
                EntryModel { waiting: Some(WaitModel::Invalidations { request: access, waiting_for: seq![o] }), ..e },
            ),
            out.push(invalidate_msg(access, o, d.device_id)),
            None,
        )),
        _ => issue_read(with_entry(d, line, EntryModel { waiting: Some(WaitModel::ReadResponse { request: access }), ..e }), out, access),
    }
}

/// The holders other than the requester that must drop the line before it
/// is granted exclusively, in order of device number.
pub open spec fn exclusive_targets(e: EntryModel, requester: DeviceId) -> Seq<DeviceId> {
    let others = seq_without(e.sharers, requester);
    match e.owner {
        Some(o) if o != requester => seq_with(others, o),
        _ => others,
    }
}

/// An exclusive write: invalidate the other holders first, else grant.
pub open spec fn exclusive_write(d: DirModel, out: Seq<CoherenceMessage>, line: u64, access: CoherenceMessage) -> Result<Handled, ModelError> {
    let e = entry_of(d, line);
    let targets = exclusive_targets(e, access.src_device);
    if targets.len() == 0 {
        grant_exclusive(d, out, line, access)
    } else {
        Ok((
            with_entry(
                d,
                line,
                EntryModel { waiting: Some(WaitModel::Invalidations { request: access, waiting_for: targets }), ..e },
            ),
            out + invalidate_msgs(access, targets, d.device_id),
            None,
        ))
    }
}

/// A write without a coherence operation: passed on to memory when it comes
/// from the line's owner, else served as an exclusive write.
pub open spec fn owner_write(d: DirModel, out: Seq<CoherenceMessage>, line: u64, access: CoherenceMessage) -> Result<Handled, ModelError> {
    if entry_of(d, line).owner == Some(access.src_device) {
        match resolve(d, access.dst_addr, access.access_size_bytes) {
            Err(e) => Err(e),
            Ok(memory) => Ok((d, out.push(forward_msg(access, memory, d.device_id)), None)),
        }
    } else {
        exclusive_write(d, out, line, CoherenceMessage { coherence_op: Some(CoherenceOp::ExclusiveWrite), ..access })
    }
}

/// A request of a cache for a free line.
pub open spec fn cache_request(d: DirModel, out: Seq<CoherenceMessage>, line: u64, access: CoherenceMessage) -> Result<Handled, ModelError> {
    let kind = access.access_type;
    let op = access.coherence_op;
    let write = kind == AccessKind::WriteRequest || kind == AccessKind::WriteNonPostedRequest;
    if kind == AccessKind::ReadRequest && (op == Some(CoherenceOp::SharedRead) || op is None) {
        shared_read(d, out, line, access)
    } else if write && op == Some(CoherenceOp::ExclusiveWrite) {
        exclusive_write(d, out, line, access)
    } else if write && op is None {
        owner_write(d, out, line, access)
    } else {
        Err(ModelError::UnsupportedCoherenceRequest)
    }
}

/// An ack: once the last awaited one is in, the request waiting on the line
/// is served.
pub open spec fn invalidate_ack(d: DirModel, out: Seq<CoherenceMessage>, line: u64, ack: CoherenceMessage) -> Result<Handled, ModelError> {
    let e = entry_of(d, line);
    let src = ack.src_device;
    match e.waiting {
        Some(WaitModel::Invalidations { request, waiting_for }) => {
            let rest = seq_without(waiting_for, src);
            if rest.len() == 0 {
                let e1 = EntryModel { sharers: seq_without(e.sharers, src), owner: None, waiting: None };
                let d1 = with_entry(d, line, e1);
                if request.access_type == AccessKind::ReadRequest && (request.coherence_op == Some(CoherenceOp::SharedRead)
                    || request.coherence_op is None) {
                    issue_read(
                        with_entry(d1, line, EntryModel { waiting: Some(WaitModel::ReadResponse { request }), ..e1 }),
                        out,
                        request,
                    )
                } else if request.coherence_op == Some(CoherenceOp::ExclusiveWrite) {
                    grant_exclusive(d1, out, line, request)
                } else {
                    Err(ModelError::UnsupportedPendingRequest)
                }
            } else {
                Ok((
                    with_entry(
                        d,
                        line,
                        EntryModel {
                            sharers: seq_without(e.sharers, src),
                            owner: if e.owner == Some(src) {
                                None
                            } else {
                                e.owner
                            },
                            waiting: Some(WaitModel::Invalidations { request, waiting_for: rest }),
                        },
                    ),
                    out,
                    None,
                ))
            }
        },
        _ => Err(ModelError::UnexpectedInvalidateAck { line }),
    }
}

/// Some line waits, or some request waits on a line.
pub open spec fn has_outstanding_work(d: DirModel) -> bool {
    d.queued.len() > 0 || exists|i: int| 0 <= i < d.entries.len() && (#[trigger] d.entries[i]).1.waiting is Some
}

/// Complete the active barrier once nothing is outstanding; says whether
/// it did.
pub open spec fn try_complete_barrier(d: DirModel, out: Seq<CoherenceMessage>) -> Result<(DirModel, Seq<CoherenceMessage>, bool), ModelError> {
    match d.barrier {
        None => Ok((d, out, false)),
        Some(b) => if has_outstanding_work(d) {
            Ok((d, out, false))
        } else {
            match response_of(b) {
                Err(e) => Err(e),
                Ok(r) => Ok((DirModel { barrier: None, ..d }, out.push(r), true)),
            }
        },
    }
}

/// A barrier: held behind an active one, else made active and completed
/// when nothing is outstanding.
pub open spec fn barrier_request(d: DirModel, out: Seq<CoherenceMessage>, access: CoherenceMessage) -> Result<Handled, ModelError> {
    if d.barrier is Some {
        Ok((DirModel { blocked: d.blocked.push(access), ..d }, out, None))
    } else {
        match try_complete_barrier(DirModel { barrier: Some(access), ..d }, out) {
            Err(e) => Err(e),
            Ok((d1, out1, _)) => Ok((d1, out1, None)),
        }
    }
}

/// A request on the manager's port that is not a memory response.
pub open spec fn rx_access(d: DirModel, out: Seq<CoherenceMessage>, access: CoherenceMessage) -> Result<Handled, ModelError> {
    if access.access_type == AccessKind::BarrierRequest {
        barrier_request(d, out, access)
    } else if !is_ack(access) && d.barrier is Some {
        Ok((DirModel { blocked: d.blocked.push(access), ..d }, out, None))
    } else {
        match resolve(d, access.dst_addr, access.access_size_bytes) {
            Err(e) => Err(e),
            Ok(_) => {
                let line = line_of(d, access.dst_addr);
                if is_ack(access) {
                    invalidate_ack(d, out, line, access)
                } else {
                    let e = entry_of(d, line);
                    let owner_writeback = (access.access_type == AccessKind::WriteRequest || access.access_type
                        == AccessKind::WriteNonPostedRequest) && access.coherence_op is None && (e.waiting matches Some(
                        WaitModel::Invalidations { .. },
                    )) && e.owner == Some(access.src_device);
                    if e.waiting is Some && !owner_writeback {
                        Ok((DirModel { queued: d.queued.push((line, access)), ..d }, out, None))
                    } else {
                        cache_request(d, out, line, access)
                    }
                }
            },
        }
    }
}

/// A memory response on the manager's port: the answer to the read the
/// line waits for.
pub open spec fn is_memory_response(d: DirModel, m: CoherenceMessage) -> bool {
    &&& (m.access_type == AccessKind::ReadResponse || m.access_type == AccessKind::WriteNonPostedResponse)
    &&& m.dst_device == d.device_id
    &&& resolve(d, m.dst_addr, m.access_size_bytes) matches Ok(memory) && m.src_device == memory
}

/// The memory's answer to a shared read: the requester becomes a sharer
/// and gets the data as its grant.
pub open spec fn mem_response(d: DirModel, out: Seq<CoherenceMessage>, response: CoherenceMessage) -> Result<Handled, ModelError> {
    let line = line_of(d, response.dst_addr);
    let e = entry_of(d, line);
    match e.waiting {
        Some(WaitModel::ReadResponse { request }) => Ok((
            with_entry(d, line, EntryModel { sharers: seq_with(e.sharers, request.src_device), owner: None, waiting: None }),
            out.push(grant_shared_msg(response, request, d.device_id)),
            Some(line),
        )),
        _ => Err(ModelError::UnexpectedMemoryResponse { line }),
    }
}

/// What is left to do: each held request counts twice, as it may wait
/// again on its line once released; each waiting request and an active
/// barrier count once.
pub open spec fn weight(d: DirModel) -> nat {
    2 * d.blocked.len() + d.queued.len() + if d.barrier is Some {
        1nat
    } else {
        0nat
    }
}

/// Serving a request changes only the lines.
pub proof fn lemma_cache_request_frame(d: DirModel, out: Seq<CoherenceMessage>, line: u64, access: CoherenceMessage)
    ensures
        cache_request(d, out, line, access) matches Ok((d2, _, _)) ==> d2.queued == d.queued && d2.blocked == d.blocked
            && d2.barrier == d.barrier,
{
}

/// Completing a barrier only clears it.
pub proof fn lemma_try_barrier_frame(d: DirModel, out: Seq<CoherenceMessage>)
    ensures
        try_complete_barrier(d, out) matches Ok((d2, _, done)) ==> (done ==> d.barrier is Some && d2 == (DirModel {
            barrier: None,
            ..d
        })) && (!done ==> d2 == d),
{
}

/// Taking a released request adds at most one unit of work: it may wait on
/// its line, or become the active barrier.
pub proof fn lemma_rx_access_weight(d: DirModel, out: Seq<CoherenceMessage>, access: CoherenceMessage)
    requires
        d.barrier is None,
    ensures
        rx_access(d, out, access) matches Ok((d2, _, _)) ==> weight(d2) <= weight(d) + 1,
{
    lemma_cache_request_frame(d, out, line_of(d, access.dst_addr), access);
    lemma_try_barrier_frame(DirModel { barrier: Some(access), ..d }, out);
}

/// A position found is in range and has the key.
pub proof fn lemma_first_key_bound<T>(s: Seq<(u64, T)>, key: u64, k: nat)
    ensures
        first_key(s, key, k) matches Some(i) ==> i < k && s[i as int].0 == key,
    decreases k,
{
    if k > 0 {
        lemma_first_key_bound(s, key, (k - 1) as nat);
    }
}

/// Serve the requests waiting on each line of `ready` that is free, one
/// per line visit; a line freed by a served request is visited again, and
/// a barrier completes as soon as it can.
pub open spec fn drain_ready(d: DirModel, out: Seq<CoherenceMessage>, ready: Seq<u64>, progressed: bool) -> Result<
    (DirModel, Seq<CoherenceMessage>, bool),
    ModelError,
>
    decreases weight(d), ready.len(),
{
    if ready.len() == 0 {
        Ok((d, out, progressed))
    } else {
        let line = ready[0];
        let rest = ready.drop_first();
        if entry_of(d, line).waiting is Some {
            drain_ready(d, out, rest, progressed)
        } else {
            match first_key(d.queued, line, d.queued.len()) {
                None => drain_ready(d, out, rest, progressed),
                Some(i) => {
                    let next = d.queued[i as int].1;
                    let d1 = DirModel { queued: d.queued.remove(i as int), ..d };
                    match cache_request(d1, out, line, next) {
                        Err(e) => Err(e),
                        Ok((d2, out2, freed)) => {
                            let rest2 = match freed {
                                Some(l) => rest.push(l),
                                None => rest,
                            };
                            match try_complete_barrier(d2, out2) {
                                Err(e) => Err(e),
                                Ok((d3, out3, _)) => {
                                    proof {
                                        lemma_first_key_bound(d.queued, line, d.queued.len());
                                        lemma_cache_request_frame(d1, out, line, next);
                                        lemma_try_barrier_frame(d2, out2);
                                    }
                                    drain_ready(d3, out3, rest2, true)
                                },
                            }
                        },
                    }
                },
            }
        }
    }
}

/// Release the requests held behind a barrier, oldest first, while no
/// barrier is active; lines they free are added to `ready`.
pub open spec fn replay_blocked(d: DirModel, out: Seq<CoherenceMessage>, ready: Seq<u64>, progressed: bool) -> Result<
    (DirModel, Seq<CoherenceMessage>, Seq<u64>, bool),
    ModelError,
>
    decreases weight(d),
{
    if d.barrier is Some || d.blocked.len() == 0 {
        Ok((d, out, ready, progressed))
    } else {
        let request = d.blocked[0];
        let d1 = DirModel { blocked: d.blocked.drop_first(), ..d };
        match rx_access(d1, out, request) {
            Err(e) => Err(e),
            Ok((d2, out2, freed)) => {
                proof {
                    lemma_rx_access_weight(d1, out, request);
                }
                replay_blocked(
                    d2,
                    out2,
                    match freed {
                        Some(l) => ready.push(l),
                        None => ready,
                    },
                    true,
                )
            },
        }
    }
}

/// Serving ready lines never adds work, and removes some when it serves a
/// request.
pub proof fn lemma_drain_weight(d: DirModel, out: Seq<CoherenceMessage>, ready: Seq<u64>, progressed: bool)
    ensures
        drain_ready(d, out, ready, progressed) matches Ok((d1, _, p1)) ==> weight(d1) <= weight(d) && (p1 ==> progressed
            || weight(d1) < weight(d)),
    decreases weight(d), ready.len(),
{
    if ready.len() > 0 {
        let line = ready[0];
        let rest = ready.drop_first();
        if entry_of(d, line).waiting is Some {
            lemma_drain_weight(d, out, rest, progressed);
        } else {
            match first_key(d.queued, line, d.queued.len()) {
                None => lemma_drain_weight(d, out, rest, progressed),
                Some(i) => {
                    let next = d.queued[i as int].1;
                    let d1 = DirModel { queued: d.queued.remove(i as int), ..d };
                    lemma_first_key_bound(d.queued, line, d.queued.len());
                    lemma_cache_request_frame(d1, out, line, next);
                    if let Ok((d2, out2, freed)) = cache_request(d1, out, line, next) {
                        let rest2 = match freed {
                            Some(l) => rest.push(l),
                            None => rest,
                        };
                        lemma_try_barrier_frame(d2, out2);
                        if let Ok((d3, out3, _)) = try_complete_barrier(d2, out2) {
                            lemma_drain_weight(d3, out3, rest2, true);
                        }
                    }
                },
            }
        }
    }
}

/// Releasing held requests never adds work, and removes some when it
/// releases one.
pub proof fn lemma_replay_weight(d: DirModel, out: Seq<CoherenceMessage>, ready: Seq<u64>, progressed: bool)
    ensures
        replay_blocked(d, out, ready, progressed) matches Ok((d1, _, _, p1)) ==> weight(d1) <= weight(d) && (p1
            ==> progressed || weight(d1) < weight(d)),
    decreases weight(d),
{
    if !(d.barrier is Some || d.blocked.len() == 0) {
        let request = d.blocked[0];
        let d1 = DirModel { blocked: d.blocked.drop_first(), ..d };
        lemma_rx_access_weight(d1, out, request);
        if let Ok((d2, out2, freed)) = rx_access(d1, out, request) {
            lemma_replay_weight(
                d2,
                out2,
                match freed {
                    Some(l) => ready.push(l),
                    None => ready,
                },
                true,
            );
        }
    }
}

/// Serve ready lines, release held requests and complete the barrier,
/// again and again while any of these makes progress.
pub open spec fn progress(d: DirModel, out: Seq<CoherenceMessage>, ready: Seq<u64>) -> Result<(DirModel, Seq<CoherenceMessage>), ModelError>
    decreases weight(d),
{
    match drain_ready(d, out, ready, false) {
        Err(e) => Err(e),
        Ok((d1, out1, p1)) => match replay_blocked(d1, out1, Seq::empty(), p1) {
            Err(e) => Err(e),
            Ok((d2, out2, ready2, p2)) => match try_complete_barrier(d2, out2) {
                Err(e) => Err(e),
                Ok((d3, out3, done)) => if p2 || done {
                    proof {
                        lemma_drain_weight(d, out, ready, false);
                        lemma_replay_weight(d1, out1, Seq::empty(), p1);
                        lemma_try_barrier_frame(d2, out2);
                    }
                    progress(d3, out3, ready2)
                } else {
                    Ok((d3, out3))
                },
            },
        },
    }
}

/// Handle one message that reaches the manager: the directory afterwards
/// and the messages sent, in order.
pub open spec fn handle_message(d: DirModel, access: CoherenceMessage) -> Result<(DirModel, Seq<CoherenceMessage>), ModelError> {
    let first = if is_memory_response(d, access) {
        mem_response(d, Seq::empty(), access)
    } else {
        rx_access(d, Seq::empty(), access)
    };
    match first {
        Err(e) => Err(e),
        Ok((d1, out1, freed)) => progress(
            d1,
            out1,
            match freed {
                Some(l) => seq![l],
                None => Seq::empty(),
            },
        ),
    }
}

} // verus!

verus! {

/// What a line waits for.
enum WaitingFor {
    /// Acks from these devices, before serving the request.
    Invalidations { request: CoherenceMessage, waiting_for: Vec<DeviceId> },
    /// The memory's answer to a shared read.
    ReadResponse { request: CoherenceMessage },
}

impl View for WaitingFor {
    type V = WaitModel;

    closed spec fn view(&self) -> WaitModel {
        match self {
            WaitingFor::Invalidations { request, waiting_for } => WaitModel::Invalidations {
                request: *request,
                waiting_for: waiting_for@,
            },
            WaitingFor::ReadResponse { request } => WaitModel::ReadResponse { request: *request },
        }
    }
}

/// The waiting state of a line, by view.
spec fn waiting_view(w: Option<WaitingFor>) -> Option<WaitModel> {
    match w {
        Some(x) => Some(x@),
        None => None,
    }
}

/// What the directory keeps for a line.
struct DirectoryEntry {
    sharers: Vec<DeviceId>,
    owner: Option<DeviceId>,
    waiting_for: Option<WaitingFor>,
}

impl View for DirectoryEntry {
    type V = EntryModel;

    closed spec fn view(&self) -> EntryModel {
        EntryModel { sharers: self.sharers@, owner: self.owner, waiting: waiting_view(self.waiting_for) }
    }
}

/// The state of a coherence manager.
pub struct DirectoryState {
    config: CoherencyManagerConfig,
    entries: Vec<(u64, DirectoryEntry)>,
    queued: Vec<(u64, CoherenceMessage)>,
    blocked: VecDeque<CoherenceMessage>,
    active_barrier: Option<CoherenceMessage>,
}

/// The lines of a directory, by view.
spec fn entries_view(entries: Seq<(u64, DirectoryEntry)>) -> Seq<(u64, EntryModel)> {
    entries.map_values(|p: (u64, DirectoryEntry)| (p.0, p.1@))
}

impl View for DirectoryState {
    type V = DirModel;

    closed spec fn view(&self) -> DirModel {
        DirModel {
            line_size: self.config.line_size_bytes as nat,
            device_id: self.config.device_id,
            backing: self.config.backing_memory_map@,
            entries: entries_view(self.entries@),
            queued: self.queued@,
            blocked: self.blocked@,
            barrier: self.active_barrier,
        }
    }
}

/// The request a line waits to serve is a well-formed message.
pub open spec fn waiting_ok(e: EntryModel) -> bool {
    match e.waiting {
        Some(WaitModel::Invalidations { request, .. }) => msg_ok(request),
        Some(WaitModel::ReadResponse { request }) => msg_ok(request),
        None => true,
    }
}

/// A directory with lines of at least a byte, whose stored requests are
/// all well-formed messages.
pub open spec fn model_wf(d: DirModel) -> bool {
    &&& 1 <= d.line_size <= u64::MAX
    &&& forall|i: int| 0 <= i < d.queued.len() ==> msg_ok(#[trigger] d.queued[i].1)
    &&& forall|i: int| 0 <= i < d.blocked.len() ==> msg_ok(#[trigger] d.blocked[i])
    &&& d.barrier matches Some(b) ==> msg_ok(b)
    &&& forall|i: int| 0 <= i < d.entries.len() ==> waiting_ok(#[trigger] d.entries[i].1)
}

/// The directory that a handler's result describes, and the messages it
/// sent, or the error it reported.
pub open spec fn handled_as(
    expected: Result<Handled, ModelError>,
    result: Result<Option<u64>, ModelError>,
    d: DirModel,
    out: Seq<CoherenceMessage>,
) -> bool {
    match expected {
        Ok((d1, out1, freed)) => result == Ok::<Option<u64>, ModelError>(freed) && d == d1 && out == out1 && model_wf(d),
        Err(e) => result == Err::<Option<u64>, ModelError>(e),
    }
}

pub proof fn lemma_first_key_stable<T>(s: Seq<(u64, T)>, key: u64, k: nat, n: nat)
    requires
        k <= n,
        first_key(s, key, k) is Some,
    ensures
        first_key(s, key, n) == first_key(s, key, k),
    decreases n - k,
{
    if k < n {
        lemma_first_key_stable(s, key, k + 1, n);
    }
}

/// A position found among the lines is found among their views.
proof fn lemma_first_key_view(entries: Seq<(u64, DirectoryEntry)>, line: u64, k: nat)
    requires
        k <= entries.len(),
    ensures
        first_key(entries_view(entries), line, k) == first_key(entries, line, k),
    decreases k,
{
    if k > 0 {
        lemma_first_key_view(entries, line, (k - 1) as nat);
    }
}

/// What the directory knows of a line has a well-formed request.
proof fn lemma_entry_ok(d: DirModel, line: u64)
    requires
        model_wf(d),
    ensures
        waiting_ok(entry_of(d, line)),
{
    lemma_first_key_bound(d.entries, line, d.entries.len());
}

/// A copy of a list of devices.
fn copy_devices(v: &Vec<DeviceId>) -> (copy: Vec<DeviceId>)
    ensures
        copy@ == v@,
{
    let mut copy: Vec<DeviceId> = Vec::new();
    let mut i: usize = 0;
    while i < v.len()
        invariant
            i <= v@.len(),
            copy@ == v@.take(i as int),
        decreases v@.len() - i,
    {
        copy.push(v[i]);
        i = i + 1;
        assert(copy@ =~= v@.take(i as int));
    }
    assert(v@.take(v@.len() as int) =~= v@);
    copy
}

/// The devices of `v` other than `x`, in order.
fn devices_without(v: &Vec<DeviceId>, x: DeviceId) -> (rest: Vec<DeviceId>)
    ensures
        rest@ == seq_without(v@, x),
{
    let mut rest: Vec<DeviceId> = Vec::new();
    let mut i: usize = 0;
    while i < v.len()
        invariant
            i <= v@.len(),
            rest@ == seq_without(v@.take(i as int), x),
        decreases v@.len() - i,
    {
        proof {
            assert(v@.take(i + 1).drop_last() =~= v@.take(i as int));
        }
        if v[i] != x {
            rest.push(v[i]);
        }
        i = i + 1;
    }
    assert(v@.take(v@.len() as int) =~= v@);
    rest
}

proof fn lemma_first_at_least_bound(s: Seq<DeviceId>, x: DeviceId, k: nat)
    ensures
        first_at_least(s, x, k) <= k,
        first_at_least(s, x, k) < k ==> s[first_at_least(s, x, k) as int].0 >= x.0,
    decreases k,
{
    if k > 0 {
        lemma_first_at_least_bound(s, x, (k - 1) as nat);
    }
}

proof fn lemma_first_at_least_stable(s: Seq<DeviceId>, x: DeviceId, k: nat, n: nat)
    requires
        k <= n,
        first_at_least(s, x, k) < k,
    ensures
        first_at_least(s, x, n) == first_at_least(s, x, k),
    decreases n - k,
{
    if k < n {
        lemma_first_at_least_bound(s, x, k);
        lemma_first_at_least_stable(s, x, k + 1, n);
    }
}

/// The devices of `v` with `x` added in order of device number, where `v`
/// does not already hold it.
fn devices_with(v: Vec<DeviceId>, x: DeviceId) -> (with: Vec<DeviceId>)
    ensures
        with@ == seq_with(v@, x),
{
    let mut v = v;
    let mut i: usize = 0;
    while i < v.len() && v[i].0 < x.0
        invariant
            i <= v@.len(),
            first_at_least(v@, x, i as nat) == i,
        decreases v@.len() - i,
    {
        i = i + 1;
    }
    proof {
        if i < v@.len() {
            lemma_first_at_least_bound(v@, x, i as nat);
            assert(first_at_least(v@, x, (i + 1) as nat) == i);
            lemma_first_at_least_stable(v@, x, (i + 1) as nat, v@.len());
        }
    }
    if i < v.len() && v[i] == x {
        return v;
    }
    v.insert(i, x);
    v
}

/// Append an invalidate of `access`'s line for each target, in order.
fn send_invalidates(sent: &mut Vec<CoherenceMessage>, access: CoherenceMessage, targets: &Vec<DeviceId>, device: DeviceId)
    ensures
        final(sent)@ == old(sent)@ + invalidate_msgs(access, targets@, device),
{
    let ghost start = sent@;
    let mut i: usize = 0;
    while i < targets.len()
        invariant
            i <= targets@.len(),
            sent@ == start + invalidate_msgs(access, targets@.take(i as int), device),
        decreases targets@.len() - i,
    {
        sent.push(
            CoherenceMessage {
                access_type: AccessKind::Control,
                dst_device: targets[i],
                src_device: device,
                coherence_op: Some(CoherenceOp::Invalidate),
                ..access
            },
        );
        proof {
            assert(invalidate_msgs(access, targets@.take(i + 1), device) =~= invalidate_msgs(access, targets@.take(i as int), device).push(
                invalidate_msg(access, targets@[i as int], device),
            ));
        }
        i = i + 1;
    }
    assert(targets@.take(targets@.len() as int) =~= targets@);
}

impl WaitingFor {
    /// A copy.
    fn duplicate(&self) -> (copy: Self)
        ensures
            copy@ == self@,
    {
        match self {
            WaitingFor::Invalidations { request, waiting_for } => WaitingFor::Invalidations {
                request: *request,
                waiting_for: copy_devices(waiting_for),
            },
            WaitingFor::ReadResponse { request } => WaitingFor::ReadResponse { request: *request },
        }
    }
}

impl DirectoryEntry {
    /// A copy.
    fn duplicate(&self) -> (copy: Self)
        ensures
            copy@ == self@,
    {
        DirectoryEntry {
            sharers: copy_devices(&self.sharers),
            owner: self.owner,
            waiting_for: match &self.waiting_for {
                Some(w) => Some(w.duplicate()),
                None => None,
            },
        }
    }
}

impl DirectoryState {
    /// Whether the directory is well formed.
    pub closed spec fn wf(&self) -> bool {
        model_wf(self@)
    }

    /// An empty directory: no line is held and nothing waits.
    pub fn new(config: CoherencyManagerConfig) -> (state: Self)
        requires
            config.line_size_bytes() >= 1,
        ensures
            state.wf(),
            state@ == (DirModel {
                line_size: config.line_size_bytes() as nat,
                device_id: config.device_id(),
                backing: config.backing_regions(),
                entries: Seq::empty(),
                queued: Seq::empty(),
                blocked: Seq::empty(),
                barrier: None,
            }),
    {
        let state = DirectoryState {
            config,
            entries: Vec::new(),
            queued: Vec::new(),
            blocked: VecDeque::new(),
            active_barrier: None,
        };
        assert(entries_view(state.entries@) =~= Seq::<(u64, EntryModel)>::empty());
        state
    }

    /// The position of a line among the lines, if the directory has it.
    fn find_entry(&self, line: u64) -> (index: Option<usize>)
        ensures
            match index {
                Some(i) => first_key(self@.entries, line, self@.entries.len()) == Some(i as nat) && i < self@.entries.len(),
                None => first_key(self@.entries, line, self@.entries.len()) is None,
            },
    {
        proof {
            lemma_first_key_view(self.entries@, line, self.entries@.len());
        }
        let mut i: usize = 0;
        while i < self.entries.len()
            invariant
                i <= self.entries@.len(),
                first_key(self.entries@, line, i as nat) is None,
                self@.entries.len() == self.entries@.len(),
                first_key(self@.entries, line, self@.entries.len()) == first_key(self.entries@, line, self.entries@.len()),
            decreases self.entries@.len() - i,
        {
            if self.entries[i].0 == line {
                proof {
                    assert(first_key(self.entries@, line, (i + 1) as nat) == Some(i as nat));
                    lemma_first_key_stable(self.entries@, line, (i + 1) as nat, self.entries@.len());
                }
                return Some(i);
            }
            i = i + 1;
        }
        None
    }

    /// What the directory knows of a line.
    fn entry_for(&self, line: u64) -> (e: DirectoryEntry)
        ensures
            e@ == entry_of(self@, line),
    {
        match self.find_entry(line) {
            Some(i) => self.entries[i].1.duplicate(),
            None => {
                let e = DirectoryEntry { sharers: Vec::new(), owner: None, waiting_for: None };
                assert(e@.sharers =~= Seq::<DeviceId>::empty());
                e
            },
        }
    }

    /// Replace what the directory knows of a line.
    fn set_entry(&mut self, line: u64, e: DirectoryEntry)
        requires
            old(self).wf(),
            waiting_ok(e@),
        ensures
            final(self)@ == with_entry(old(self)@, line, e@),
            final(self).wf(),
    {
        let ghost view = e@;
        match self.find_entry(line) {
            Some(i) => {
                self.entries.set(i, (line, e));
                proof {
                    assert(entries_view(self.entries@) =~= entries_view(old(self).entries@).update(i as int, (line, view)));
                }
            },
            None => {
                self.entries.push((line, e));
                proof {
                    assert(entries_view(self.entries@) =~= entries_view(old(self).entries@).push((line, view)));
                }
            },
        }
    }

    /// The line that holds an address.
    fn line_of(&self, addr: u64) -> (line: u64)
        requires
            self.wf(),
        ensures
            line == line_of(self@, addr),
    {
        let size = self.config.line_size_bytes as u64;
        let q = addr / size;
        proof {
            vstd::arithmetic::div_mod::lemma_fundamental_div_mod(addr as int, size as int);
            assert(q * size <= addr) by (nonlinear_arith)
                requires
                    size >= 1,
                    addr == size * (addr / size) + addr % size,
                    q == addr / size,
                    addr % size >= 0,
            ;
        }
        q * size
    }

    /// The backing memory of an access.
    fn resolve(&self, addr: u64, size: usize) -> (result: Result<DeviceId, ModelError>)
        requires
            size >= 1,
            addr + size - 1 <= u64::MAX,
        ensures
            result == resolve(self@, addr, size),
    {
        let end = addr + (size as u64 - 1);
        let begin_device = match self.config.backing_memory_map.lookup(addr) {
            Some((device, _)) => device,
            None => return Err(ModelError::NoBackingMemoryForAddress { address: addr }),
        };
        let end_device = match self.config.backing_memory_map.lookup(end) {
            Some((device, _)) => device,
            None => return Err(ModelError::NoBackingMemoryForAddress { address: end }),
        };
        if begin_device != end_device {
            return Err(ModelError::SpansMultipleBackingMemories { begin: addr, end });
        }
        Ok(begin_device)
    }

    /// Whether some line waits, or some request waits on a line.
    pub fn has_outstanding_work(&self) -> (busy: bool)
        ensures
            busy == has_outstanding_work(self@),
    {
        if self.queued.len() > 0 {
            return true;
        }
        let mut i: usize = 0;
        while i < self.entries.len()
            invariant
                i <= self.entries@.len(),
                forall|j: int| 0 <= j < i ==> (#[trigger] self@.entries[j]).1.waiting is None,
            decreases self.entries@.len() - i,
        {
            if self.entries[i].1.waiting_for.is_some() {
                assert(self@.entries[i as int].1.waiting is Some);
                return true;
            }
            i = i + 1;
        }
        false
    }

    /// Whether a barrier is active.
    pub fn has_active_barrier(&self) -> (active: bool)
        ensures
            active == (self@.barrier is Some),
    {
        self.active_barrier.is_some()
    }
}

} // verus!

verus! {

/// The answer to a request, back to where it came from.
pub(crate) fn response_to(m: CoherenceMessage) -> (result: Result<CoherenceMessage, ModelError>)
    ensures
        result == response_of(m),
{
    let kind = match m.access_type {
        AccessKind::Control => AccessKind::Control,
        AccessKind::ReadRequest => AccessKind::ReadResponse,
        AccessKind::WriteNonPostedRequest => AccessKind::WriteNonPostedResponse,
        AccessKind::BarrierRequest => AccessKind::BarrierResponse,
        _ => return Err(ModelError::UnsupportedResponse),
    };
    Ok(CoherenceMessage { access_type: kind, dst_device: m.src_device, src_device: m.dst_device, ..m })
}

impl DirectoryState {
    /// Read the line of `access` from memory.
    fn issue_read(&mut self, sent: &mut Vec<CoherenceMessage>, access: CoherenceMessage) -> (result: Result<Option<u64>, ModelError>)
        requires
            old(self).wf(),
            msg_ok(access),
        ensures
            handled_as(issue_read(old(self)@, old(sent)@, access), result, final(self)@, final(sent)@),
    {
        let memory = match self.resolve(access.dst_addr, access.access_size_bytes) {
            Ok(m) => m,
            Err(e) => return Err(e),
        };
        sent.push(CoherenceMessage { dst_device: memory, src_device: self.config.device_id, coherence_op: None, ..access });
        Ok(None)
    }

    /// Make the requester of `access` the only holder of the line and tell
    /// it so.
    fn grant_exclusive(&mut self, sent: &mut Vec<CoherenceMessage>, line: u64, access: CoherenceMessage) -> (result: Result<
        Option<u64>,
        ModelError,
    >)
        requires
            old(self).wf(),
        ensures
            handled_as(grant_exclusive(old(self)@, old(sent)@, line, access), result, final(self)@, final(sent)@),
    {
        let e = self.entry_for(line);
        proof {
            lemma_entry_ok(self@, line);
        }
        let updated = DirectoryEntry { sharers: Vec::new(), owner: Some(access.src_device), waiting_for: e.waiting_for };
        assert(updated@ == (EntryModel { sharers: Seq::empty(), owner: Some(access.src_device), ..e@ }));
        self.set_entry(line, updated);
        sent.push(
            CoherenceMessage {
                access_type: AccessKind::Control,
                dst_device: access.src_device,
                src_device: self.config.device_id,
                coherence_op: Some(CoherenceOp::GrantExclusive),
                ..access
            },
        );
        Ok(Some(line))
    }

    /// A shared read of a free line.
    fn shared_read(&mut self, sent: &mut Vec<CoherenceMessage>, line: u64, access: CoherenceMessage) -> (result: Result<
        Option<u64>,
        ModelError,
    >)
        requires
            old(self).wf(),
            msg_ok(access),
        ensures
            handled_as(shared_read(old(self)@, old(sent)@, line, access), result, final(self)@, final(sent)@),
    {
        let e = self.entry_for(line);
        let other_owner = match e.owner {
            Some(o) => if o != access.src_device {
                Some(o)
            } else {
                None
            },
            None => None,
        };
        match other_owner {
            Some(o) => {
                let mut targets: Vec<DeviceId> = Vec::new();
                targets.push(o);
                assert(targets@ =~= seq![o]);
                let updated = DirectoryEntry {
                    sharers: e.sharers,
                    owner: e.owner,
                    waiting_for: Some(WaitingFor::Invalidations { request: access, waiting_for: targets }),
                };
                self.set_entry(line, updated);
                sent.push(
                    CoherenceMessage {
                        access_type: AccessKind::Control,
                        dst_device: o,
                        src_device: self.config.device_id,
                        coherence_op: Some(CoherenceOp::Invalidate),
                        ..access
                    },
                );
                Ok(None)
            },
            None => {
                let updated = DirectoryEntry {
                    sharers: e.sharers,
                    owner: e.owner,
                    waiting_for: Some(WaitingFor::ReadResponse { request: access }),
                };
                self.set_entry(line, updated);
                self.issue_read(sent, access)
            },
        }
    }

    /// An exclusive write to a free line.
    fn exclusive_write(&mut self, sent: &mut Vec<CoherenceMessage>, line: u64, access: CoherenceMessage) -> (result: Result<
        Option<u64>,
        ModelError,
    >)
        requires
            old(self).wf(),
            msg_ok(access),
        ensures
            handled_as(exclusive_write(old(self)@, old(sent)@, line, access), result, final(self)@, final(sent)@),
    {
        let e = self.entry_for(line);
        let others = devices_without(&e.sharers, access.src_device);
        let targets = match e.owner {
            Some(o) => if o != access.src_device {
                devices_with(others, o)
            } else {
                others
            },
            None => others,
        };
        if targets.len() == 0 {
            return self.grant_exclusive(sent, line, access);
        }
        send_invalidates(sent, access, &targets, self.config.device_id);
        let updated = DirectoryEntry {
            sharers: e.sharers,
            owner: e.owner,
            waiting_for: Some(WaitingFor::Invalidations { request: access, waiting_for: targets }),
        };
        self.set_entry(line, updated);
        Ok(None)
    }

    /// A write without a coherence operation to a free line.
    fn owner_write(&mut self, sent: &mut Vec<CoherenceMessage>, line: u64, access: CoherenceMessage) -> (result: Result<
        Option<u64>,
        ModelError,
    >)
        requires
            old(self).wf(),
            msg_ok(access),
        ensures
            handled_as(owner_write(old(self)@, old(sent)@, line, access), result, final(self)@, final(sent)@),
    {
        let is_owner = match self.entry_for(line).owner {
            Some(o) => o == access.src_device,
            None => false,
        };
        if is_owner {
            let memory = match self.resolve(access.dst_addr, access.access_size_bytes) {
                Ok(m) => m,
                Err(e) => return Err(e),
            };
            sent.push(CoherenceMessage { dst_device: memory, src_device: self.config.device_id, coherence_op: None, ..access });
            Ok(None)
        } else {
            self.exclusive_write(sent, line, CoherenceMessage { coherence_op: Some(CoherenceOp::ExclusiveWrite), ..access })
        }
    }

    /// A request of a cache for a free line.
    fn cache_request(&mut self, sent: &mut Vec<CoherenceMessage>, line: u64, access: CoherenceMessage) -> (result: Result<
        Option<u64>,
        ModelError,
    >)
        requires
            old(self).wf(),
            msg_ok(access),
        ensures
            handled_as(cache_request(old(self)@, old(sent)@, line, access), result, final(self)@, final(sent)@),
    {
        let kind = access.access_type;
        let write = kind == AccessKind::WriteRequest || kind == AccessKind::WriteNonPostedRequest;
        let no_op = access.coherence_op.is_none();
        if kind == AccessKind::ReadRequest && (access.coherence_op == Some(CoherenceOp::SharedRead) || no_op) {
            self.shared_read(sent, line, access)
        } else if write && access.coherence_op == Some(CoherenceOp::ExclusiveWrite) {
            self.exclusive_write(sent, line, access)
        } else if write && no_op {
            self.owner_write(sent, line, access)
        } else {
            Err(ModelError::UnsupportedCoherenceRequest)
        }
    }

    /// An invalidate ack for a line.
    fn invalidate_ack(&mut self, sent: &mut Vec<CoherenceMessage>, line: u64, ack: CoherenceMessage) -> (result: Result<
        Option<u64>,
        ModelError,
    >)
        requires
            old(self).wf(),
        ensures
            handled_as(invalidate_ack(old(self)@, old(sent)@, line, ack), result, final(self)@, final(sent)@),
    {
        let e = self.entry_for(line);
        proof {
            lemma_entry_ok(self@, line);
        }
        let src = ack.src_device;
        match e.waiting_for {
            Some(WaitingFor::Invalidations { request, waiting_for }) => {
                let rest = devices_without(&waiting_for, src);
                let sharers = devices_without(&e.sharers, src);
                if rest.len() == 0 {
                    let read = request.access_type == AccessKind::ReadRequest && (request.coherence_op == Some(CoherenceOp::SharedRead)
                        || request.coherence_op.is_none());
                    if read {
                        let sharers_again = copy_devices(&sharers);
                        self.set_entry(line, DirectoryEntry { sharers, owner: None, waiting_for: None });
                        self.set_entry(
                            line,
                            DirectoryEntry {
                                sharers: sharers_again,
                                owner: None,
                                waiting_for: Some(WaitingFor::ReadResponse { request }),
                            },
                        );
                        self.issue_read(sent, request)
                    } else if request.coherence_op == Some(CoherenceOp::ExclusiveWrite) {
                        self.set_entry(line, DirectoryEntry { sharers, owner: None, waiting_for: None });
                        self.grant_exclusive(sent, line, request)
                    } else {
                        Err(ModelError::UnsupportedPendingRequest)
                    }
                } else {
                    let owner = match e.owner {
                        Some(o) => if o == src {
                            None
                        } else {
                            Some(o)
                        },
                        None => None,
                    };
                    self.set_entry(
                        line,
                        DirectoryEntry {
                            sharers,
                            owner,
                            waiting_for: Some(WaitingFor::Invalidations { request, waiting_for: rest }),
                        },
                    );
                    Ok(None)
                }
            },
            _ => Err(ModelError::UnexpectedInvalidateAck { line }),
        }
    }

    /// Complete the active barrier once nothing is outstanding; says
    /// whether it did.
    fn try_complete_barrier(&mut self, sent: &mut Vec<CoherenceMessage>) -> (result: Result<bool, ModelError>)
        requires
            old(self).wf(),
        ensures
            match try_complete_barrier(old(self)@, old(sent)@) {
                Ok((d, out, done)) => result == Ok::<bool, ModelError>(done) && final(self)@ == d && final(sent)@ == out
                    && final(self).wf(),
                Err(e) => result == Err::<bool, ModelError>(e),
            },
    {
        match self.active_barrier {
            None => Ok(false),
            Some(barrier) => {
                if self.has_outstanding_work() {
                    return Ok(false);
                }
                let response = match response_to(barrier) {
                    Ok(r) => r,
                    Err(e) => return Err(e),
                };
                sent.push(response);
                self.active_barrier = None;
                Ok(true)
            },
        }
    }

    /// A barrier request.
    fn barrier_request(&mut self, sent: &mut Vec<CoherenceMessage>, access: CoherenceMessage) -> (result: Result<Option<u64>, ModelError>)
        requires
            old(self).wf(),
            msg_ok(access),
        ensures
            handled_as(barrier_request(old(self)@, old(sent)@, access), result, final(self)@, final(sent)@),
    {
        if self.active_barrier.is_some() {
            self.blocked.push_back(access);
            return Ok(None);
        }
        self.active_barrier = Some(access);
        match self.try_complete_barrier(sent) {
            Err(e) => Err(e),
            Ok(_) => Ok(None),
        }
    }

    /// A message on the manager's port that is not a memory response.
    fn rx_access(&mut self, sent: &mut Vec<CoherenceMessage>, access: CoherenceMessage) -> (result: Result<Option<u64>, ModelError>)
        requires
            old(self).wf(),
            msg_ok(access),
        ensures
            handled_as(rx_access(old(self)@, old(sent)@, access), result, final(self)@, final(sent)@),
    {
        if access.access_type == AccessKind::BarrierRequest {
            return self.barrier_request(sent, access);
        }
        let ack = access.access_type == AccessKind::Control && access.coherence_op == Some(CoherenceOp::InvalidateAck);
        if !ack && self.active_barrier.is_some() {
            self.blocked.push_back(access);
            return Ok(None);
        }
        match self.resolve(access.dst_addr, access.access_size_bytes) {
            Err(e) => return Err(e),
            Ok(_) => {},
        }
        let line = self.line_of(access.dst_addr);
        if ack {
            return self.invalidate_ack(sent, line, access);
        }
        let e = self.entry_for(line);
        let write = access.access_type == AccessKind::WriteRequest || access.access_type == AccessKind::WriteNonPostedRequest;
        let awaits_acks = match &e.waiting_for {
            Some(WaitingFor::Invalidations { .. }) => true,
            _ => false,
        };
        let from_owner = match e.owner {
            Some(o) => o == access.src_device,
            None => false,
        };
        let owner_writeback = write && access.coherence_op.is_none() && awaits_acks && from_owner;
        if e.waiting_for.is_some() && !owner_writeback {
            self.queued.push((line, access));
            return Ok(None);
        }
        self.cache_request(sent, line, access)
    }

    /// Whether a message is the answer of the backing memory to the
    /// manager.
    fn is_memory_response(&self, m: CoherenceMessage) -> (answer: bool)
        requires
            msg_ok(m),
        ensures
            answer == is_memory_response(self@, m),
    {
        if !(m.access_type == AccessKind::ReadResponse || m.access_type == AccessKind::WriteNonPostedResponse) {
            return false;
        }
        if m.dst_device != self.config.device_id {
            return false;
        }
        match self.resolve(m.dst_addr, m.access_size_bytes) {
            Ok(memory) => m.src_device == memory,
            Err(_) => false,
        }
    }

    /// The memory's answer to a shared read.
    fn mem_response(&mut self, sent: &mut Vec<CoherenceMessage>, response: CoherenceMessage) -> (result: Result<
        Option<u64>,
        ModelError,
    >)
        requires
            old(self).wf(),
        ensures
            handled_as(mem_response(old(self)@, old(sent)@, response), result, final(self)@, final(sent)@),
    {
        let line = self.line_of(response.dst_addr);
        let e = self.entry_for(line);
        let request = match &e.waiting_for {
            Some(WaitingFor::ReadResponse { request }) => *request,
            _ => return Err(ModelError::UnexpectedMemoryResponse { line }),
        };
        let sharers = devices_with(e.sharers, request.src_device);
        self.set_entry(line, DirectoryEntry { sharers, owner: None, waiting_for: None });
        sent.push(
            CoherenceMessage {
                dst_device: request.src_device,
                src_device: self.config.device_id,
                coherence_op: Some(CoherenceOp::GrantShared),
                ..response
            },
        );
        Ok(Some(line))
    }
}

} // verus!

verus! {

impl DirectoryState {
    /// Serve the requests waiting on each free line of `ready`; says whether
    /// any was served.
    fn drain_ready(&mut self, sent: &mut Vec<CoherenceMessage>, ready: &mut VecDeque<u64>) -> (result: Result<bool, ModelError>)
        requires
            old(self).wf(),
        ensures
            match drain_ready(old(self)@, old(sent)@, old(ready)@, false) {
                Ok((d, out, progressed)) => result == Ok::<bool, ModelError>(progressed) && final(self)@ == d && final(sent)@
                    == out && final(self).wf(),
                Err(e) => result == Err::<bool, ModelError>(e),
            },
    {
        let ghost expected = drain_ready(old(self)@, old(sent)@, old(ready)@, false);
        let mut progressed = false;
        while ready.len() > 0
            invariant
                self.wf(),
                expected == drain_ready(old(self)@, old(sent)@, old(ready)@, false),
                expected == drain_ready(self@, sent@, ready@, progressed),
            decreases weight(self@), ready@.len(),
        {
            let ghost d = self@;
            let ghost out = sent@;
            let ghost before = ready@;
            let line = match ready.pop_front() {
                Some(l) => l,
                None => {
                    proof {
                        assert(false);
                    }
                    0
                },
            };
            proof {
                assert(ready@ =~= before.drop_first());
            }
            let e = self.entry_for(line);
            if e.waiting_for.is_some() {
                continue;
            }
            let mut i: usize = 0;
            while i < self.queued.len() && self.queued[i].0 != line
                invariant
                    i <= self@.queued.len(),
                    first_key(self@.queued, line, i as nat) is None,
                decreases self@.queued.len() - i,
            {
                i = i + 1;
            }
            if i == self.queued.len() {
                continue;
            }
            proof {
                assert(first_key(self@.queued, line, (i + 1) as nat) == Some(i as nat));
                lemma_first_key_stable(self@.queued, line, (i + 1) as nat, self@.queued.len());
            }
            let (_, next) = self.queued.remove(i);
            proof {
                assert(msg_ok(d.queued[i as int].1));
                assert(self@ == (DirModel { queued: d.queued.remove(i as int), ..d }));
            }
            let freed = match self.cache_request(sent, line, next) {
                Ok(f) => f,
                Err(e) => return Err(e),
            };
            match freed {
                Some(l) => ready.push_back(l),
                None => {},
            }
            match self.try_complete_barrier(sent) {
                Ok(_) => {},
                Err(e) => return Err(e),
            }
            progressed = true;
            proof {
                lemma_cache_request_frame(DirModel { queued: d.queued.remove(i as int), ..d }, out, line, next);
            }
        }
        Ok(progressed)
    }

    /// Release the requests held behind a barrier while no barrier is
    /// active; lines they free go to `ready`. Says whether any was released.
    fn replay_blocked(&mut self, sent: &mut Vec<CoherenceMessage>, ready: &mut VecDeque<u64>, already: bool) -> (result: Result<
        bool,
        ModelError,
    >)
        requires
            old(self).wf(),
        ensures
            match replay_blocked(old(self)@, old(sent)@, old(ready)@, already) {
                Ok((d, out, lines, p)) => result == Ok::<bool, ModelError>(p) && final(self)@ == d && final(sent)@ == out
                    && final(ready)@ == lines && final(self).wf(),
                Err(e) => result == Err::<bool, ModelError>(e),
            },
    {
        let ghost expected = replay_blocked(old(self)@, old(sent)@, old(ready)@, already);
        let mut progressed = already;
        loop
            invariant
                self.wf(),
                expected == replay_blocked(old(self)@, old(sent)@, old(ready)@, already),
                expected == replay_blocked(self@, sent@, ready@, progressed),
            decreases weight(self@),
        {
            if self.active_barrier.is_some() {
                return Ok(progressed);
            }
            let ghost d = self@;
            let ghost out = sent@;
            let request = match self.blocked.pop_front() {
                Some(r) => r,
                None => return Ok(progressed),
            };
            proof {
                assert(self@.blocked =~= d.blocked.drop_first());
                assert(msg_ok(d.blocked[0]));
                assert(self@ == (DirModel { blocked: d.blocked.drop_first(), ..d }));
                lemma_rx_access_weight(self@, out, request);
            }
            let freed = match self.rx_access(sent, request) {
                Ok(f) => f,
                Err(e) => return Err(e),
            };
            match freed {
                Some(l) => ready.push_back(l),
                None => {},
            }
            progressed = true;
        }
    }

    /// Serve ready lines, release held requests and complete the barrier,
    /// again and again while any of these makes progress.
    fn progress(&mut self, sent: &mut Vec<CoherenceMessage>, ready: &mut VecDeque<u64>) -> (result: Result<(), ModelError>)
        requires
            old(self).wf(),
        ensures
            match progress(old(self)@, old(sent)@, old(ready)@) {
                Ok((d, out)) => result is Ok && final(self)@ == d && final(sent)@ == out && final(self).wf(),
                Err(e) => result == Err::<(), ModelError>(e),
            },
    {
        let ghost expected = progress(old(self)@, old(sent)@, old(ready)@);
        loop
            invariant
                self.wf(),
                expected == progress(old(self)@, old(sent)@, old(ready)@),
                expected == progress(self@, sent@, ready@),
            decreases weight(self@),
        {
            let ghost d = self@;
            let ghost out = sent@;
            let ghost lines = ready@;
            let drained = match self.drain_ready(sent, ready) {
                Ok(p) => p,
                Err(e) => return Err(e),
            };
            let ghost d1 = self@;
            let ghost out1 = sent@;
            let mut released: VecDeque<u64> = VecDeque::new();
            assert(released@ =~= Seq::<u64>::empty());
            let replayed = match self.replay_blocked(sent, &mut released, drained) {
                Ok(p) => p,
                Err(e) => return Err(e),
            };
            let ghost d2 = self@;
            let ghost out2 = sent@;
            let completed = match self.try_complete_barrier(sent) {
                Ok(c) => c,
                Err(e) => return Err(e),
            };
            if !(replayed || completed) {
                return Ok(());
            }
            proof {
                lemma_drain_weight(d, out, lines, false);
                lemma_replay_weight(d1, out1, Seq::empty(), drained);
                lemma_try_barrier_frame(d2, out2);
            }
            *ready = released;
        }
    }

    /// Handle one message that reaches the manager; gives the messages to
    /// send, in order.
    pub fn handle_message(&mut self, access: CoherenceMessage) -> (result: Result<Vec<CoherenceMessage>, ModelError>)
        requires
            old(self).wf(),
            msg_ok(access),
        ensures
            match handle_message(old(self)@, access) {
                Ok((d, out)) => (result matches Ok(sent) && sent@ == out) && final(self)@ == d && final(self).wf(),
                Err(e) => result == Err::<Vec<CoherenceMessage>, ModelError>(e),
            },
    {
        let mut sent: Vec<CoherenceMessage> = Vec::new();
        assert(sent@ =~= Seq::<CoherenceMessage>::empty());
        let first = if self.is_memory_response(access) {
            self.mem_response(&mut sent, access)
        } else {
            self.rx_access(&mut sent, access)
        };
        let freed = match first {
            Ok(f) => f,
            Err(e) => return Err(e),
        };
        let mut ready: VecDeque<u64> = VecDeque::new();
        match freed {
            Some(l) => ready.push_back(l),
            None => {},
        }
        proof {
            match freed {
                Some(l) => assert(ready@ =~= seq![l]),
                None => assert(ready@ =~= Seq::<u64>::empty()),
            }
        }
        match self.progress(&mut sent, &mut ready) {
            Ok(()) => Ok(sent),
            Err(e) => Err(e),
        }
    }
}

} // verus!

verus! {

/// A line with an owner has no sharers.
pub open spec fn entry_single_owner(e: EntryModel) -> bool {
    e.owner is Some ==> e.sharers.len() == 0
}

/// No line of the directory has both an owner and sharers.
pub open spec fn single_owner(d: DirModel) -> bool {
    forall|i: int| 0 <= i < d.entries.len() ==> entry_single_owner(#[trigger] d.entries[i].1)
}

/// `out2` is `out` with messages appended.
pub open spec fn extends(out: Seq<CoherenceMessage>, out2: Seq<CoherenceMessage>) -> bool {
    out.len() <= out2.len() && out2.subrange(0, out.len() as int) == out
}

proof fn lemma_entry_of_single_owner(d: DirModel, line: u64)
    requires
        single_owner(d),
    ensures
        entry_single_owner(entry_of(d, line)),
{
    lemma_first_key_bound(d.entries, line, d.entries.len());
}

proof fn lemma_with_entry_single_owner(d: DirModel, line: u64, e: EntryModel)
    requires
        single_owner(d),
        entry_single_owner(e),
    ensures
        single_owner(with_entry(d, line, e)),
{
    lemma_first_key_bound(d.entries, line, d.entries.len());
}

proof fn lemma_extends_push(out: Seq<CoherenceMessage>, m: CoherenceMessage)
    ensures
        extends(out, out.push(m)),
{
    assert(out.push(m).subrange(0, out.len() as int) =~= out);
}

proof fn lemma_extends_append(out: Seq<CoherenceMessage>, more: Seq<CoherenceMessage>)
    ensures
        extends(out, out + more),
{
    assert((out + more).subrange(0, out.len() as int) =~= out);
}

proof fn lemma_extends_trans(a: Seq<CoherenceMessage>, b: Seq<CoherenceMessage>, c: Seq<CoherenceMessage>)
    requires
        extends(a, b),
        extends(b, c),
    ensures
        extends(a, c),
{
    assert(c.subrange(0, a.len() as int) =~= b.subrange(0, a.len() as int));
}

/// Removing a device from no devices leaves none.
proof fn lemma_without_empty(s: Seq<DeviceId>, x: DeviceId)
    requires
        s.len() == 0,
    ensures
        seq_without(s, x).len() == 0,
{
}

/// What a handler gives keeps lines with an owner free of sharers, and
/// only appends messages.
pub open spec fn handler_keeps(d: DirModel, out: Seq<CoherenceMessage>, r: Result<Handled, ModelError>) -> bool {
    r matches Ok((d2, out2, _)) ==> (single_owner(d) ==> single_owner(d2)) && extends(out, out2)
}

proof fn lemma_issue_read_keeps(d: DirModel, out: Seq<CoherenceMessage>, access: CoherenceMessage)
    ensures
        handler_keeps(d, out, issue_read(d, out, access)),
{
    if let Ok(memory) = resolve(d, access.dst_addr, access.access_size_bytes) {
        lemma_extends_push(out, forward_msg(access, memory, d.device_id));
    }
}

proof fn lemma_grant_exclusive_keeps(d: DirModel, out: Seq<CoherenceMessage>, line: u64, access: CoherenceMessage)
    ensures
        handler_keeps(d, out, grant_exclusive(d, out, line, access)),
{
    let e = entry_of(d, line);
    if single_owner(d) {
        lemma_with_entry_single_owner(d, line, EntryModel { sharers: Seq::empty(), owner: Some(access.src_device), ..e });
    }
    lemma_extends_push(out, grant_exclusive_msg(access, d.device_id));
}

proof fn lemma_cache_request_keeps(d: DirModel, out: Seq<CoherenceMessage>, line: u64, access: CoherenceMessage)
    ensures
        handler_keeps(d, out, cache_request(d, out, line, access)),
{
    let e = entry_of(d, line);
    if single_owner(d) {
        lemma_entry_of_single_owner(d, line);
        lemma_with_entry_single_owner(d, line, EntryModel { waiting: Some(WaitModel::ReadResponse { request: access }), ..e });
        match e.owner {
            Some(o) => {
                lemma_with_entry_single_owner(
                    d,
                    line,
                    EntryModel { waiting: Some(WaitModel::Invalidations { request: access, waiting_for: seq![o] }), ..e },
                );
            },
            None => {},
        }
        let upgraded = CoherenceMessage { coherence_op: Some(CoherenceOp::ExclusiveWrite), ..access };
        lemma_with_entry_single_owner(
            d,
            line,
            EntryModel {
                waiting: Some(WaitModel::Invalidations { request: access, waiting_for: exclusive_targets(e, access.src_device) }),
                ..e
            },
        );
        lemma_with_entry_single_owner(
            d,
            line,
            EntryModel {
                waiting: Some(WaitModel::Invalidations { request: upgraded, waiting_for: exclusive_targets(e, upgraded.src_device) }),
                ..e
            },
        );
    }
    let with_read = with_entry(d, line, EntryModel { waiting: Some(WaitModel::ReadResponse { request: access }), ..e });
    lemma_issue_read_keeps(with_read, out, access);
    lemma_issue_read_keeps(d, out, access);
    lemma_grant_exclusive_keeps(d, out, line, access);
    lemma_grant_exclusive_keeps(d, out, line, CoherenceMessage { coherence_op: Some(CoherenceOp::ExclusiveWrite), ..access });
    lemma_extends_append(out, invalidate_msgs(access, exclusive_targets(e, access.src_device), d.device_id));
    lemma_extends_append(
        out,
        invalidate_msgs(
            CoherenceMessage { coherence_op: Some(CoherenceOp::ExclusiveWrite), ..access },
            exclusive_targets(e, access.src_device),
            d.device_id,
        ),
    );
    match e.owner {
        Some(o) => lemma_extends_push(out, invalidate_msg(access, o, d.device_id)),
        None => {},
    }
    if let Ok(memory) = resolve(d, access.dst_addr, access.access_size_bytes) {
        lemma_extends_push(out, forward_msg(access, memory, d.device_id));
    }
}

proof fn lemma_invalidate_ack_keeps(d: DirModel, out: Seq<CoherenceMessage>, line: u64, ack: CoherenceMessage)
    ensures
        handler_keeps(d, out, invalidate_ack(d, out, line, ack)),
{
    let e = entry_of(d, line);
    let src = ack.src_device;
    if let Some(WaitModel::Invalidations { request, waiting_for }) = e.waiting {
        let rest = seq_without(waiting_for, src);
        let e1 = EntryModel { sharers: seq_without(e.sharers, src), owner: None, waiting: None };
        let d1 = with_entry(d, line, e1);
        let e2 = EntryModel { waiting: Some(WaitModel::ReadResponse { request }), ..e1 };
        if single_owner(d) {
            lemma_entry_of_single_owner(d, line);
            lemma_with_entry_single_owner(d, line, e1);
            lemma_with_entry_single_owner(d1, line, e2);
            if e.owner is Some {
                lemma_without_empty(e.sharers, src);
            }
            lemma_with_entry_single_owner(
                d,
                line,
                EntryModel {
                    sharers: seq_without(e.sharers, src),
                    owner: if e.owner == Some(src) {
                        None
                    } else {
                        e.owner
                    },
                    waiting: Some(WaitModel::Invalidations { request, waiting_for: rest }),
                },
            );
        }
        lemma_issue_read_keeps(with_entry(d1, line, e2), out, request);
        lemma_grant_exclusive_keeps(d1, out, line, request);
        assert(extends(out, out)) by {
            assert(out.subrange(0, out.len() as int) =~= out);
        }
    }
}

proof fn lemma_try_barrier_keeps(d: DirModel, out: Seq<CoherenceMessage>)
    ensures
        try_complete_barrier(d, out) matches Ok((d2, out2, _)) ==> (single_owner(d) ==> single_owner(d2)) && extends(out, out2),
{
    assert(out.subrange(0, out.len() as int) =~= out);
    if let Some(b) = d.barrier {
        if let Ok(r) = response_of(b) {
            lemma_extends_push(out, r);
        }
    }
}

proof fn lemma_rx_access_keeps(d: DirModel, out: Seq<CoherenceMessage>, access: CoherenceMessage)
    ensures
        handler_keeps(d, out, rx_access(d, out, access)),
{
    assert(out.subrange(0, out.len() as int) =~= out);
    lemma_try_barrier_keeps(DirModel { barrier: Some(access), ..d }, out);
    let line = line_of(d, access.dst_addr);
    lemma_invalidate_ack_keeps(d, out, line, access);
    lemma_cache_request_keeps(d, out, line, access);
}

proof fn lemma_mem_response_keeps(d: DirModel, out: Seq<CoherenceMessage>, response: CoherenceMessage)
    ensures
        handler_keeps(d, out, mem_response(d, out, response)),
{
    let line = line_of(d, response.dst_addr);
    let e = entry_of(d, line);
    if let Some(WaitModel::ReadResponse { request }) = e.waiting {
        if single_owner(d) {
            lemma_with_entry_single_owner(d, line, EntryModel { sharers: seq_with(e.sharers, request.src_device), owner: None, waiting: None });
        }
        lemma_extends_push(out, grant_shared_msg(response, request, d.device_id));
    }
}

proof fn lemma_drain_keeps(d: DirModel, out: Seq<CoherenceMessage>, ready: Seq<u64>, progressed: bool)
    ensures
        drain_ready(d, out, ready, progressed) matches Ok((d2, out2, _)) ==> (single_owner(d) ==> single_owner(d2)) && extends(
            out,
            out2,
        ),
    decreases weight(d), ready.len(),
{
    assert(out.subrange(0, out.len() as int) =~= out);
    if ready.len() > 0 {
        let line = ready[0];
        let rest = ready.drop_first();
        if entry_of(d, line).waiting is Some {
            lemma_drain_keeps(d, out, rest, progressed);
        } else {
            match first_key(d.queued, line, d.queued.len()) {
                None => lemma_drain_keeps(d, out, rest, progressed),
                Some(i) => {
                    let next = d.queued[i as int].1;
                    let d1 = DirModel { queued: d.queued.remove(i as int), ..d };
                    lemma_first_key_bound(d.queued, line, d.queued.len());
                    lemma_cache_request_frame(d1, out, line, next);
                    lemma_cache_request_keeps(d1, out, line, next);
                    if let Ok((d2, out2, freed)) = cache_request(d1, out, line, next) {
                        let rest2 = match freed {
                            Some(l) => rest.push(l),
                            None => rest,
                        };
                        lemma_try_barrier_frame(d2, out2);
                        lemma_try_barrier_keeps(d2, out2);
                        if let Ok((d3, out3, _)) = try_complete_barrier(d2, out2) {
                            lemma_drain_keeps(d3, out3, rest2, true);
                            lemma_extends_trans(out, out2, out3);
                            if let Ok((_, out4, _)) = drain_ready(d3, out3, rest2, true) {
                                lemma_extends_trans(out, out3, out4);
                            }
                        }
                    }
                },
            }
        }
    }
}

proof fn lemma_replay_keeps(d: DirModel, out: Seq<CoherenceMessage>, ready: Seq<u64>, progressed: bool)
    ensures
        replay_blocked(d, out, ready, progressed) matches Ok((d2, out2, _, _)) ==> (single_owner(d) ==> single_owner(d2))
            && extends(out, out2),
    decreases weight(d),
{
    assert(out.subrange(0, out.len() as int) =~= out);
    if !(d.barrier is Some || d.blocked.len() == 0) {
        let request = d.blocked[0];
        let d1 = DirModel { blocked: d.blocked.drop_first(), ..d };
        lemma_rx_access_weight(d1, out, request);
        lemma_rx_access_keeps(d1, out, request);
        if let Ok((d2, out2, freed)) = rx_access(d1, out, request) {
            let lines = match freed {
                Some(l) => ready.push(l),
                None => ready,
            };
            lemma_replay_keeps(d2, out2, lines, true);
            if let Ok((_, out3, _, _)) = replay_blocked(d2, out2, lines, true) {
                lemma_extends_trans(out, out2, out3);
            }
        }
    }
}

proof fn lemma_progress_keeps(d: DirModel, out: Seq<CoherenceMessage>, ready: Seq<u64>)
    ensures
        progress(d, out, ready) matches Ok((d2, out2)) ==> (single_owner(d) ==> single_owner(d2)) && extends(out, out2),
    decreases weight(d),
{
    lemma_drain_keeps(d, out, ready, false);
    if let Ok((d1, out1, p1)) = drain_ready(d, out, ready, false) {
        lemma_replay_keeps(d1, out1, Seq::empty(), p1);
        if let Ok((d2, out2, ready2, p2)) = replay_blocked(d1, out1, Seq::empty(), p1) {
            lemma_extends_trans(out, out1, out2);
            lemma_try_barrier_keeps(d2, out2);
            if let Ok((d3, out3, done)) = try_complete_barrier(d2, out2) {
                lemma_extends_trans(out, out2, out3);
                if p2 || done {
                    lemma_drain_weight(d, out, ready, false);
                    lemma_replay_weight(d1, out1, Seq::empty(), p1);
                    lemma_try_barrier_frame(d2, out2);
                    lemma_progress_keeps(d3, out3, ready2);
                    if let Ok((_, out4)) = progress(d3, out3, ready2) {
                        lemma_extends_trans(out, out3, out4);
                    }
                }
            }
        }
    }
}

/// Single owner or many readers: handling any message keeps every line
/// that has an owner free of sharers.
pub proof fn lemma_handle_message_keeps_single_owner(d: DirModel, access: CoherenceMessage)
    requires
        single_owner(d),
    ensures
        handle_message(d, access) matches Ok((d2, _)) ==> single_owner(d2),
{
    lemma_mem_response_keeps(d, Seq::empty(), access);
    lemma_rx_access_keeps(d, Seq::empty(), access);
    let first = if is_memory_response(d, access) {
        mem_response(d, Seq::empty(), access)
    } else {
        rx_access(d, Seq::empty(), access)
    };
    if let Ok((d1, out1, freed)) = first {
        lemma_progress_keeps(
            d1,
            out1,
            match freed {
                Some(l) => seq![l],
                None => Seq::empty(),
            },
        );
    }
}

/// A barrier that reaches a manager with no active barrier and nothing
/// outstanding is answered at once: its response is the first message
/// sent.
pub proof fn lemma_idle_barrier_answered_first(d: DirModel, barrier: CoherenceMessage)
    requires
        barrier.access_type == AccessKind::BarrierRequest,
        d.barrier is None,
        !has_outstanding_work(d),
    ensures
        handle_message(d, barrier) matches Ok((_, out)) ==> out.len() >= 1 && response_of(barrier) == Ok::<
            CoherenceMessage,
            ModelError,
        >(out[0]),
{
    let d0 = DirModel { barrier: Some(barrier), ..d };
    assert(!has_outstanding_work(d0));
    let response = response_of(barrier)->Ok_0;
    assert(try_complete_barrier(d0, Seq::empty()) == Ok::<(DirModel, Seq<CoherenceMessage>, bool), ModelError>(
        (DirModel { barrier: None, ..d0 }, seq![response], true),
    ));
    let d1 = DirModel { barrier: None, ..d0 };
    assert(!is_memory_response(d, barrier));
    assert(rx_access(d, Seq::empty(), barrier) == Ok::<Handled, ModelError>((d1, seq![response], None)));
    assert(handle_message(d, barrier) == progress(d1, seq![response], Seq::empty()));
    lemma_progress_keeps(d1, seq![response], Seq::empty());
    if let Ok((_, out)) = progress(d1, seq![response], Seq::empty()) {
        assert(out.subrange(0, 1)[0] == out[0]);
    }
}

/// What the directory knows of a line after it is replaced is the
/// replacement.
proof fn lemma_entry_of_with_entry(d: DirModel, line: u64, e: EntryModel)
    ensures
        entry_of(with_entry(d, line, e), line) == e,
{
    lemma_first_key_bound(d.entries, line, d.entries.len());
    lemma_first_key_minimal(d.entries, line, d.entries.len());
    let d1 = with_entry(d, line, e);
    match first_key(d.entries, line, d.entries.len()) {
        Some(i) => {
            assert forall|j: int| 0 <= j < i implies (#[trigger] d1.entries[j]).0 != line by {
                assert(d1.entries[j] == d.entries[j]);
            }
            lemma_first_key_found(d1.entries, line, i as nat, d1.entries.len());
        },
        None => {
            assert forall|j: int| 0 <= j < d.entries.len() implies (#[trigger] d1.entries[j]).0 != line by {
                assert(d1.entries[j] == d.entries[j]);
            }
            lemma_first_key_found(d1.entries, line, d.entries.len(), d1.entries.len());
        },
    }
}

/// No pair before the position found has the key; where none is found, no
/// pair among the first `k` has it.
proof fn lemma_first_key_minimal<T>(s: Seq<(u64, T)>, key: u64, k: nat)
    ensures
        match first_key(s, key, k) {
            Some(i) => forall|j: int| 0 <= j < i ==> (#[trigger] s[j]).0 != key,
            None => forall|j: int| 0 <= j < k ==> (#[trigger] s[j]).0 != key,
        },
    decreases k,
{
    if k > 0 {
        lemma_first_key_minimal(s, key, (k - 1) as nat);
    }
}

/// Where every pair before position `i` has another key and pair `i` has
/// `key`, the search finds `i`.
proof fn lemma_first_key_found<T>(s: Seq<(u64, T)>, key: u64, i: nat, k: nat)
    requires
        i < k <= s.len(),
        s[i as int].0 == key,
        forall|j: int| 0 <= j < i ==> (#[trigger] s[j]).0 != key,
    ensures
        first_key(s, key, k) == Some(i),
    decreases k,
{
    if k > i + 1 {
        lemma_first_key_found(s, key, i, (k - 1) as nat);
    } else {
        lemma_first_key_none(s, key, i);
    }
}

/// Where no pair among the first `k` has `key`, the search finds none.
proof fn lemma_first_key_none<T>(s: Seq<(u64, T)>, key: u64, k: nat)
    requires
        k <= s.len(),
        forall|j: int| 0 <= j < k ==> (#[trigger] s[j]).0 != key,
    ensures
        first_key(s, key, k) is None,
    decreases k,
{
    if k > 0 {
        lemma_first_key_none(s, key, (k - 1) as nat);
    }
}

/// A device kept by `seq_without` other than the one removed stays.
proof fn lemma_seq_without_keeps(s: Seq<DeviceId>, x: DeviceId, y: DeviceId)
    requires
        s.contains(y),
        y != x,
    ensures
        seq_without(s, x).contains(y),
    decreases s.len(),
{
    let rest = seq_without(s.drop_last(), x);
    if s.last() == y {
        assert(seq_without(s, x) == rest.push(y));
        assert(seq_without(s, x)[rest.len() as int] == y);
    } else {
        let i = choose|i: int| 0 <= i < s.len() && s[i] == y;
        assert(s.drop_last()[i] == y);
        lemma_seq_without_keeps(s.drop_last(), x, y);
        let j = choose|j: int| 0 <= j < rest.len() && rest[j] == y;
        if s.last() != x {
            assert(seq_without(s, x)[j] == y);
        }
    }
}

/// A device added by `seq_with` is held afterwards.
proof fn lemma_seq_with_holds(s: Seq<DeviceId>, x: DeviceId)
    ensures
        seq_with(s, x).contains(x),
{
    lemma_first_at_least_bound(s, x, s.len());
    let i = first_at_least(s, x, s.len());
    if i < s.len() && s[i as int] == x {
    } else {
        assert(s.insert(i as int, x)[i as int] == x);
    }
}

/// A device kept by `seq_with` stays.
proof fn lemma_seq_with_keeps(s: Seq<DeviceId>, x: DeviceId, y: DeviceId)
    requires
        s.contains(y),
    ensures
        seq_with(s, x).contains(y),
{
    lemma_first_at_least_bound(s, x, s.len());
    let i = first_at_least(s, x, s.len());
    if !(i < s.len() && s[i as int] == x) {
        let k = choose|k: int| 0 <= k < s.len() && s[k] == y;
        if k < i {
            assert(s.insert(i as int, x)[k] == y);
        } else {
            assert(s.insert(i as int, x)[k + 1] == y);
        }
    }
}

/// A cache other than `requester` that holds the line: its owner or one of
/// its sharers.
pub open spec fn other_holder(e: EntryModel, requester: DeviceId, x: DeviceId) -> bool {
    x != requester && (e.owner == Some(x) || e.sharers.contains(x))
}

/// An exclusive write to a line that another cache holds, as owner or
/// sharer, is not granted at once: every such holder is sent an invalidate
/// of the line, no grant of exclusive ownership goes out, nothing is freed,
/// and the line then waits for an ack from each of them.
pub proof fn lemma_exclusive_write_invalidates_holders(
    d: DirModel,
    out: Seq<CoherenceMessage>,
    line: u64,
    access: CoherenceMessage,
    holder: DeviceId,
)
    requires
        other_holder(entry_of(d, line), access.src_device, holder),
    ensures
        exclusive_write(d, out, line, access) matches Ok((d1, out1, freed)) && {
            &&& extends(out, out1)
            &&& forall|x: DeviceId|
                #![trigger other_holder(entry_of(d, line), access.src_device, x)]
                other_holder(entry_of(d, line), access.src_device, x) ==> exists|i: int|
                    out.len() <= i < out1.len() && (#[trigger] out1[i]).dst_device == x && out1[i].access_type
                        == AccessKind::Control && out1[i].coherence_op == Some(CoherenceOp::Invalidate) && out1[i].dst_addr
                        == access.dst_addr
            &&& forall|i: int| out.len() <= i < out1.len() ==> (#[trigger] out1[i]).coherence_op != Some(CoherenceOp::GrantExclusive)
            &&& freed is None
            &&& entry_of(d1, line).waiting matches Some(WaitModel::Invalidations { waiting_for, .. }) && forall|x: DeviceId|
                #![trigger other_holder(entry_of(d, line), access.src_device, x)]
                other_holder(entry_of(d, line), access.src_device, x) ==> waiting_for.contains(x)
        },
{
    let e = entry_of(d, line);
    let r = access.src_device;
    let others = seq_without(e.sharers, r);
    let targets = exclusive_targets(e, r);
    assert forall|x: DeviceId| #![trigger other_holder(e, r, x)] other_holder(e, r, x) implies targets.contains(x) by {
        if e.sharers.contains(x) {
            lemma_seq_without_keeps(e.sharers, r, x);
            if let Some(o) = e.owner {
                if o != r {
                    lemma_seq_with_keeps(others, o, x);
                }
            }
        } else {
            lemma_seq_with_holds(others, x);
        }
    }
    assert(targets.contains(holder));
    let msgs = invalidate_msgs(access, targets, d.device_id);
    let out1 = out + msgs;
    lemma_extends_append(out, msgs);
    assert forall|x: DeviceId| #![trigger other_holder(e, r, x)] other_holder(e, r, x) implies exists|i: int|
        out.len() <= i < out1.len() && (#[trigger] out1[i]).dst_device == x && out1[i].access_type == AccessKind::Control
            && out1[i].coherence_op == Some(CoherenceOp::Invalidate) && out1[i].dst_addr == access.dst_addr by {
        let k = choose|k: int| 0 <= k < targets.len() && targets[k] == x;
        assert(out1[out.len() + k] == invalidate_msg(access, x, d.device_id));
    }
    assert forall|i: int| out.len() <= i < out1.len() implies (#[trigger] out1[i]).coherence_op != Some(CoherenceOp::GrantExclusive) by {
        assert(out1[i] == msgs[i - out.len()]);
    }
    let e1 = EntryModel { waiting: Some(WaitModel::Invalidations { request: access, waiting_for: targets }), ..e };
    lemma_entry_of_with_entry(d, line, e1);
}

/// An exclusive write to a line that no other cache holds is granted at
/// once: the requester is sent the grant, becomes the line's only holder,
/// and the line is freed.
pub proof fn lemma_exclusive_write_granted_when_alone(d: DirModel, out: Seq<CoherenceMessage>, line: u64, access: CoherenceMessage)
    requires
        forall|x: DeviceId| !#[trigger] other_holder(entry_of(d, line), access.src_device, x),
    ensures
        exclusive_write(d, out, line, access) matches Ok((d1, out1, freed)) && {
            &&& out1.len() == out.len() + 1 && extends(out, out1)
            &&& out1.last().dst_device == access.src_device && out1.last().access_type == AccessKind::Control
                && out1.last().coherence_op == Some(CoherenceOp::GrantExclusive)
            &&& entry_of(d1, line).owner == Some(access.src_device) && entry_of(d1, line).sharers.len() == 0
            &&& freed == Some(line)
        },
{
    let e = entry_of(d, line);
    let r = access.src_device;
    let targets = exclusive_targets(e, r);
    if targets.len() > 0 {
        let x = targets[0];
        assert(targets.contains(x));
        lemma_targets_are_holders(e, r, x);
        assert(other_holder(e, r, x));
    }
    lemma_extends_push(out, grant_exclusive_msg(access, d.device_id));
    lemma_entry_of_with_entry(d, line, EntryModel { sharers: Seq::empty(), owner: Some(r), ..e });
}

/// A device kept by `seq_without` was in the sequence and is not the one
/// removed.
proof fn lemma_seq_without_from(s: Seq<DeviceId>, x: DeviceId, y: DeviceId)
    requires
        seq_without(s, x).contains(y),
    ensures
        s.contains(y),
        y != x,
    decreases s.len(),
{
    let rest = seq_without(s.drop_last(), x);
    if s.len() > 0 {
        let k = choose|k: int| 0 <= k < seq_without(s, x).len() && seq_without(s, x)[k] == y;
        if k < rest.len() {
            assert(rest.contains(y));
            lemma_seq_without_from(s.drop_last(), x, y);
            let j = choose|j: int| 0 <= j < s.drop_last().len() && s.drop_last()[j] == y;
            assert(s[j] == y);
        } else {
            assert(s[s.len() - 1] == y);
        }
    }
}

/// A device added by `seq_with` is the one added or was there already.
proof fn lemma_seq_with_from(s: Seq<DeviceId>, x: DeviceId, y: DeviceId)
    requires
        seq_with(s, x).contains(y),
    ensures
        y == x || s.contains(y),
{
    lemma_first_at_least_bound(s, x, s.len());
    let i = first_at_least(s, x, s.len());
    if !(i < s.len() && s[i as int] == x) {
        let k = choose|k: int| 0 <= k < s.insert(i as int, x).len() && s.insert(i as int, x)[k] == y;
        if k < i {
            assert(s[k] == y);
        } else if k > i {
            assert(s[k - 1] == y);
        }
    }
}

/// The caches an exclusive write invalidates hold the line.
proof fn lemma_targets_are_holders(e: EntryModel, r: DeviceId, x: DeviceId)
    requires
        exclusive_targets(e, r).contains(x),
    ensures
        other_holder(e, r, x),
{
    let others = seq_without(e.sharers, r);
    match e.owner {
        Some(o) if o != r => {
            lemma_seq_with_from(others, o, x);
            if x != o {
                lemma_seq_without_from(e.sharers, r, x);
            }
        },
        _ => {
            lemma_seq_without_from(e.sharers, r, x);
        },
    }
}

/// An ack from any device other than one the line still waits for grants
/// nothing: no message is sent, and the line keeps waiting for that device.
pub proof fn lemma_no_grant_before_awaited_ack(
    d: DirModel,
    out: Seq<CoherenceMessage>,
    line: u64,
    ack: CoherenceMessage,
    awaited: DeviceId,
)
    requires
        entry_of(d, line).waiting matches Some(WaitModel::Invalidations { waiting_for, .. }) && waiting_for.contains(awaited),
        awaited != ack.src_device,
    ensures
        invalidate_ack(d, out, line, ack) matches Ok((d1, out1, freed)) && out1 == out && freed is None && (entry_of(
            d1,
            line,
        ).waiting matches Some(WaitModel::Invalidations { waiting_for, .. }) && waiting_for.contains(awaited)),
{
    let e = entry_of(d, line);
    if let Some(WaitModel::Invalidations { request, waiting_for }) = e.waiting {
        let rest = seq_without(waiting_for, ack.src_device);
        lemma_seq_without_keeps(waiting_for, ack.src_device, awaited);
        assert(rest.len() > 0);
        let e1 = EntryModel {
            sharers: seq_without(e.sharers, ack.src_device),
            owner: if e.owner == Some(ack.src_device) {
                None
            } else {
                e.owner
            },
            waiting: Some(WaitModel::Invalidations { request, waiting_for: rest }),
        };
        lemma_entry_of_with_entry(d, line, e1);
    }
}

} // verus!

verus! {

/// Whether a message of this kind carries its payload.
pub open spec fn carries_payload(kind: AccessKind) -> bool {
    kind == AccessKind::WriteRequest || kind == AccessKind::WriteNonPostedRequest || kind == AccessKind::ReadResponse
}

/// The bytes a message occupies on a link: its overhead, and its payload
/// when it carries one.
pub open spec fn total_bytes_of(m: CoherenceMessage) -> int {
    if carries_payload(m.access_type) {
        m.access_size_bytes + m.overhead_size_bytes
    } else {
        m.overhead_size_bytes as int
    }
}

impl CoherenceMessage {
    /// The answer to this request, back to where it came from.
    pub fn to_response(&self) -> (result: Result<CoherenceMessage, ModelError>)
        ensures
            result == response_of(*self),
    {
        response_to(*self)
    }

    /// The bytes the message occupies on a link.
    pub fn total_bytes(&self) -> (n: usize)
        requires
            total_bytes_of(*self) <= usize::MAX,
        ensures
            n == total_bytes_of(*self),
    {
        match self.access_type {
            AccessKind::WriteRequest | AccessKind::WriteNonPostedRequest | AccessKind::ReadResponse => self.access_size_bytes
                + self.overhead_size_bytes,
            _ => self.overhead_size_bytes,
        }
    }
}

} // verus!
