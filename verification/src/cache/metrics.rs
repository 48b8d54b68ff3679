//! What a cache counts: payload bytes, hits and misses, and coherence
//! operations.
use vstd::prelude::*;

use crate::cache::coherency_manager::{CoherenceOpMetrics, op_count_of, with_op};
use crate::cache::contents::AccessKind;
use crate::cache::controller::CacheEvent;

verus! {

/// The statistics of a cache.
#[derive(Clone, Copy, Debug, Default, PartialEq, Eq, Structural)]
pub struct CacheMetrics {
    pub payload_bytes_read: usize,
    pub payload_bytes_written: usize,
    pub num_read_hits: usize,
    pub num_read_pending_hits: usize,
    pub num_read_misses: usize,
    pub num_write_hits: usize,
    pub num_write_pending_hits: usize,
    pub num_write_misses: usize,
    pub coherence_ops_sent: CoherenceOpMetrics,
    pub coherence_ops_received: CoherenceOpMetrics,
}

/// A completed access of this kind writes its payload.
pub open spec fn writes_payload(kind: AccessKind) -> bool {
    kind == AccessKind::WriteRequest || kind == AccessKind::WriteNonPostedRequest
}

/// Counting the event keeps every count within `usize`.
pub open spec fn can_record(m: CacheMetrics, e: CacheEvent) -> bool {
    match e {
        CacheEvent::PayloadRead { bytes } => m.payload_bytes_read + bytes <= usize::MAX,
        CacheEvent::CompletedWrite { access_type, bytes } => writes_payload(access_type) ==> m.payload_bytes_written + bytes
            <= usize::MAX,
        CacheEvent::ReadHit => m.num_read_hits < usize::MAX,
        CacheEvent::ReadPendingHit => m.num_read_pending_hits < usize::MAX,
        CacheEvent::ReadMiss => m.num_read_misses < usize::MAX,
        CacheEvent::WriteHit => m.num_write_hits < usize::MAX,
        CacheEvent::WritePendingHit => m.num_write_pending_hits < usize::MAX,
        CacheEvent::WriteMiss => m.num_write_misses < usize::MAX,
        CacheEvent::SentOp { op } => op matches Some(o) ==> op_count_of(m.coherence_ops_sent, o) < usize::MAX,
        CacheEvent::ReceivedOp { op } => op matches Some(o) ==> op_count_of(m.coherence_ops_received, o) < usize::MAX,
    }
}

/// The statistics after counting the event.
pub open spec fn recorded(m: CacheMetrics, e: CacheEvent) -> CacheMetrics {
    match e {
        CacheEvent::PayloadRead { bytes } => CacheMetrics { payload_bytes_read: (m.payload_bytes_read + bytes) as usize, ..m },
        CacheEvent::CompletedWrite { access_type, bytes } => if writes_payload(access_type) {
            CacheMetrics { payload_bytes_written: (m.payload_bytes_written + bytes) as usize, ..m }
        } else {
            m
        },
        CacheEvent::ReadHit => CacheMetrics { num_read_hits: (m.num_read_hits + 1) as usize, ..m },
        CacheEvent::ReadPendingHit => CacheMetrics { num_read_pending_hits: (m.num_read_pending_hits + 1) as usize, ..m },
        CacheEvent::ReadMiss => CacheMetrics { num_read_misses: (m.num_read_misses + 1) as usize, ..m },
        CacheEvent::WriteHit => CacheMetrics { num_write_hits: (m.num_write_hits + 1) as usize, ..m },
        CacheEvent::WritePendingHit => CacheMetrics { num_write_pending_hits: (m.num_write_pending_hits + 1) as usize, ..m },
        CacheEvent::WriteMiss => CacheMetrics { num_write_misses: (m.num_write_misses + 1) as usize, ..m },
        CacheEvent::SentOp { op } => match op {
            Some(o) => CacheMetrics { coherence_ops_sent: with_op(m.coherence_ops_sent, o), ..m },
            None => m,
        },
        CacheEvent::ReceivedOp { op } => match op {
            Some(o) => CacheMetrics { coherence_ops_received: with_op(m.coherence_ops_received, o), ..m },
            None => m,
        },
    }
}

/// Hits, counting those that waited on a line being filled.
pub open spec fn hits_of(m: CacheMetrics) -> int {
    m.num_read_hits + m.num_read_pending_hits + m.num_write_hits + m.num_write_pending_hits
}

/// Misses.
pub open spec fn misses_of(m: CacheMetrics) -> int {
    m.num_read_misses + m.num_write_misses
}

impl CacheMetrics {
    /// No access counted yet.
    pub fn new() -> (m: Self)
        ensures
            m.payload_bytes_read == 0 && m.payload_bytes_written == 0 && hits_of(m) == 0 && misses_of(m) == 0,
            m.coherence_ops_sent == (CoherenceOpMetrics {
                shared_read: 0,
                exclusive_write: 0,
                invalidate: 0,
                invalidate_ack: 0,
                grant_shared: 0,
                grant_exclusive: 0,
            }),
            m.coherence_ops_received == m.coherence_ops_sent,
    {
        let ops = CoherenceOpMetrics {
            shared_read: 0,
            exclusive_write: 0,
            invalidate: 0,
            invalidate_ack: 0,
            grant_shared: 0,
            grant_exclusive: 0,
        };
        CacheMetrics {
            payload_bytes_read: 0,
            payload_bytes_written: 0,
            num_read_hits: 0,
            num_read_pending_hits: 0,
            num_read_misses: 0,
            num_write_hits: 0,
            num_write_pending_hits: 0,
            num_write_misses: 0,
            coherence_ops_sent: ops,
            coherence_ops_received: ops,
        }
    }

    /// Count an event.
    pub fn record(&mut self, e: CacheEvent)
        requires
            can_record(*old(self), e),
        ensures
            *final(self) == recorded(*old(self), e),
    {
        match e {
            CacheEvent::PayloadRead { bytes } => self.payload_bytes_read = self.payload_bytes_read + bytes,
            CacheEvent::CompletedWrite { access_type, bytes } => {
                if access_type == AccessKind::WriteRequest || access_type == AccessKind::WriteNonPostedRequest {
                    self.payload_bytes_written = self.payload_bytes_written + bytes;
                }
            },
            CacheEvent::ReadHit => self.num_read_hits = self.num_read_hits + 1,
            CacheEvent::ReadPendingHit => self.num_read_pending_hits = self.num_read_pending_hits + 1,
            CacheEvent::ReadMiss => self.num_read_misses = self.num_read_misses + 1,
            CacheEvent::WriteHit => self.num_write_hits = self.num_write_hits + 1,
            CacheEvent::WritePendingHit => self.num_write_pending_hits = self.num_write_pending_hits + 1,
            CacheEvent::WriteMiss => self.num_write_misses = self.num_write_misses + 1,
            CacheEvent::SentOp { op } => match op {
                Some(o) => self.coherence_ops_sent.record(o),
                None => {},
            },
            CacheEvent::ReceivedOp { op } => match op {
                Some(o) => self.coherence_ops_received.record(o),
                None => {},
            },
        }
    }

    /// Whether counting the event keeps every count within `usize`.
    pub fn can_record(&self, e: CacheEvent) -> (fits: bool)
        ensures
            fits == can_record(*self, e),
    {
        match e {
            CacheEvent::PayloadRead { bytes } => self.payload_bytes_read <= usize::MAX - bytes,
            CacheEvent::CompletedWrite { access_type, bytes } => !(access_type == AccessKind::WriteRequest || access_type
                == AccessKind::WriteNonPostedRequest) || self.payload_bytes_written <= usize::MAX - bytes,
            CacheEvent::ReadHit => self.num_read_hits < usize::MAX,
            CacheEvent::ReadPendingHit => self.num_read_pending_hits < usize::MAX,
            CacheEvent::ReadMiss => self.num_read_misses < usize::MAX,
            CacheEvent::WriteHit => self.num_write_hits < usize::MAX,
            CacheEvent::WritePendingHit => self.num_write_pending_hits < usize::MAX,
            CacheEvent::WriteMiss => self.num_write_misses < usize::MAX,
            CacheEvent::SentOp { op } => match op {
                Some(o) => self.coherence_ops_sent.op_count(o) < usize::MAX,
                None => true,
            },
            CacheEvent::ReceivedOp { op } => match op {
                Some(o) => self.coherence_ops_received.op_count(o) < usize::MAX,
                None => true,
            },
        }
    }

    /// Hits, counting those that waited on a line being filled.
    pub fn num_hits(&self) -> (n: usize)
        requires
            hits_of(*self) <= usize::MAX,
        ensures
            n == hits_of(*self),
    {
        self.num_read_hits + self.num_read_pending_hits + self.num_write_hits + self.num_write_pending_hits
    }

    /// Misses.
    pub fn num_misses(&self) -> (n: usize)
        requires
            misses_of(*self) <= usize::MAX,
        ensures
            n == misses_of(*self),
    {
        self.num_read_misses + self.num_write_misses
    }
}

} // verus!
