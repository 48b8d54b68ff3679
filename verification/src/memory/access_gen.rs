//! The bookkeeping of a generator of memory accesses: every access it sends
//! is expected back exactly once, and the payload of what comes back is
//! counted.
use std::collections::HashSet;

use vstd::prelude::*;

use crate::error::ModelError;

verus! {

broadcast use vstd::std_specs::hash::group_hash_axioms;

/// The identifiers still expected back and the payload bytes received.
pub struct ExpectedModel {
    pub expected: Set<u64>,
    pub payload_bytes: nat,
}

/// Sending an access with identifier `id`: the state afterwards, and
/// whether the identifier was new.
pub open spec fn after_send(m: ExpectedModel, id: u64) -> (ExpectedModel, Result<(), ModelError>) {
    if m.expected.contains(id) {
        (m, Err(ModelError::DuplicateId { id }))
    } else {
        (ExpectedModel { expected: m.expected.insert(id), ..m }, Ok(()))
    }
}

/// Receiving an access with identifier `id` and a payload of `bytes`: the
/// state afterwards, and whether it was expected.
pub open spec fn after_receive(m: ExpectedModel, id: u64, bytes: usize) -> (ExpectedModel, Result<(), ModelError>) {
    if m.expected.contains(id) {
        (ExpectedModel { expected: m.expected.remove(id), payload_bytes: (m.payload_bytes + bytes) as nat }, Ok(()))
    } else {
        (m, Err(ModelError::UnexpectedId { id }))
    }
}

/// The accesses a generator has sent and not yet had back, and the payload
/// bytes of those it has had back.
pub struct ExpectedAccesses {
    expected: HashSet<u64>,
    payload_bytes_received: usize,
}

impl View for ExpectedAccesses {
    type V = ExpectedModel;

    closed spec fn view(&self) -> ExpectedModel {
        ExpectedModel { expected: self.expected@, payload_bytes: self.payload_bytes_received as nat }
    }
}

impl ExpectedAccesses {
    /// Nothing sent and nothing received.
    pub fn new() -> (e: Self)
        ensures
            e@.expected == Set::<u64>::empty(),
            e@.payload_bytes == 0,
    {
        ExpectedAccesses { expected: HashSet::new(), payload_bytes_received: 0 }
    }

    /// Note an access sent; an identifier sent before is refused.
    pub fn send(&mut self, id: u64) -> (result: Result<(), ModelError>)
        ensures
            (final(self)@, result) == after_send(old(self)@, id),
    {
        if self.expected.insert(id) {
            Ok(())
        } else {
            assert(self.expected@ =~= old(self).expected@);
            Err(ModelError::DuplicateId { id })
        }
    }

    /// Note an access received with a payload of `bytes`; one that is not
    /// expected is refused.
    pub fn receive(&mut self, id: u64, bytes: usize) -> (result: Result<(), ModelError>)
        requires
            old(self)@.payload_bytes + bytes <= usize::MAX,
        ensures
            (final(self)@, result) == after_receive(old(self)@, id, bytes),
    {
        if self.expected.remove(&id) {
            self.payload_bytes_received = self.payload_bytes_received + bytes;
            Ok(())
        } else {
            assert(self.expected@ =~= old(self).expected@);
            Err(ModelError::UnexpectedId { id })
        }
    }

    /// Whether an access with this identifier is still expected back.
    pub fn is_expected(&self, id: u64) -> (expected: bool)
        ensures
            expected == self@.expected.contains(id),
    {
        self.expected.contains(&id)
    }

    /// The payload bytes received.
    pub fn payload_bytes_received(&self) -> (n: usize)
        ensures
            n == self@.payload_bytes,
    {
        self.payload_bytes_received
    }
}

/// An access sent with a new identifier is accepted once when it comes
/// back, and counted; the same identifier coming back again is refused.
pub proof fn lemma_each_access_returns_once(m: ExpectedModel, id: u64, bytes: usize, again: usize)
    requires
        !m.expected.contains(id),
    ensures
        ({
            let (m1, sent) = after_send(m, id);
            let (m2, first) = after_receive(m1, id, bytes);
            let (m3, second) = after_receive(m2, id, again);
            &&& sent == Ok::<(), ModelError>(())
            &&& first == Ok::<(), ModelError>(())
            &&& second == Err::<(), ModelError>(ModelError::UnexpectedId { id })
            &&& m2.expected == m.expected
            &&& m2.payload_bytes == m.payload_bytes + bytes
            &&& m3 == m2
        }),
{
    let (m1, _) = after_send(m, id);
    assert(m1.expected.remove(id) =~= m.expected);
}

} // verus!
