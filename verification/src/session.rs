//! Minting of session identifiers from a monotone counter.

use vstd::prelude::*;
use crate::ContextId;

verus! {

/// Process-wide source of session identifiers. The host owns exactly one of
/// these; every session identifier is minted from it and never reused.
pub struct SessionCounter {
    next: u64,
}

impl SessionCounter {
    /// The identifier the next mint will return.
    pub closed spec fn next_id(self) -> u64 {
        self.next
    }

    /// A fresh counter, starting at zero.
    pub fn new() -> (r: SessionCounter)
        ensures
            r.next_id() == 0,
    {
        SessionCounter { next: 0 }
    }
}

impl ContextId {
    /// Mints a fresh identifier and advances the counter. Saturation of the
    /// counter is excluded by precondition: the host aborts rather than wrap
    /// around, since a reused identifier would let two sessions collide.
    pub fn new(counter: &mut SessionCounter) -> (r: ContextId)
        requires
            old(counter).next_id() < u64::MAX,
        ensures
            r.0 == old(counter).next_id(),
            final(counter).next_id() == old(counter).next_id() + 1,
    {
        let id = counter.next;
        counter.next = counter.next + 1;
        ContextId(id)
    }
}

/// Two identifiers minted in sequence from one counter are the counter's value
/// and its successor, and are never equal.
pub proof fn lemma_sequential_ids_distinct(
    c0: SessionCounter,
    c1: SessionCounter,
    c2: SessionCounter,
    id1: ContextId,
    id2: ContextId,
)
    requires
        c0.next_id() < u64::MAX - 1,
        id1.0 == c0.next_id() && c1.next_id() == c0.next_id() + 1,
        id2.0 == c1.next_id() && c2.next_id() == c1.next_id() + 1,
    ensures
        id1.0 == c0.next_id(),
        id2.0 == c0.next_id() + 1,
        id1 != id2,
{
}

} // verus!
