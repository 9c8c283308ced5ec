//! The bytes that wait to be written to one connection.

use vstd::prelude::*;

use crate::bytes::push_bytes;

verus! {

/// The most bytes that may wait for one connection.
pub const MAX_CONN_OUTBOUND_BYTES: usize = 256 * 1024;

/// Bytes were refused because they would not fit.
#[derive(Copy, Clone, Debug, PartialEq, Eq, Structural)]
pub struct OutboundQueueFull {
    pub queued: usize,
    pub incoming: usize,
    pub max: usize,
}

/// The bytes of a queue after bytes were appended: all of them or none.
pub open spec fn after_append(queued: Seq<u8>, incoming: Seq<u8>, limit: nat) -> Seq<u8> {
    if queued.len() + incoming.len() <= limit {
        queued + incoming
    } else {
        queued
    }
}

/// The bytes of a queue after some from the front were written.
pub open spec fn after_consume(queued: Seq<u8>, written: nat) -> Seq<u8> {
    if written <= queued.len() {
        queued.skip(written as int)
    } else {
        Seq::empty()
    }
}

/// A bounded queue of bytes; its model is the bytes that are still to be
/// written.
pub struct OutboundQueue {
    bytes: Vec<u8>,
    consumed: usize,
    max_bytes: usize,
}

impl View for OutboundQueue {
    type V = Seq<u8>;

    closed spec fn view(&self) -> Seq<u8> {
        self.bytes@.skip(self.consumed as int)
    }
}

impl OutboundQueue {
    #[verifier::type_invariant]
    spec fn bounded(self) -> bool {
        self.consumed <= self.bytes@.len() && self.bytes@.len() - self.consumed <= self.max_bytes
    }

    /// The most bytes that the queue takes.
    pub closed spec fn limit(self) -> usize {
        self.max_bytes
    }

    pub fn new() -> (queue: Self)
        ensures
            queue@ == Seq::<u8>::empty(),
            queue.limit() == MAX_CONN_OUTBOUND_BYTES,
    {
        Self::with_limit(MAX_CONN_OUTBOUND_BYTES)
    }

    pub fn with_limit(max_bytes: usize) -> (queue: Self)
        ensures
            queue@ == Seq::<u8>::empty(),
            queue.limit() == max_bytes,
    {
        let queue = OutboundQueue { bytes: Vec::new(), consumed: 0, max_bytes };
        proof {
            assert(queue@ =~= Seq::<u8>::empty());
        }
        queue
    }

    /// Queues bytes behind the others, all of them or none.
    pub fn append(&mut self, incoming: &[u8]) -> (r: Result<(), OutboundQueueFull>)
        ensures
            final(self).limit() == old(self).limit(),
            final(self)@ == after_append(old(self)@, incoming@, old(self).limit() as nat),
            match r {
                Ok(_) => old(self)@.len() + incoming@.len() <= old(self).limit(),
                Err(e) => old(self)@.len() + incoming@.len() > old(self).limit() && e == (
                OutboundQueueFull {
                    queued: old(self)@.len() as usize,
                    incoming: incoming@.len() as usize,
                    max: old(self).limit(),
                }),
            },
    {
        proof {
            use_type_invariant(&*self);
        }
        let queued: usize = self.len();
        if incoming.len() > self.max_bytes - queued {
            return Err(
                OutboundQueueFull { queued, incoming: incoming.len(), max: self.max_bytes },
            );
        }
        if incoming.len() == 0 {
            proof {
                assert(self@ + incoming@ =~= self@);
            }
            return Ok(());
        }
        self.compact();
        proof {
            use_type_invariant(&*self);
        }
        let max_bytes: usize = self.max_bytes;
        let ghost before = self@;
        let mut taken = OutboundQueue::with_limit(0);
        core::mem::swap(&mut taken, self);
        let mut bytes = taken.bytes;
        let consumed: usize = taken.consumed;
        let ghost held = bytes@;
        push_bytes(&mut bytes, incoming);
        proof {
            assert((held + incoming@).skip(consumed as int) =~= before + incoming@);
        }
        *self = OutboundQueue { bytes, consumed, max_bytes };
        Ok(())
    }

    /// The bytes that are still to be written.
    pub fn as_slice(&self) -> (bytes: &[u8])
        ensures
            bytes@ == self@,
    {
        proof {
            use_type_invariant(self);
        }
        let rest = vstd::slice::slice_subrange(
            self.bytes.as_slice(),
            self.consumed,
            self.bytes.len(),
        );
        proof {
            assert(rest@ =~= self@);
        }
        rest
    }

    /// Takes bytes that were written from the front; writing more than there
    /// is empties the queue.
    pub fn consume(&mut self, written: usize)
        ensures
            final(self).limit() == old(self).limit(),
            final(self)@ == after_consume(old(self)@, written as nat),
    {
        proof {
            use_type_invariant(&*self);
        }
        let max_bytes: usize = self.max_bytes;
        let ghost before = self@;
        if written >= self.len() {
            *self = OutboundQueue { bytes: Vec::new(), consumed: 0, max_bytes };
            proof {
                assert(self@ =~= Seq::<u8>::empty());
                if written == before.len() {
                    assert(before.skip(written as int) =~= Seq::<u8>::empty());
                }
            }
        } else {
            let ghost held = self.bytes@;
            let ghost consumed = self.consumed;
            assert(self.consumed + written < self.bytes.len());
            self.consumed = self.consumed + written;
            proof {
                assert(held.skip(consumed + written) =~= before.skip(written as int));
            }
        }
    }

    pub fn len(&self) -> (n: usize)
        ensures
            n == self@.len(),
            n <= self.limit(),
    {
        proof {
            use_type_invariant(self);
        }
        self.bytes.len() - self.consumed
    }

    pub fn is_empty(&self) -> (r: bool)
        ensures
            r == (self@.len() == 0),
    {
        self.len() == 0
    }

    /// How many more bytes fit.
    pub fn remaining_capacity(&self) -> (n: usize)
        ensures
            n == self.limit() - self@.len(),
    {
        proof {
            use_type_invariant(self);
        }
        self.max_bytes - self.len()
    }

    /// Gives back the memory of bytes that were written.
    fn compact(&mut self)
        ensures
            final(self).limit() == old(self).limit(),
            final(self)@ == old(self)@,
    {
        proof {
            use_type_invariant(&*self);
        }
        if self.consumed == 0 {
            return;
        }
        let max_bytes: usize = self.max_bytes;
        let ghost before = self@;
        let mut taken = OutboundQueue::with_limit(0);
        core::mem::swap(&mut taken, self);
        let mut bytes = taken.bytes;
        let rest = bytes.split_off(taken.consumed);
        proof {
            assert(rest@ =~= before);
            assert(rest@.skip(0) =~= before);
        }
        *self = OutboundQueue { bytes: rest, consumed: 0, max_bytes };
    }
}

impl Default for OutboundQueue {
    fn default() -> (queue: Self)
        ensures
            queue@ == Seq::<u8>::empty(),
            queue.limit() == MAX_CONN_OUTBOUND_BYTES,
    {
        Self::new()
    }
}

/// Something that happens to a queue.
pub enum QueueStep {
    Append(Seq<u8>),
    Consume(nat),
}

/// What is left to be written after some steps on an empty queue.
pub open spec fn queued(steps: Seq<QueueStep>, limit: nat) -> Seq<u8>
    decreases steps.len(),
{
    if steps.len() == 0 {
        Seq::empty()
    } else {
        let before = queued(steps.drop_last(), limit);
        match steps.last() {
            QueueStep::Append(incoming) => after_append(before, incoming, limit),
            QueueStep::Consume(written) => after_consume(before, written),
        }
    }
}

/// What the queue has taken in some steps: what was appended, and fitted.
pub open spec fn taken_in(steps: Seq<QueueStep>, limit: nat) -> Seq<u8>
    decreases steps.len(),
{
    if steps.len() == 0 {
        Seq::empty()
    } else {
        let before = taken_in(steps.drop_last(), limit);
        match steps.last() {
            QueueStep::Append(incoming) => if queued(steps.drop_last(), limit).len()
                + incoming.len() <= limit {
                before + incoming
            } else {
                before
            },
            QueueStep::Consume(_) => before,
        }
    }
}

/// What has left the queue in some steps.
pub open spec fn written(steps: Seq<QueueStep>, limit: nat) -> Seq<u8>
    decreases steps.len(),
{
    if steps.len() == 0 {
        Seq::empty()
    } else {
        let before = written(steps.drop_last(), limit);
        match steps.last() {
            QueueStep::Append(_) => before,
            QueueStep::Consume(n) => {
                let front = queued(steps.drop_last(), limit);
                before + if n <= front.len() {
                    front.take(n as int)
                } else {
                    front
                }
            },
        }
    }
}

/// Bytes leave in the order in which they came, and none is lost: however a
/// queue is used, what was written and what is still queued are together what
/// the queue has taken in. It never holds more than its limit.
pub proof fn law_first_in_first_out(steps: Seq<QueueStep>, limit: nat)
    ensures
        written(steps, limit) + queued(steps, limit) == taken_in(steps, limit),
        queued(steps, limit).len() <= limit,
    decreases steps.len(),
{
    if steps.len() > 0 {
        let earlier = steps.drop_last();
        law_first_in_first_out(earlier, limit);
        let front = queued(earlier, limit);
        match steps.last() {
            QueueStep::Append(incoming) => {
                assert(written(earlier, limit) + (front + incoming) =~= (written(earlier, limit)
                    + front) + incoming);
            },
            QueueStep::Consume(n) => {
                if n <= front.len() {
                    assert(front.take(n as int) + front.skip(n as int) =~= front);
                }
                assert(written(steps, limit) + queued(steps, limit) =~= written(earlier, limit)
                    + front);
            },
        }
    }
}

} // verus!
