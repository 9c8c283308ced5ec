//! The events that wait to be sent on one connection.

use vstd::prelude::*;

verus! {

/// The bytes of all messages together.
pub open spec fn total_bytes(messages: Seq<Seq<u8>>) -> nat
    decreases messages.len(),
{
    if messages.len() == 0 {
        0
    } else {
        total_bytes(messages.drop_last()) + messages.last().len()
    }
}

/// All messages, one after the other.
pub open spec fn joined(messages: Seq<Seq<u8>>) -> Seq<u8>
    decreases messages.len(),
{
    if messages.len() == 0 {
        Seq::empty()
    } else {
        joined(messages.drop_last()) + messages.last()
    }
}

/// How many messages, taken from the front, fit into `max` bytes.
pub open spec fn fitting(messages: Seq<Seq<u8>>, max: nat, from: nat) -> nat
    decreases messages.len() - from,
{
    if from >= messages.len() || total_bytes(messages.take(from as int + 1)) > max {
        from
    } else {
        fitting(messages, max, from + 1)
    }
}

/// The joined messages have as many bytes as the messages together.
pub proof fn law_joined_len(messages: Seq<Seq<u8>>)
    ensures
        joined(messages).len() == total_bytes(messages),
    decreases messages.len(),
{
    if messages.len() > 0 {
        law_joined_len(messages.drop_last());
    }
}

pub proof fn lemma_total_split(messages: Seq<Seq<u8>>, n: int)
    requires
        0 <= n <= messages.len(),
    ensures
        total_bytes(messages) == total_bytes(messages.take(n)) + total_bytes(messages.skip(n)),
    decreases messages.len(),
{
    if n == messages.len() {
        assert(messages.take(n) =~= messages);
        assert(messages.skip(n) =~= Seq::<Seq<u8>>::empty());
    } else {
        lemma_total_split(messages.drop_last(), n);
        assert(messages.drop_last().take(n) =~= messages.take(n));
        assert(messages.skip(n).drop_last() =~= messages.drop_last().skip(n));
        assert(messages.skip(n).last() == messages.last());
    }
}

pub proof fn lemma_total_update(messages: Seq<Seq<u8>>, n: int, message: Seq<u8>)
    requires
        0 <= n < messages.len(),
    ensures
        total_bytes(messages.update(n, message)) == total_bytes(messages) - messages[n].len()
            + message.len(),
    decreases messages.len(),
{
    let after = messages.update(n, message);
    if n == messages.len() - 1 {
        assert(after.drop_last() =~= messages.drop_last());
    } else {
        lemma_total_update(messages.drop_last(), n, message);
        assert(after.drop_last() =~= messages.drop_last().update(n, message));
    }
}

/// What is taken from the front and what stays are together what was there, in
/// the same order, and no message is cut: taking as much as fits never takes
/// more than `max` bytes, and one more message would not have fitted.
pub proof fn law_fitting(messages: Seq<Seq<u8>>, max: nat, from: nat)
    requires
        from <= messages.len(),
        total_bytes(messages.take(from as int)) <= max,
    ensures
        from <= fitting(messages, max, from) <= messages.len(),
        total_bytes(messages.take(fitting(messages, max, from) as int)) <= max,
        fitting(messages, max, from) < messages.len() ==> total_bytes(
            messages.take(fitting(messages, max, from) as int + 1),
        ) > max,
        joined(messages.take(fitting(messages, max, from) as int)) + joined(
            messages.skip(fitting(messages, max, from) as int),
        ) == joined(messages),
    decreases messages.len() - from,
{
    if from < messages.len() && total_bytes(messages.take(from as int + 1)) <= max {
        law_fitting(messages, max, from + 1);
    } else {
        lemma_joined_split(messages, from as int);
    }
}

pub proof fn lemma_joined_split(messages: Seq<Seq<u8>>, n: int)
    requires
        0 <= n <= messages.len(),
    ensures
        joined(messages.take(n)) + joined(messages.skip(n)) == joined(messages),
    decreases messages.len(),
{
    if n == messages.len() {
        assert(messages.take(n) =~= messages);
        assert(messages.skip(n) =~= Seq::<Seq<u8>>::empty());
        assert(joined(messages) + Seq::<u8>::empty() =~= joined(messages));
    } else {
        lemma_joined_split(messages.drop_last(), n);
        assert(messages.drop_last().take(n) =~= messages.take(n));
        assert(messages.skip(n).drop_last() =~= messages.drop_last().skip(n));
        assert(messages.skip(n).last() == messages.last());
        assert(joined(messages.take(n)) + (joined(messages.drop_last().skip(n)) + messages.last())
            =~= (joined(messages.take(n)) + joined(messages.drop_last().skip(n)))
            + messages.last());
    }
}

pub proof fn lemma_all_fit(messages: Seq<Seq<u8>>, max: nat, from: nat)
    requires
        from <= messages.len(),
        total_bytes(messages) <= max,
    ensures
        fitting(messages, max, from) == messages.len(),
    decreases messages.len() - from,
{
    if from < messages.len() {
        lemma_total_split(messages, from as int + 1);
        lemma_all_fit(messages, max, from + 1);
    }
}

/// Whole messages in the order in which they were queued.
pub struct EventQueue {
    messages: Vec<Vec<u8>>,
    bytes: usize,
}

spec fn contents(messages: Seq<Vec<u8>>) -> Seq<Seq<u8>> {
    messages.map_values(|m: Vec<u8>| m@)
}

impl View for EventQueue {
    type V = Seq<Seq<u8>>;

    closed spec fn view(&self) -> Seq<Seq<u8>> {
        contents(self.messages@)
    }
}

impl EventQueue {
    #[verifier::type_invariant]
    spec fn counted(self) -> bool {
        self.bytes == total_bytes(contents(self.messages@))
    }

    pub fn new() -> (queue: Self)
        ensures
            queue@ == Seq::<Seq<u8>>::empty(),
    {
        let queue = EventQueue { messages: Vec::new(), bytes: 0 };
        proof {
            assert(queue@ =~= Seq::<Seq<u8>>::empty());
        }
        queue
    }

    pub fn len(&self) -> (n: usize)
        ensures
            n == self@.len(),
    {
        self.messages.len()
    }

    /// The bytes of all queued messages together.
    pub fn bytes(&self) -> (n: usize)
        ensures
            n == total_bytes(self@),
    {
        proof {
            use_type_invariant(self);
        }
        self.bytes
    }

    pub fn get(&self, index: usize) -> (message: &[u8])
        requires
            index < self@.len(),
        ensures
            message@ == self@[index as int],
    {
        self.messages[index].as_slice()
    }

    /// Queues a message behind the others.
    pub fn push(&mut self, message: Vec<u8>)
        requires
            total_bytes(old(self)@) + message@.len() <= usize::MAX,
        ensures
            final(self)@ == old(self)@.push(message@),
    {
        let ghost before = self@;
        let mut taken = EventQueue::new();
        core::mem::swap(&mut taken, self);
        proof {
            use_type_invariant(&taken);
        }
        let bytes: usize = taken.bytes + message.len();
        let mut messages = taken.messages;
        let ghost added = message@;
        messages.push(message);
        proof {
            assert(contents(messages@) =~= before.push(added));
            assert(before.push(added).drop_last() =~= before);
        }
        *self = EventQueue { messages, bytes };
    }

    /// Puts a message in the place of a queued one.
    pub fn replace(&mut self, index: usize, message: Vec<u8>)
        requires
            index < old(self)@.len(),
            total_bytes(old(self)@) - old(self)@[index as int].len() + message@.len()
                <= usize::MAX,
        ensures
            final(self)@ == old(self)@.update(index as int, message@),
    {
        let ghost before = self@;
        let mut taken = EventQueue::new();
        core::mem::swap(&mut taken, self);
        proof {
            use_type_invariant(&taken);
            lemma_total_update(before, index as int, message@);
            lemma_part_of_total(before, index as int);
        }
        let mut messages = taken.messages;
        let bytes: usize = taken.bytes - messages[index].len() + message.len();
        let ghost added = message@;
        messages.set(index, message);
        proof {
            assert(contents(messages@) =~= before.update(index as int, added));
        }
        *self = EventQueue { messages, bytes };
    }

    /// Takes as many messages from the front as fit into `max` bytes, and
    /// returns their bytes.
    pub fn drain(&mut self, max: usize) -> (out: Vec<u8>)
        ensures
            out@ == joined(old(self)@.take(fitting(old(self)@, max as nat, 0) as int)),
            final(self)@ == old(self)@.skip(fitting(old(self)@, max as nat, 0) as int),
    {
        let ghost before = self@;
        let mut taken = EventQueue::new();
        core::mem::swap(&mut taken, self);
        proof {
            use_type_invariant(&taken);
            assert(before.take(0) =~= Seq::<Seq<u8>>::empty());
        }
        let bytes: usize = taken.bytes;
        let mut messages = taken.messages;
        let mut out: Vec<u8> = Vec::new();
        let mut drained: usize = 0;
        let mut count: usize = 0;
        while count < messages.len() && messages[count].len() <= max - drained
            invariant
                count <= messages@.len(),
                contents(messages@) == before,
                bytes == total_bytes(before),
                drained <= max,
                drained == total_bytes(before.take(count as int)),
                out@ == joined(before.take(count as int)),
                fitting(before, max as nat, 0) == fitting(before, max as nat, count as nat),
            decreases messages@.len() - count,
        {
            proof {
                let next = before.take(count + 1);
                assert(next.drop_last() =~= before.take(count as int));
                assert(next.last() == messages@[count as int]@);
            }
            drained = drained + messages[count].len();
            crate::bytes::push_bytes(&mut out, messages[count].as_slice());
            count += 1;
        }
        proof {
            if count < messages@.len() {
                let next = before.take(count + 1);
                assert(next.drop_last() =~= before.take(count as int));
                assert(next.last() == messages@[count as int]@);
            }
            assert(fitting(before, max as nat, count as nat) == count as nat);
            lemma_total_split(before, count as int);
        }
        let rest = messages.split_off(count);
        proof {
            assert(contents(rest@) =~= before.skip(count as int));
        }
        *self = EventQueue { messages: rest, bytes: bytes - drained };
        out
    }
}

pub proof fn lemma_part_of_total(messages: Seq<Seq<u8>>, n: int)
    requires
        0 <= n < messages.len(),
    ensures
        messages[n].len() <= total_bytes(messages),
    decreases messages.len(),
{
    if n < messages.len() - 1 {
        lemma_part_of_total(messages.drop_last(), n);
    }
}

} // verus!
