//! Frame callbacks and present fences of all connections.

use vstd::prelude::*;

use crate::arith;
use crate::client::model;
use crate::client::FrameCallbackCompletion;
use crate::ids::ClientId;
use crate::ordered;
use crate::server::model::ServerModel;
use crate::server::Server;

verus! {

broadcast use {crate::ordered::lemma_remove_insert, crate::ordered::lemma_insert_same};

/// The first of the listed connections, from `from` on, whose number is not
/// below the cursor.
pub open spec fn first_at_least(ids: Seq<ClientId>, cursor: u32, from: nat) -> Option<nat>
    decreases ids.len() - from,
{
    if from >= ids.len() {
        None
    } else if ids[from as int].0 >= cursor {
        Some(from)
    } else {
        first_at_least(ids, cursor, from + 1)
    }
}

/// A place counted on past the end of a ring of the given size.
pub open spec fn around(place: nat, count: nat) -> nat {
    if place < count {
        place
    } else {
        (place - count) as nat
    }
}

/// How far reporting frame callbacks has come.
pub struct Drain {
    pub server: ServerModel,
    /// How many more may be reported.
    pub remaining: nat,
    /// The place of the connection that was last reported to.
    pub last: Option<nat>,
}

impl Drain {
    /// After the connection in the given place has had its turn: it is
    /// reported one callback, if one is decided and its queue has room.
    pub open spec fn turn(self, ids: Seq<ClientId>, index: nat) -> Drain {
        let id = ids[index as int];
        let (client, outcome) = self.server.clients[id].complete_ready();
        let server = self.server.with_client(id, client);
        if outcome == FrameCallbackCompletion::Completed {
            Drain { server, remaining: (self.remaining - 1) as nat, last: Some(index) }
        } else {
            Drain { server, ..self }
        }
    }

    /// After the connections have had their turns, beginning with the one
    /// `offset` places after `start`.
    pub open spec fn pass(self, ids: Seq<ClientId>, start: nat, offset: nat) -> Drain
        decreases ids.len() - offset,
    {
        if offset >= ids.len() || self.remaining == 0 {
            self
        } else {
            self.turn(ids, around(start + offset, ids.len())).pass(ids, start, offset + 1)
        }
    }

    /// After passes over all connections, each beginning one place later, until
    /// nothing more can be reported.
    pub open spec fn passes(self, ids: Seq<ClientId>, start: nat) -> Drain
        decreases self.remaining,
    {
        let after = self.pass(ids, start, 0);
        if after.remaining >= self.remaining || after.remaining == 0 {
            after
        } else {
            after.passes(ids, around(start + 1, ids.len()))
        }
    }
}

impl ServerModel {
    /// The place of the connection that is reported to first.
    pub open spec fn first_turn(self, ids: Seq<ClientId>) -> nat {
        match first_at_least(ids, self.callback_cursor, 0) {
            Some(index) => index,
            None => 0,
        }
    }

    /// What reporting at most `budget` frame callbacks leads to. The next time,
    /// the connection after the one reported to last has the first turn.
    pub open spec fn callbacks_drained(self, budget: nat) -> Drain {
        let ids = ordered::ascending_keys(self.clients.dom());
        if budget == 0 || ids.len() == 0 {
            Drain { server: self, remaining: budget, last: None }
        } else {
            let after = Drain { server: self, remaining: budget, last: None }.passes(
                ids,
                self.first_turn(ids),
            );
            match after.last {
                Some(index) => Drain {
                    server: ServerModel {
                        callback_cursor: ids[around(index + 1, ids.len()) as int].0,
                        ..after.server
                    },
                    ..after
                },
                None => after,
            }
        }
    }

    /// The state after everything committed so far has been shown.
    pub open spec fn presented(self, callback_data: u32) -> ServerModel {
        ServerModel {
            clients: Map::new(
                |id: ClientId| self.clients.contains_key(id),
                |id: ClientId| self.clients[id].mark_presented(callback_data),
            ),
            ..self
        }
    }

    /// The callbacks of the listed connections that have fired and are not yet
    /// reported.
    pub open spec fn presented_among(self, ids: Seq<ClientId>) -> nat
        decreases ids.len(),
    {
        if ids.len() == 0 {
            0
        } else {
            self.presented_among(ids.drop_last()) + model::presented_count(
                self.clients[ids.last()].ready,
            )
        }
    }

    /// The cancellations of the listed connections that are not yet reported.
    pub open spec fn cancelled_among(self, ids: Seq<ClientId>) -> nat
        decreases ids.len(),
    {
        if ids.len() == 0 {
            0
        } else {
            self.cancelled_among(ids.drop_last()) + model::cancelled_count(
                self.clients[ids.last()].ready,
            )
        }
    }

    pub open spec fn some_ready(self) -> bool {
        exists|id: ClientId| #[trigger]
            self.clients.contains_key(id) && self.clients[id].has_ready()
    }

    pub open spec fn some_can_progress(self) -> bool {
        exists|id: ClientId| #[trigger]
            self.clients.contains_key(id) && self.clients[id].can_progress()
    }

    /// The first of the queued fences whose shell is still there, and the
    /// fences after it.
    pub open spec fn next_fence(self, fences: Seq<(ClientId, u32)>) -> (
        Option<u32>,
        Seq<(ClientId, u32)>,
    )
        decreases fences.len(),
    {
        if fences.len() == 0 {
            (None, fences)
        } else if self.is_shell(fences[0].0) {
            (Some(fences[0].1), fences.skip(1))
        } else {
            self.next_fence(fences.skip(1))
        }
    }
}

proof fn lemma_pass_budget(d: Drain, ids: Seq<ClientId>, start: nat, offset: nat)
    ensures
        d.pass(ids, start, offset).remaining <= d.remaining,
        d.remaining - d.pass(ids, start, offset).remaining <= arith::max_int(
            ids.len() - offset,
            0,
        ),
        d.pass(ids, start, offset).last is None ==> d.last is None && d.pass(
            ids,
            start,
            offset,
        ).remaining == d.remaining,
        d.last is Some ==> d.pass(ids, start, offset).last is Some,
    decreases ids.len() - offset,
{
    if offset < ids.len() && d.remaining > 0 {
        lemma_pass_budget(d.turn(ids, around(start + offset, ids.len())), ids, start, offset + 1);
    }
}

proof fn lemma_passes_budget(d: Drain, ids: Seq<ClientId>, start: nat)
    ensures
        d.passes(ids, start).remaining <= d.remaining,
    decreases d.remaining,
{
    let after = d.pass(ids, start, 0);
    lemma_pass_budget(d, ids, start, 0);
    if !(after.remaining >= d.remaining || after.remaining == 0) {
        lemma_passes_budget(after, ids, around(start + 1, ids.len()));
    }
}

/// One pass over the connections reports at most one callback to each, and
/// never more than the budget.
pub proof fn law_pass_is_fair(d: Drain, ids: Seq<ClientId>, start: nat)
    ensures
        d.pass(ids, start, 0).remaining <= d.remaining,
        d.remaining - d.pass(ids, start, 0).remaining <= ids.len(),
{
    lemma_pass_budget(d, ids, start, 0);
}

/// Reporting never takes more than the budget.
pub proof fn law_drain_keeps_budget(s: ServerModel, budget: nat)
    ensures
        s.callbacks_drained(budget).remaining <= budget,
{
    let ids = ordered::ascending_keys(s.clients.dom());
    lemma_passes_budget(
        Drain { server: s, remaining: budget, last: None },
        ids,
        s.first_turn(ids),
    );
}

impl Server {
    /// Decides the callbacks of everything committed so far: it has been shown.
    pub fn mark_frame_callbacks_presented(&mut self, callback_data: u32)
        ensures
            final(self)@ == old(self)@.presented(callback_data),
    {
        let ids = self.clients.keys();
        let mut i: usize = 0;
        while i < ids.len()
            invariant
                i <= ids@.len(),
                ids@.no_duplicates(),
                ids@.to_set() == old(self)@.clients.dom(),
                self@ == (ServerModel { clients: self@.clients, ..old(self)@ }),
                self@.clients.dom() == old(self)@.clients.dom(),
                forall|j: int|
                    #![trigger ids@[j]]
                    0 <= j < i ==> self@.clients[ids@[j]]
                        == old(self)@.clients[ids@[j]].mark_presented(callback_data),
                forall|j: int|
                    #![trigger ids@[j]]
                    i <= j < ids@.len() ==> self@.clients[ids@[j]] == old(self)@.clients[ids@[j]],
            decreases ids@.len() - i,
        {
            proof {
                assert(ids@.to_set().contains(ids@[i as int]));
            }
            if let Some(client) = self.clients.get_mut(ids[i]) {
                client.mark_frame_callbacks_presented(callback_data);
            }
            proof {
                assert(self@.clients.dom() =~= old(self)@.clients.dom());
            }
            i += 1;
        }
        proof {
            let after = old(self)@.presented(callback_data).clients;
            assert forall|id: ClientId| #[trigger]
                self@.clients.contains_key(id) implies self@.clients[id]
                == after[id] by {
                assert(ids@.to_set().contains(id));
                let j = choose|j: int| 0 <= j < ids@.len() && ids@[j] == id;
                assert(ids@[j] == id);
            }
            assert(self@.clients =~= after);
        }
    }

    fn first_turn(&self, ids: &Vec<ClientId>) -> (start: usize)
        ensures
            start == self@.first_turn(ids@),
            ids@.len() > 0 ==> start < ids@.len(),
    {
        let mut i: usize = 0;
        while i < ids.len()
            invariant
                i <= ids@.len(),
                first_at_least(ids@, self@.callback_cursor, 0) == first_at_least(
                    ids@,
                    self@.callback_cursor,
                    i as nat,
                ),
            decreases ids@.len() - i,
        {
            if ids[i].0 >= self.frame_callback_client_cursor {
                return i;
            }
            i += 1;
        }
        0
    }

    /// Gives every connection one turn, beginning with the one in place
    /// `start`. Says who was reported to last, if anyone was.
    fn drain_pass(&mut self, ids: &Vec<ClientId>, start: usize, remaining: &mut usize) -> (last:
        Option<usize>)
        requires
            start < ids@.len(),
            ids@.to_set() == old(self)@.clients.dom(),
        ensures
            ({
                let before = Drain {
                    server: old(self)@,
                    remaining: *old(remaining) as nat,
                    last: None,
                };
                let after = before.pass(ids@, start as nat, 0);
                &&& after.server == final(self)@
                &&& after.remaining == *final(remaining)
                &&& match last {
                    Some(index) => after.last == Some(index as nat) && index < ids@.len(),
                    None => after.last is None,
                }
            }),
            ids@.to_set() == final(self)@.clients.dom(),
    {
        let mut last: Option<usize> = None;
        let mut offset: usize = 0;
        let mut index: usize = start;
        let count: usize = ids.len();
        let ghost before = Drain { server: self@, remaining: *remaining as nat, last: None };
        while offset < count && *remaining > 0
            invariant
                offset <= count,
                count == ids@.len(),
                start < count,
                index < count,
                offset < count ==> index == around((start + offset) as nat, count as nat),
                ids@.to_set() == self@.clients.dom(),
                match last {
                    Some(at) => at < count,
                    None => true,
                },
                before.pass(ids@, start as nat, 0) == (Drain {
                    server: self@,
                    remaining: *remaining as nat,
                    last: match last {
                        Some(at) => Some(at as nat),
                        None => None,
                    },
                }).pass(ids@, start as nat, offset as nat),
            decreases count - offset,
        {
            proof {
                assert(ids@.to_set().contains(ids@[index as int]));
            }
            if let Some(client) = self.clients.get_mut(ids[index]) {
                if client.try_complete_ready_frame_callback_lifecycle()
                    == FrameCallbackCompletion::Completed {
                    *remaining -= 1;
                    last = Some(index);
                }
            }
            proof {
                assert(self@.clients.dom() =~= ids@.to_set());
            }
            offset += 1;
            index = if index + 1 == count {
                0
            } else {
                index + 1
            };
        }
        last
    }

    /// Reports decided frame callbacks, as long as the budget and the event
    /// queues have room, in turns of one per connection. Gives their number.
    pub fn drain_ready_frame_callback_lifecycle(&mut self, remaining: &mut usize) -> (completed:
        usize)
        ensures
            final(self)@ == old(self)@.callbacks_drained(*old(remaining) as nat).server,
            *final(remaining) == old(self)@.callbacks_drained(*old(remaining) as nat).remaining,
            completed == *old(remaining) - *final(remaining),
    {
        let budget: usize = *remaining;
        if budget == 0 || self.clients.is_empty() {
            let ids = self.clients.keys();
            return 0;
        }
        let ids = self.clients.keys();
        let count: usize = ids.len();
        let mut start: usize = self.first_turn(&ids);
        let mut last: Option<usize> = None;
        let ghost first = Drain { server: self@, remaining: budget as nat, last: None };
        let ghost origin = start as nat;
        loop
            invariant_except_break
                first.passes(ids@, origin) == (Drain {
                    server: self@,
                    remaining: *remaining as nat,
                    last: match last {
                        Some(at) => Some(at as nat),
                        None => None,
                    },
                }).passes(ids@, start as nat),
            invariant
                count == ids@.len(),
                start < count,
                *remaining <= budget,
                ids@.to_set() == self@.clients.dom(),
                match last {
                    Some(at) => at < count,
                    None => true,
                },
            ensures
                first.passes(ids@, origin) == (Drain {
                    server: self@,
                    remaining: *remaining as nat,
                    last: match last {
                        Some(at) => Some(at as nat),
                        None => None,
                    },
                }),
            decreases *remaining,
        {
            let before: usize = *remaining;
            let ghost at_start = Drain {
                server: self@,
                remaining: before as nat,
                last: match last {
                    Some(at) => Some(at as nat),
                    None => None,
                },
            };
            let ghost fresh = Drain { last: None, ..at_start };
            proof {
                lemma_pass_budget(fresh, ids@, start as nat, 0);
                lemma_pass_last(at_start, fresh, ids@, start as nat, 0);
            }
            let reported = self.drain_pass(&ids, start, remaining);
            if reported.is_some() {
                last = reported;
            }
            if *remaining == before || *remaining == 0 {
                break;
            }
            start = if start + 1 == count {
                0
            } else {
                start + 1
            };
        }
        if let Some(index) = last {
            let next: usize = if index + 1 == count {
                0
            } else {
                index + 1
            };
            self.frame_callback_client_cursor = ids[next].0;
        }
        budget - *remaining
    }

    /// Reports decided frame callbacks of frames that have been shown.
    pub fn complete_presented_frame_callbacks(&mut self, remaining: &mut usize) -> (completed:
        usize)
        ensures
            final(self)@ == old(self)@.callbacks_drained(*old(remaining) as nat).server,
            *final(remaining) == old(self)@.callbacks_drained(*old(remaining) as nat).remaining,
            completed == *old(remaining) - *final(remaining),
    {
        self.drain_ready_frame_callback_lifecycle(remaining)
    }

    /// Callbacks that have fired and are not yet reported, as far as the count
    /// goes.
    pub fn presented_frame_callback_count(&self) -> (n: usize)
        ensures
            n == arith::min_int(
                self@.presented_among(ordered::ascending_keys(self@.clients.dom())) as int,
                usize::MAX as int,
            ),
    {
        let ids = self.clients.keys();
        let mut n: usize = 0;
        let mut i: usize = 0;
        proof {
            assert(ids@.take(0) =~= Seq::<ClientId>::empty());
        }
        while i < ids.len()
            invariant
                i <= ids@.len(),
                ids@.to_set() == self@.clients.dom(),
                n == arith::min_int(
                    self@.presented_among(ids@.take(i as int)) as int,
                    usize::MAX as int,
                ),
            decreases ids@.len() - i,
        {
            proof {
                assert(ids@.take(i + 1).drop_last() =~= ids@.take(i as int));
                assert(ids@.to_set().contains(ids@[i as int]));
            }
            if let Some(client) = self.clients.get(ids[i]) {
                n = n.saturating_add(client.presented_frame_callback_count());
            }
            i += 1;
        }
        proof {
            assert(ids@.take(i as int) =~= ids@);
        }
        n
    }

    /// Cancellations that are not yet reported, as far as the count goes.
    pub fn cancelled_frame_callback_lifecycle_count(&self) -> (n: usize)
        ensures
            n == arith::min_int(
                self@.cancelled_among(ordered::ascending_keys(self@.clients.dom())) as int,
                usize::MAX as int,
            ),
    {
        let ids = self.clients.keys();
        let mut n: usize = 0;
        let mut i: usize = 0;
        proof {
            assert(ids@.take(0) =~= Seq::<ClientId>::empty());
        }
        while i < ids.len()
            invariant
                i <= ids@.len(),
                ids@.to_set() == self@.clients.dom(),
                n == arith::min_int(
                    self@.cancelled_among(ids@.take(i as int)) as int,
                    usize::MAX as int,
                ),
            decreases ids@.len() - i,
        {
            proof {
                assert(ids@.take(i + 1).drop_last() =~= ids@.take(i as int));
                assert(ids@.to_set().contains(ids@[i as int]));
            }
            if let Some(client) = self.clients.get(ids[i]) {
                n = n.saturating_add(client.cancelled_frame_callback_lifecycle_count());
            }
            i += 1;
        }
        proof {
            assert(ids@.take(i as int) =~= ids@);
        }
        n
    }

    /// Whether some connection has a decided callback to be reported.
    pub fn has_ready_frame_callback_lifecycle(&self) -> (r: bool)
        ensures
            r == self@.some_ready(),
    {
        let ids = self.clients.keys();
        let mut i: usize = 0;
        while i < ids.len()
            invariant
                i <= ids@.len(),
                ids@.to_set() == self@.clients.dom(),
                forall|j: int|
                    #![trigger ids@[j]]
                    0 <= j < i ==> !self@.clients[ids@[j]].has_ready(),
            decreases ids@.len() - i,
        {
            proof {
                assert(ids@.to_set().contains(ids@[i as int]));
                assert(self@.clients.contains_key(ids@[i as int]));
            }
            if let Some(client) = self.clients.get(ids[i]) {
                if client.has_ready_frame_callback_lifecycle() {
                    return true;
                }
            }
            i += 1;
        }
        proof {
            assert forall|id: ClientId| #[trigger]
                self@.clients.contains_key(id) implies !self@.clients[id].has_ready() by {
                assert(ids@.to_set().contains(id));
                let j = choose|j: int| 0 <= j < ids@.len() && ids@[j] == id;
                assert(ids@[j] == id);
            }
        }
        false
    }

    /// Whether some connection has a decided callback whose report fits into
    /// its event queue.
    pub fn ready_frame_callback_lifecycle_can_progress(&self) -> (r: bool)
        ensures
            r == self@.some_can_progress(),
    {
        let ids = self.clients.keys();
        let mut i: usize = 0;
        while i < ids.len()
            invariant
                i <= ids@.len(),
                ids@.to_set() == self@.clients.dom(),
                forall|j: int|
                    #![trigger ids@[j]]
                    0 <= j < i ==> !self@.clients[ids@[j]].can_progress(),
            decreases ids@.len() - i,
        {
            proof {
                assert(ids@.to_set().contains(ids@[i as int]));
                assert(self@.clients.contains_key(ids@[i as int]));
            }
            if let Some(client) = self.clients.get(ids[i]) {
                if client.ready_frame_callback_lifecycle_can_progress() {
                    return true;
                }
            }
            i += 1;
        }
        proof {
            assert forall|id: ClientId| #[trigger]
                self@.clients.contains_key(id) implies !self@.clients[id].can_progress() by {
                assert(ids@.to_set().contains(id));
                let j = choose|j: int| 0 <= j < ids@.len() && ids@[j] == id;
                assert(ids@[j] == id);
            }
        }
        false
    }

    pub fn pending_present_fence_count(&self) -> (n: usize)
        ensures
            n == self@.fences.len(),
    {
        self.pending_present_fences.len()
    }

    /// Takes the first queued fence whose shell is still there.
    pub fn take_pending_present_fence(&mut self) -> (serial: Option<u32>)
        ensures
            serial == old(self)@.next_fence(old(self)@.fences).0,
            final(self)@ == (ServerModel {
                fences: old(self)@.next_fence(old(self)@.fences).1,
                ..old(self)@
            }),
    {
        while self.pending_present_fences.len() > 0
            invariant
                self@ == (ServerModel { fences: self@.fences, ..old(self)@ }),
                old(self)@.next_fence(old(self)@.fences) == old(self)@.next_fence(self@.fences),
            decreases self.pending_present_fences@.len(),
        {
            let ghost before = self@.fences;
            let (client_id, serial) = self.pending_present_fences.remove(0);
            proof {
                assert(self@.fences =~= before.skip(1));
            }
            if self.is_shell(client_id) {
                return Some(serial);
            }
        }
        None
    }
}

/// Who was reported to before a pass matters only if the pass reports to
/// nobody.
proof fn lemma_pass_last(a: Drain, b: Drain, ids: Seq<ClientId>, start: nat, offset: nat)
    requires
        b == (Drain { last: b.last, ..a }),
        b.last is None,
    ensures
        a.pass(ids, start, offset) == (Drain {
            last: if b.pass(ids, start, offset).last is Some {
                b.pass(ids, start, offset).last
            } else {
                a.last
            },
            ..b.pass(ids, start, offset)
        }),
    decreases ids.len() - offset,
{
    if offset < ids.len() && a.remaining > 0 {
        let index = around(start + offset, ids.len());
        let next_a = a.turn(ids, index);
        let next_b = b.turn(ids, index);
        if next_b.last is None {
            lemma_pass_last(next_a, next_b, ids, start, offset + 1);
        } else {
            assert(next_a == next_b);
            lemma_pass_budget(next_b, ids, start, offset + 1);
        }
    }
}

} // verus!
