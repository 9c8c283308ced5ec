//! What a connection holds stays within its limits.

use vstd::prelude::*;

use crate::client::model;
use crate::client::model::ClientModel;
use crate::client::queue;
use crate::client::{ServerResourceBudgets, MAX_JOURNAL_ENTRIES};
use crate::ids::ObjectId;
use crate::objects::Interface;
use crate::ordered;
use crate::wire;
use crate::wire::{MessageHeader, HEADER_SIZE};

verus! {

impl ClientModel {
    /// Whether the queued events and the journal are within their limits.
    pub open spec fn is_bounded(self) -> bool {
        &&& self.events.len() <= self.limits.pending_events
        &&& queue::total_bytes(self.events) <= self.limits.pending_event_bytes
        &&& self.journal.len() <= MAX_JOURNAL_ENTRIES
    }
}

/// Whether a step keeps a connection within its limits. A queue that has
/// overflowed stays so.
pub open spec fn keeps_bounds(a: ClientModel, b: ClientModel) -> bool {
    &&& a.limits == b.limits
    &&& a.is_bounded() ==> b.is_bounded()
    &&& a.overflowed ==> b.overflowed
}

/// However many events are queued, the queue stays within its limits; and once
/// it has overflowed, nothing more is queued.
pub broadcast proof fn law_emit_keeps_bounds(
    c: ClientModel,
    object_id: ObjectId,
    opcode: u16,
    payload: Seq<u8>,
)
    ensures
        keeps_bounds(c, #[trigger] c.emit(object_id, opcode, payload)),
        c.overflowed ==> c.emit(object_id, opcode, payload).events == c.events,
{
    reveal(ClientModel::emit);
    if c.emit_fault(object_id, opcode, payload) is None {
        let after = c.emit(object_id, opcode, payload);
        match model::superseded(
            c.events,
            c.objects[object_id],
            object_id,
            opcode,
            payload,
            0,
        ) {
            Some(index) => {
                lemma_superseded_is_queued(
                    c.events,
                    c.objects[object_id],
                    object_id,
                    opcode,
                    payload,
                    0,
                );
                let kept = wire::header_at(c.events[index as int]).opcode;
                assert(wire::message(object_id, kept, payload).len() == HEADER_SIZE
                    + payload.len());
                queue::lemma_total_update(
                    c.events,
                    index as int,
                    wire::message(object_id, kept, payload),
                );
            },
            None => {
                assert(wire::message(object_id, opcode, payload).len() == HEADER_SIZE
                    + payload.len());
                assert(after.events.drop_last() =~= c.events);
            },
        }
    }
}

proof fn lemma_superseded_is_queued(
    queued: Seq<Seq<u8>>,
    interface: Interface,
    object_id: ObjectId,
    opcode: u16,
    payload: Seq<u8>,
    from: nat,
)
    ensures
        model::superseded(queued, interface, object_id, opcode, payload, from) matches Some(i)
            ==> i < queued.len(),
    decreases queued.len() - from,
{
    if from < queued.len() {
        lemma_superseded_is_queued(queued, interface, object_id, opcode, payload, from + 1);
    }
}

proof fn lemma_bury_buffers(c: ClientModel, ids: Seq<ObjectId>)
    ensures
        keeps_bounds(c, c.bury_buffers(ids)),
    decreases ids.len(),
{
    broadcast use law_emit_keeps_bounds;

    if ids.len() > 0 {
        lemma_bury_buffers(c, ids.drop_last());
        let before = c.bury_buffers(ids.drop_last());
        let id = ids.last();
        let fewer = ClientModel {
            buffers: before.buffers.remove(id),
            retired: before.retired.remove(id),
            ..before
        };
        assert(before.bury_buffer(id) == fewer.emit_delete_id(id));
    }
}

proof fn lemma_bury_pools(c: ClientModel, ids: Seq<ObjectId>)
    ensures
        keeps_bounds(c, c.bury_pools(ids)),
    decreases ids.len(),
{
    broadcast use law_emit_keeps_bounds;

    if ids.len() > 0 {
        lemma_bury_pools(c, ids.drop_last());
        let before = c.bury_pools(ids.drop_last());
        let id = ids.last();
        let fewer = ClientModel {
            pools: before.pools.remove(id),
            pool_bytes: if before.pools.contains_key(id) {
                before.pool_bytes.saturating_sub(before.pools[id].size as u64)
            } else {
                before.pool_bytes
            },
            retired: before.retired.remove(id),
            ..before
        };
        assert(before.bury_pool(id) == fewer.emit_delete_id(id));
    }
}

pub(crate) broadcast proof fn lemma_reap_keeps_bounds(c: ClientModel)
    ensures
        keeps_bounds(c, #[trigger] c.reap()),
{
    reveal(ClientModel::reap);
    let ids = ordered::ascending_keys(c.dead_buffers());
    let fewer = c.bury_buffers(ids);
    lemma_bury_buffers(c, ids);
    lemma_bury_pools(fewer, ordered::ascending_keys(fewer.dead_pools()));
}

broadcast group group_keeps_bounds {
    law_emit_keeps_bounds,
    lemma_reap_keeps_bounds,
}

proof fn lemma_auto_install(
    c: ClientModel,
    target: ObjectId,
    interface: Interface,
    opcode: u16,
    payload: Seq<u8>,
    server_bytes: u64,
    server_limit: u64,
    granted: bool,
)
    ensures
        keeps_bounds(
            c,
            c.auto_install(
                target,
                interface,
                opcode,
                payload,
                server_bytes,
                server_limit,
                granted,
            ).0,
        ),
{
}

proof fn lemma_lifecycle(
    c: ClientModel,
    target: ObjectId,
    interface: Interface,
    opcode: u16,
    payload: Seq<u8>,
    server_bytes: u64,
    server_limit: u64,
    granted: bool,
)
    ensures
        keeps_bounds(
            c,
            c.apply_resource_lifecycle(
                target,
                interface,
                opcode,
                payload,
                server_bytes,
                server_limit,
                granted,
            ).0,
        ),
{
    broadcast use group_keeps_bounds;

}

proof fn lemma_surface_state(
    c: ClientModel,
    target: ObjectId,
    interface: Interface,
    opcode: u16,
    payload: Seq<u8>,
)
    ensures
        keeps_bounds(c, c.apply_surface_state(target, interface, opcode, payload).0),
{
    broadcast use group_keeps_bounds;

}

proof fn lemma_mutated(
    c: ClientModel,
    target: ObjectId,
    interface: Interface,
    opcode: u16,
    payload: Seq<u8>,
    budgets: ServerResourceBudgets,
    granted: bool,
)
    ensures
        keeps_bounds(c, c.mutated(target, interface, opcode, payload, budgets, granted).0),
{
    broadcast use group_keeps_bounds;

    reveal(ClientModel::mutated);
    let created = c.auto_install(
        target,
        interface,
        opcode,
        payload,
        budgets.pool_bytes,
        budgets.pool_byte_limit,
        granted,
    );
    lemma_auto_install(
        c,
        target,
        interface,
        opcode,
        payload,
        budgets.pool_bytes,
        budgets.pool_byte_limit,
        granted,
    );
    let ended = created.0.apply_resource_lifecycle(
        target,
        interface,
        opcode,
        payload,
        budgets.pool_bytes,
        budgets.pool_byte_limit,
        granted,
    );
    lemma_lifecycle(
        created.0,
        target,
        interface,
        opcode,
        payload,
        budgets.pool_bytes,
        budgets.pool_byte_limit,
        granted,
    );
    lemma_surface_state(ended.0, target, interface, opcode, payload);
}

/// Whatever a connection asks for, what is queued for it and what is noted of
/// it stay within their limits.
pub proof fn law_dispatch_keeps_bounds(
    c: ClientModel,
    header: MessageHeader,
    payload: Seq<u8>,
    budgets: ServerResourceBudgets,
    granted: bool,
)
    ensures
        keeps_bounds(c, c.dispatched(header, payload, budgets, granted).0),
{
    broadcast use group_keeps_bounds;

    reveal(ClientModel::dispatched);
    if c.objects.contains_key(header.object_id) {
        lemma_mutated(
            c,
            header.object_id,
            c.objects[header.object_id],
            header.opcode,
            payload,
            budgets,
            granted,
        );
    }
}

/// So do frame callbacks that fire.
pub proof fn law_callbacks_keep_bounds(c: ClientModel, callback_data: u32)
    ensures
        keeps_bounds(c, c.complete_ready().0),
        keeps_bounds(c, c.mark_presented(callback_data)),
{
    broadcast use group_keeps_bounds;

}

impl ClientModel {
    /// Whether nothing that is neither named nor shown is left.
    pub open spec fn is_reaped(self) -> bool {
        &&& self.dead_buffers() == Set::<ObjectId>::empty()
        &&& self.dead_pools() == Set::<ObjectId>::empty()
    }
}

/// Where nothing is left to bury, nothing is buried.
pub proof fn lemma_reaped(c: ClientModel)
    requires
        c.is_reaped(),
    ensures
        c.reap() == c,
{
    reveal(ClientModel::reap);
    ordered::law_ascending_keys_list_all(Set::<ObjectId>::empty());
    let none = ordered::ascending_keys(Set::<ObjectId>::empty());
    assert(none.len() == 0) by {
        if none.len() > 0 {
            assert(none.to_set().contains(none[0]));
        }
    }
}

/// A request that is refused changes nothing but the queue: an error may be
/// reported. (One request is answered before it is done: `sync` may have been
/// answered in part.)
pub proof fn law_refused_dispatch_changes_nothing(
    c: ClientModel,
    header: MessageHeader,
    payload: Seq<u8>,
    budgets: ServerResourceBudgets,
    granted: bool,
)
    requires
        c.is_reaped(),
        c.dispatched(header, payload, budgets, granted).1 is Some,
        !(c.is_object(header.object_id, Interface::Display) && header.opcode == 1),
    ensures
        ({
            let after = c.dispatched(header, payload, budgets, granted).0;
            after == (ClientModel { events: after.events, overflowed: after.overflowed, ..c })
        }),
{
    broadcast use model::lemma_emit_frame;

    reveal(ClientModel::dispatched);
    lemma_reaped(c);
    if c.objects.contains_key(header.object_id) {
        lemma_refused_mutation(
            c,
            header.object_id,
            c.objects[header.object_id],
            header.opcode,
            payload,
            budgets,
            granted,
        );
    }
}

proof fn lemma_refused_mutation(
    c: ClientModel,
    target: ObjectId,
    interface: Interface,
    opcode: u16,
    payload: Seq<u8>,
    budgets: ServerResourceBudgets,
    granted: bool,
)
    requires
        c.reap() == c,
    ensures
        ({
            let step = c.mutated(target, interface, opcode, payload, budgets, granted);
            let after = step.0;
            step.1 is Some ==> after == (ClientModel {
                events: after.events,
                overflowed: after.overflowed,
                ..c
            })
        }),
{
    broadcast use model::lemma_emit_frame;

    reveal(ClientModel::mutated);
    let created = c.auto_install(
        target,
        interface,
        opcode,
        payload,
        budgets.pool_bytes,
        budgets.pool_byte_limit,
        granted,
    );
    if created.1 is Some {
        assert(created.0 == c);
    } else if interface == Interface::ShmPool || interface == Interface::Surface || interface
        == Interface::XdgToplevel {
        let ended = created.0.apply_resource_lifecycle(
            target,
            interface,
            opcode,
            payload,
            budgets.pool_bytes,
            budgets.pool_byte_limit,
            granted,
        );
        if ended.1 is Some {
            assert(created.0 == c);
            assert(ended.0 == c);
        }
    }
}

} // verus!
