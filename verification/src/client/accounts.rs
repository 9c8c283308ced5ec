//! What a request of a connection adds to what all connections hold.

use vstd::prelude::*;

use crate::client::bounds;
use crate::client::model::ClientModel;
use crate::client::sound;
use crate::client::{ServerResourceBudgets, MAX_POOL_SIZE, MAX_TOPLEVEL_METADATA_BYTES};
use crate::ids::ObjectId;
use crate::objects::Interface;
use crate::requests::XdgShellGetToplevel;
use crate::wire::MessageHeader;

verus! {

broadcast use {crate::client::model::lemma_emit_frame, sound::lemma_reap_frame};

/// Whether a change of a connection is one that all connections together have
/// room for: what it adds keeps to the budget.
pub open spec fn is_afforded(
    a: ClientModel,
    b: ClientModel,
    budgets: ServerResourceBudgets,
) -> bool {
    &&& b.capabilities == a.capabilities
    &&& b.peer_pid == a.peer_pid
    &&& b.limits == a.limits
    &&& b.pool_bytes <= a.pool_bytes || budgets.pool_bytes - a.pool_bytes + b.pool_bytes
        <= budgets.pool_byte_limit
    &&& b.toplevel_metadata_bytes <= a.toplevel_metadata_bytes
        || budgets.toplevel_metadata_bytes - a.toplevel_metadata_bytes + b.toplevel_metadata_bytes
        <= budgets.toplevel_metadata_byte_limit
}

/// Whether the memory that a request may add can be counted.
pub open spec fn can_count_pools(budgets: ServerResourceBudgets) -> bool {
    budgets.pool_byte_limit < u64::MAX || budgets.pool_bytes + MAX_POOL_SIZE <= u64::MAX
}

/// Whether the texts that a request may add can be counted.
pub open spec fn can_count_texts(budgets: ServerResourceBudgets) -> bool {
    budgets.toplevel_metadata_byte_limit < u64::MAX || budgets.toplevel_metadata_bytes
        + MAX_TOPLEVEL_METADATA_BYTES <= u64::MAX
}

/// The connection after a request that made `id` a toplevel, or none. Those
/// that it had keep their numbers, and stay hidden if they are.
pub open spec fn gains(a: ClientModel, b: ClientModel, id: Option<ObjectId>) -> bool {
    &&& match id {
        Some(t) => {
            &&& b.toplevels.dom() == a.toplevels.dom().insert(t)
            &&& !a.toplevels.contains_key(t)
        },
        None => b.toplevels.dom() == a.toplevels.dom(),
    }
    &&& forall|t: ObjectId| #[trigger]
        a.toplevels.contains_key(t) ==> b.toplevels[t].ordinal == a.toplevels[t].ordinal
            && b.toplevels[t].hidden_for_restore == a.toplevels[t].hidden_for_restore
}

/// The toplevel that a request is to make, if it is to make one.
pub open spec fn asked_toplevel(interface: Interface, opcode: u16, payload: Seq<u8>) -> Option<
    ObjectId,
> {
    if interface == Interface::XdgShell && opcode == 1 {
        Some(XdgShellGetToplevel::held_by(payload).new_id)
    } else {
        None
    }
}

proof fn lemma_auto_install(
    c: ClientModel,
    target: ObjectId,
    interface: Interface,
    opcode: u16,
    payload: Seq<u8>,
    budgets: ServerResourceBudgets,
    granted: bool,
)
    requires
        c.is_sound(),
        c.pool_bytes <= budgets.pool_bytes,
        can_count_pools(budgets),
    ensures
        ({
            let step = c.auto_install(
                target,
                interface,
                opcode,
                payload,
                budgets.pool_bytes,
                budgets.pool_byte_limit,
                granted,
            );
            &&& is_afforded(c, step.0, budgets)
            &&& step.0.toplevel_metadata_bytes == c.toplevel_metadata_bytes
            &&& step.1 is Some ==> step.0 == c
            &&& step.1 is None ==> gains(c, step.0, asked_toplevel(interface, opcode, payload))
            &&& interface != Interface::Shm ==> step.0.pool_bytes == c.pool_bytes
        }),
{
    if interface == Interface::XdgShell && opcode == 1 {
        let step = c.get_toplevel(payload);
        if step.1 is None {
            let id = XdgShellGetToplevel::held_by(payload).new_id;
            assert(c.install_fault(id) is None);
            assert(!c.toplevels.contains_key(id));
            assert(step.0.toplevels.dom() =~= c.toplevels.dom().insert(id));
        }
    }
}

proof fn lemma_lifecycle(
    c: ClientModel,
    target: ObjectId,
    interface: Interface,
    opcode: u16,
    payload: Seq<u8>,
    budgets: ServerResourceBudgets,
    granted: bool,
)
    requires
        c.is_sound(),
        c.pool_bytes <= budgets.pool_bytes,
        can_count_pools(budgets),
    ensures
        ({
            let step = c.apply_resource_lifecycle(
                target,
                interface,
                opcode,
                payload,
                budgets.pool_bytes,
                budgets.pool_byte_limit,
                granted,
            );
            &&& is_afforded(c, step.0, budgets)
            &&& step.0.toplevels == c.toplevels
            &&& step.0.toplevel_metadata_bytes == c.toplevel_metadata_bytes
            &&& interface == Interface::Shm ==> step.0 == c
        }),
{
    if interface == Interface::ShmPool && opcode == 2 && c.pools.contains_key(target) {
        crate::sums::lemma_map_insert(
            c.pools,
            sound::pool_size(),
            target,
            c.pools[target],
        );
    }
}

proof fn lemma_surface_state(
    c: ClientModel,
    target: ObjectId,
    interface: Interface,
    opcode: u16,
    payload: Seq<u8>,
)
    ensures
        ({
            let after = c.apply_surface_state(target, interface, opcode, payload).0;
            &&& after.capabilities == c.capabilities
            &&& after.peer_pid == c.peer_pid
            &&& after.limits == c.limits
            &&& after.pool_bytes == c.pool_bytes
            &&& after.toplevels == c.toplevels
            &&& after.toplevel_metadata_bytes == c.toplevel_metadata_bytes
        }),
{
}

proof fn lemma_mutated(
    c: ClientModel,
    target: ObjectId,
    interface: Interface,
    opcode: u16,
    payload: Seq<u8>,
    budgets: ServerResourceBudgets,
    granted: bool,
)
    requires
        c.is_sound(),
        c.is_object(target, interface),
        c.pool_bytes <= budgets.pool_bytes,
        can_count_pools(budgets),
    ensures
        ({
            let step = c.mutated(target, interface, opcode, payload, budgets, granted);
            &&& is_afforded(c, step.0, budgets)
            &&& step.0.toplevel_metadata_bytes == c.toplevel_metadata_bytes
            &&& step.1 is None ==> gains(c, step.0, asked_toplevel(interface, opcode, payload))
        }),
{
    reveal(ClientModel::mutated);
    let created = c.auto_install(
        target,
        interface,
        opcode,
        payload,
        budgets.pool_bytes,
        budgets.pool_byte_limit,
        granted,
    );
    lemma_auto_install(c, target, interface, opcode, payload, budgets, granted);
    if created.1 is None {
        sound::lemma_auto_install(
            c,
            target,
            interface,
            opcode,
            payload,
            budgets.pool_bytes,
            budgets.pool_byte_limit,
            granted,
        );
        let ended = created.0.apply_resource_lifecycle(
            target,
            interface,
            opcode,
            payload,
            budgets.pool_bytes,
            budgets.pool_byte_limit,
            granted,
        );
        if interface == Interface::Shm {
            assert(ended == created.0.done());
        } else {
            lemma_lifecycle(created.0, target, interface, opcode, payload, budgets, granted);
        }
        let shown = ended.0.apply_surface_state(target, interface, opcode, payload);
        lemma_surface_state(ended.0, target, interface, opcode, payload);
        let buried = shown.0.reap();
        let after = buried.apply_toplevel_state(target, interface, opcode, payload).0;
        assert(after.toplevels.dom() =~= buried.toplevels.dom());
    }
}

/// What a request adds to what all connections hold was within the budget, and
/// only a request that makes a toplevel adds one.
pub proof fn law_dispatch_is_afforded(
    c: ClientModel,
    header: MessageHeader,
    payload: Seq<u8>,
    budgets: ServerResourceBudgets,
    granted: bool,
)
    requires
        c.is_sound(),
        c.is_reaped(),
        c.pool_bytes <= budgets.pool_bytes,
        c.toplevel_metadata_bytes <= budgets.toplevel_metadata_bytes,
        can_count_pools(budgets),
        can_count_texts(budgets),
    ensures
        ({
            let step = c.dispatched(header, payload, budgets, granted);
            &&& is_afforded(c, step.0, budgets)
            &&& step.1 is None ==> c.objects.contains_key(header.object_id) && gains(
                c,
                step.0,
                asked_toplevel(c.objects[header.object_id], header.opcode, payload),
            )
        }),
{
    reveal(ClientModel::dispatched);
    let target = header.object_id;
    let opcode = header.opcode;
    if c.objects.contains_key(target) {
        let interface = c.objects[target];
        lemma_mutated(c, target, interface, opcode, payload, budgets, granted);
        if interface == Interface::XdgToplevel && (opcode == 1 || opcode == 2)
            && c.toplevels.contains_key(target) {
            crate::sums::lemma_map_insert(
                c.toplevels,
                sound::text_size(),
                target,
                c.toplevels[target],
            );
        }
    }
}

/// A refused request leaves what a connection holds in memory and texts as it
/// was.
pub proof fn law_refusal_costs_nothing(
    c: ClientModel,
    header: MessageHeader,
    payload: Seq<u8>,
    budgets: ServerResourceBudgets,
    granted: bool,
)
    requires
        c.is_sound(),
        c.is_reaped(),
        c.dispatched(header, payload, budgets, granted).1 is Some,
    ensures
        ({
            let after = c.dispatched(header, payload, budgets, granted).0;
            &&& after.capabilities == c.capabilities
            &&& after.peer_pid == c.peer_pid
            &&& after.limits == c.limits
            &&& after.pools == c.pools
            &&& after.pool_bytes == c.pool_bytes
            &&& after.buffers == c.buffers
            &&& after.surfaces == c.surfaces
            &&& after.toplevels == c.toplevels
            &&& after.toplevel_metadata_bytes == c.toplevel_metadata_bytes
        }),
{
    if c.is_object(header.object_id, Interface::Display) && header.opcode == 1 {
        reveal(ClientModel::dispatched);
        reveal(ClientModel::mutated);
        let id = ObjectId(crate::bytes::le32_at(payload, 0));
        if c.install_fault(id) is None {
            let with = c.with_object(id, Interface::Callback);
            sound::lemma_free_name(c, id);
            sound::lemma_stays_reaped(c, with);
            bounds::lemma_reaped(with);
        }
    } else {
        bounds::law_refused_dispatch_changes_nothing(c, header, payload, budgets, granted);
    }
}

} // verus!
