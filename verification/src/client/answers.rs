//! What a client is told when a request is refused.

use vstd::prelude::*;

use crate::client::bounds;
use crate::client::model;
use crate::client::model::{ClientModel, Fault};
use crate::client::{ClientError, ServerResourceBudgets};
use crate::events;
use crate::ids::ObjectId;
use crate::objects::Interface;
use crate::ordered;
use crate::wire;
use crate::wire::MessageHeader;

verus! {

/// Whether an error is returned without being reported to the client.
spec fn is_silent(e: Option<ClientError>) -> bool {
    e matches Some(known) ==> model::error_report(ObjectId(0), known) is None
}

proof fn lemma_alias_faults_are_silent(
    c: ClientModel,
    ids: Seq<ObjectId>,
    surface_id: ObjectId,
    candidate: ObjectId,
    from: nat,
)
    ensures
        is_silent(c.alias_fault_among(ids, surface_id, candidate, from)),
    decreases ids.len() - from,
{
    if from < ids.len() {
        lemma_alias_faults_are_silent(c, ids, surface_id, candidate, from + 1);
    }
}

proof fn lemma_patch_alias_faults_are_silent(
    c: ClientModel,
    ids: Seq<ObjectId>,
    surface_id: ObjectId,
    pool_id: ObjectId,
    start: int,
    end: int,
    from: nat,
)
    ensures
        is_silent(c.patch_alias_fault_among(ids, surface_id, pool_id, start, end, from)),
    decreases ids.len() - from,
{
    if from < ids.len() {
        lemma_patch_alias_faults_are_silent(c, ids, surface_id, pool_id, start, end, from + 1);
    }
}

/// Requests about a surface's contents are refused silently, and then change
/// nothing.
proof fn lemma_surface_state_is_silent(
    c: ClientModel,
    surface_id: ObjectId,
    interface: Interface,
    opcode: u16,
    payload: Seq<u8>,
)
    ensures
        ({
            let step = c.apply_surface_state(surface_id, interface, opcode, payload);
            step.1 matches Some(fault) ==> step.0 == c && (fault matches Fault::Error(e)
                && is_silent(Some(e)))
        }),
{
    let ids = ordered::ascending_keys(c.surfaces.dom());
    if interface == Interface::Surface && opcode == 7 && c.surfaces.contains_key(surface_id) {
        if let Some(pending) = c.surfaces[surface_id].pending_buffer {
            lemma_alias_faults_are_silent(c, ids, surface_id, pending.buffer_id, 0);
        }
    }
    if interface == Interface::Surface && opcode == 8 {
        assert forall|pool_id: ObjectId, start: int, end: int|
            is_silent(
                #[trigger] c.patch_alias_fault_among(ids, surface_id, pool_id, start, end, 0),
            ) by {
            lemma_patch_alias_faults_are_silent(c, ids, surface_id, pool_id, start, end, 0);
        }
    }
}

proof fn lemma_refused_mutation_is_answered(
    c: ClientModel,
    target: ObjectId,
    interface: Interface,
    opcode: u16,
    payload: Seq<u8>,
    budgets: ServerResourceBudgets,
    granted: bool,
)
    requires
        c.reap() == c,
    ensures
        ({
            let step = c.mutated(target, interface, opcode, payload, budgets, granted);
            step.1 matches Some(fault) ==> step.0 == c.report(target, fault)
        }),
{
    reveal(ClientModel::mutated);
    let created = c.auto_install(
        target,
        interface,
        opcode,
        payload,
        budgets.pool_bytes,
        budgets.pool_byte_limit,
        granted,
    );
    if created.1 is Some {
        assert(created.0 == c);
    } else {
        let ended = created.0.apply_resource_lifecycle(
            target,
            interface,
            opcode,
            payload,
            budgets.pool_bytes,
            budgets.pool_byte_limit,
            granted,
        );
        if ended.1 is Some {
            assert(created.0 == c);
            assert(ended.0 == c);
        } else {
            let shown = ended.0.apply_surface_state(target, interface, opcode, payload);
            lemma_surface_state_is_silent(ended.0, target, interface, opcode, payload);
            if shown.1 is Some {
                assert(ended.0 == c);
            }
        }
    }
}

/// A refused request is answered with the error event that its refusal has, if
/// it has one, and changes nothing else. (`sync` is answered before it is done,
/// and may have been answered in part.)
pub proof fn law_refusal_is_answered(
    c: ClientModel,
    header: MessageHeader,
    payload: Seq<u8>,
    budgets: ServerResourceBudgets,
    granted: bool,
)
    requires
        c.is_reaped(),
        c.dispatched(header, payload, budgets, granted).1 is Some,
        !(c.is_object(header.object_id, Interface::Display) && header.opcode == 1),
    ensures
        ({
            let (after, fault) = c.dispatched(header, payload, budgets, granted);
            after == c.report(header.object_id, fault->0)
        }),
{
    reveal(ClientModel::dispatched);
    bounds::lemma_reaped(c);
    if c.objects.contains_key(header.object_id) {
        lemma_refused_mutation_is_answered(
            c,
            header.object_id,
            c.objects[header.object_id],
            header.opcode,
            payload,
            budgets,
            granted,
        );
    }
}

/// A refusal for want of a privilege or of memory is told: its error event
/// comes last in the queue, where that has room for it.
pub proof fn law_reported_refusal_is_queued(c: ClientModel, target: ObjectId, e: ClientError)
    requires
        c.is_object(ObjectId(1), Interface::Display),
        model::error_report(target, e) is Some,
    ensures
        ({
            let (about, code, message) = model::error_report(target, e)->0;
            let payload = events::display_error_payload(about, code, message);
            c.emit_fault(ObjectId(1), 1, payload) is None ==> c.report(target, Fault::Error(e))
                == (ClientModel {
                events: c.events.push(wire::message(ObjectId(1), 1, payload)),
                ..c
            })
        }),
{
    reveal(ClientModel::emit);
    let (about, code, message) = model::error_report(target, e)->0;
    let payload = events::display_error_payload(about, code, message);
    lemma_display_supersedes_nothing(c.events, ObjectId(1), 1, payload, 0);
}

proof fn lemma_display_supersedes_nothing(
    queued: Seq<Seq<u8>>,
    object_id: ObjectId,
    opcode: u16,
    payload: Seq<u8>,
    from: nat,
)
    ensures
        model::superseded(queued, Interface::Display, object_id, opcode, payload, from) is None,
    decreases queued.len() - from,
{
    if from < queued.len() {
        lemma_display_supersedes_nothing(queued, object_id, opcode, payload, from + 1);
    }
}

} // verus!
