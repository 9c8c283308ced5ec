//! What holds of every connection, whatever it is asked.

use vstd::prelude::*;

use crate::client::model::ClientModel;
use crate::client::ServerResourceBudgets;
use crate::ids::ObjectId;
use crate::objects::Interface;
use crate::ordered;
use crate::wire::MessageHeader;

verus! {

broadcast use crate::client::model::lemma_emit_frame;

impl ClientModel {
    /// Whether two states are of the same connection: of the same process,
    /// with the same privileges and limits.
    pub open spec fn is_same_connection(self, other: ClientModel) -> bool {
        &&& self.id == other.id
        &&& self.peer_pid == other.peer_pid
        &&& self.capabilities == other.capabilities
        &&& self.limits == other.limits
    }
}

proof fn lemma_bury_buffers_keeps_connection(c: ClientModel, ids: Seq<ObjectId>)
    ensures
        c.bury_buffers(ids).is_same_connection(c),
    decreases ids.len(),
{
    if ids.len() > 0 {
        lemma_bury_buffers_keeps_connection(c, ids.drop_last());
    }
}

proof fn lemma_bury_pools_keeps_connection(c: ClientModel, ids: Seq<ObjectId>)
    ensures
        c.bury_pools(ids).is_same_connection(c),
    decreases ids.len(),
{
    if ids.len() > 0 {
        lemma_bury_pools_keeps_connection(c, ids.drop_last());
    }
}

pub(crate) broadcast proof fn lemma_reap_keeps_connection(c: ClientModel)
    ensures
        (#[trigger] c.reap()).is_same_connection(c),
{
    reveal(ClientModel::reap);
    let ids = ordered::ascending_keys(c.dead_buffers());
    let fewer = c.bury_buffers(ids);
    lemma_bury_buffers_keeps_connection(c, ids);
    lemma_bury_pools_keeps_connection(fewer, ordered::ascending_keys(fewer.dead_pools()));
}

proof fn lemma_auto_install_keeps_connection(
    c: ClientModel,
    target: ObjectId,
    interface: Interface,
    opcode: u16,
    payload: Seq<u8>,
    server_bytes: u64,
    server_limit: u64,
    granted: bool,
)
    ensures
        c.auto_install(
            target,
            interface,
            opcode,
            payload,
            server_bytes,
            server_limit,
            granted,
        ).0.is_same_connection(c),
{
}

proof fn lemma_lifecycle_keeps_connection(
    c: ClientModel,
    target: ObjectId,
    interface: Interface,
    opcode: u16,
    payload: Seq<u8>,
    server_bytes: u64,
    server_limit: u64,
    granted: bool,
)
    ensures
        c.apply_resource_lifecycle(
            target,
            interface,
            opcode,
            payload,
            server_bytes,
            server_limit,
            granted,
        ).0.is_same_connection(c),
{
    broadcast use lemma_reap_keeps_connection;

}

proof fn lemma_surface_state_keeps_connection(
    c: ClientModel,
    target: ObjectId,
    interface: Interface,
    opcode: u16,
    payload: Seq<u8>,
)
    ensures
        c.apply_surface_state(target, interface, opcode, payload).0.is_same_connection(c),
{
    broadcast use lemma_reap_keeps_connection;

}

/// No request changes whose connection it is, its privileges or its limits.
pub proof fn law_dispatch_keeps_connection(
    c: ClientModel,
    header: MessageHeader,
    payload: Seq<u8>,
    budgets: ServerResourceBudgets,
    granted: bool,
)
    ensures
        c.dispatched(header, payload, budgets, granted).0.is_same_connection(c),
{
    broadcast use lemma_reap_keeps_connection;

    reveal(ClientModel::dispatched);
    reveal(ClientModel::mutated);
    let target = header.object_id;
    let opcode = header.opcode;
    if c.objects.contains_key(target) {
        let interface = c.objects[target];
        let created = c.auto_install(
            target,
            interface,
            opcode,
            payload,
            budgets.pool_bytes,
            budgets.pool_byte_limit,
            granted,
        );
        lemma_auto_install_keeps_connection(
            c,
            target,
            interface,
            opcode,
            payload,
            budgets.pool_bytes,
            budgets.pool_byte_limit,
            granted,
        );
        lemma_lifecycle_keeps_connection(
            created.0,
            target,
            interface,
            opcode,
            payload,
            budgets.pool_bytes,
            budgets.pool_byte_limit,
            granted,
        );
        let ended = created.0.apply_resource_lifecycle(
            target,
            interface,
            opcode,
            payload,
            budgets.pool_bytes,
            budgets.pool_byte_limit,
            granted,
        );
        lemma_surface_state_keeps_connection(ended.0, target, interface, opcode, payload);
        assert(c.mutated(
            target,
            interface,
            opcode,
            payload,
            budgets,
            granted,
        ).0.is_same_connection(c));
    }
}

} // verus!
