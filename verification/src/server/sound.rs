//! What holds of the server at all times: every connection is sound, what all
//! of them hold is accounted for, and windows are the toplevels that there are.

use vstd::prelude::*;

use crate::caps::CapSet;
use crate::client;
use crate::client::accounts;
use crate::client::bounds;
use crate::client::model::ClientModel;
use crate::client::sound;
use crate::client::{
    ClientLimits, MAX_CLIENT_POOL_BYTES, MAX_CLIENT_TOPLEVELS, MAX_TOPLEVEL_METADATA_BYTES,
};
use crate::events;
use crate::ids::{ClientId, ObjectId, WindowId, WindowOwner};
use crate::objects::Interface;
use crate::ordered;
use crate::protocol::keymap::KeymapModel;
use crate::requests::XdgShellGetToplevel;
use crate::server::connections;
use crate::server::focus;
use crate::server::frames::Drain;
use crate::server::holdings;
use crate::server::holdings::keeps_holdings;
use crate::server::laws;
use crate::server::model::ServerModel;
use crate::server::ServerLimits;
use crate::sums;
use crate::wire;
use crate::wire::HEADER_SIZE;

verus! {

pub open spec fn pool_bytes_held() -> spec_fn(ClientModel) -> nat {
    |c: ClientModel| c.pool_bytes as nat
}

pub open spec fn text_bytes_held() -> spec_fn(ClientModel) -> nat {
    |c: ClientModel| c.toplevel_metadata_bytes as nat
}

impl ServerModel {
    /// The limits of each connection.
    pub open spec fn client_limits(self) -> ClientLimits {
        ClientLimits {
            toplevel_metadata_bytes: self.limits.client_toplevel_metadata_bytes,
            ..client::default_client_limits()
        }
    }

    /// Whether every connection is sound, holds nothing that is dead, has the
    /// limits that it should have and a number that was handed out.
    pub open spec fn connections_are_sound(self) -> bool {
        &&& 0 < self.next_client_id
        &&& forall|id: ClientId| #[trigger]
            self.clients.contains_key(id) ==> {
                &&& self.clients[id].is_sound()
                &&& self.clients[id].is_reaped()
                &&& self.clients[id].limits == self.client_limits()
                &&& 0 < id.0
                &&& id.0 < self.next_client_id || self.next_client_id == u32::MAX
            }
    }

    /// Whether what all connections hold is counted right, and within the
    /// limits.
    pub open spec fn is_accounted(self) -> bool {
        &&& self.clients.dom().finite()
        &&& self.clients.dom().len() <= self.limits.clients
        &&& self.pool_bytes == sums::map_total(self.clients, pool_bytes_held())
        &&& self.pool_bytes <= self.limits.pool_bytes
        &&& self.toplevel_metadata_bytes == sums::map_total(self.clients, text_bytes_held())
        &&& self.toplevel_metadata_bytes <= self.limits.toplevel_metadata_bytes
    }

    /// Whether every toplevel is a window, and every window a toplevel; and
    /// there are no more than the limit allows.
    pub open spec fn windows_are_toplevels(self) -> bool {
        &&& forall|owner: WindowOwner|
            #![trigger self.window_ids.contains_key(owner)]
            self.window_ids.contains_key(owner) == self.has_toplevel(owner)
        &&& self.windows.dom().finite()
        &&& self.windows.dom().len() <= self.limits.toplevels
    }

    /// What holds of the server at all times.
    pub open spec fn is_sound(self) -> bool {
        &&& self.is_orderly()
        &&& self.is_bounded()
        &&& self.connections_are_sound()
        &&& self.is_accounted()
        &&& self.windows_are_toplevels()
    }
}

/// Connections that hold the same are equally sound.
proof fn lemma_same_holdings(a: ClientModel, b: ClientModel)
    requires
        a.holdings() == b.holdings(),
    ensures
        a.is_sound() ==> b.is_sound(),
        a.is_sound() && a.is_reaped() ==> b.is_reaped(),
        a.pool_bytes == b.pool_bytes,
        a.toplevel_metadata_bytes == b.toplevel_metadata_bytes,
        a.toplevels.dom() == b.toplevels.dom(),
        a.capabilities == b.capabilities,
        a.limits == b.limits,
{
    reveal(ClientModel::holdings);
    let ha = a.holdings();
    let hb = b.holdings();
    assert forall|t: ObjectId| #[trigger] a.toplevels.contains_key(t) == b.toplevels.contains_key(
        t,
    ) by {
        assert(ha.toplevels.contains_key(t) == hb.toplevels.contains_key(t));
    }
    assert(a.toplevels.dom() =~= b.toplevels.dom());
    assert forall|t: ObjectId| #[trigger] a.toplevels.contains_key(t) implies holdings::named(
        a.toplevels[t],
    ) == holdings::named(b.toplevels[t]) by {
        assert(ha.toplevels[t] == hb.toplevels[t]);
    }
    if a.is_sound() {
        let size = sound::text_size();
        let wa = |t: ObjectId| size(a.toplevels[t]);
        let wb = |t: ObjectId| size(b.toplevels[t]);
        assert forall|t: ObjectId| #[trigger] a.toplevels.dom().contains(t) implies wa(t) == wb(
            t,
        ) by {
            assert(a.toplevels.contains_key(t));
        }
        sums::lemma_total_same(a.toplevels.dom(), wa, wb);
        let mid = ClientModel { toplevels: b.toplevels, ..a };
        assert(mid.names_are_apart()) by {
            assert forall|t: ObjectId| #[trigger]
                mid.toplevels.contains_key(t) implies mid.is_object(t, Interface::XdgToplevel) by {
                assert(a.toplevels.contains_key(t));
            }
        }
        assert(mid.callbacks_are_apart()) by {
            assert forall|spot: sound::Spot| #[trigger] mid.callbacks_in(spot) == a.callbacks_in(
                spot,
            ) by {
            }
            sound::lemma_callbacks_stay(a, mid);
        }
        sound::lemma_memory_stays(a, mid);
        assert(mid.toplevels_are_sound()) by {
            assert forall|s: ObjectId| #[trigger]
                mid.toplevel_by_surface.contains_key(s) implies mid.toplevels.contains_key(
                mid.toplevel_by_surface[s],
            ) && mid.toplevels[mid.toplevel_by_surface[s]].surface_id == s by {
                assert(a.toplevels.contains_key(a.toplevel_by_surface[s]));
            }
            assert forall|t: ObjectId| #[trigger]
                mid.toplevels.contains_key(t) implies mid.toplevel_by_surface.contains_key(
                mid.toplevels[t].surface_id,
            ) && mid.toplevel_by_surface[mid.toplevels[t].surface_id] == t
                && mid.toplevels[t].title.len() + mid.toplevels[t].app_id.len()
                <= crate::client::MAX_TOPLEVEL_METADATA_BYTES by {
                assert(a.toplevels.contains_key(t));
            }
        }
        assert(mid.holds_same(b));
        sound::lemma_holds_same(mid, b);
        if a.is_reaped() {
            sound::lemma_stays_reaped(a, b);
        }
    }
}

/// What a step that leaves holdings alone leaves of each connection.
proof fn lemma_same_client(a: ServerModel, b: ServerModel, id: ClientId)
    requires
        a.holdings() == b.holdings(),
    ensures
        a.clients.contains_key(id) == b.clients.contains_key(id),
        a.clients.contains_key(id) ==> a.clients[id].holdings() == b.clients[id].holdings(),
{
    lemma_holdings_of(a, id);
    lemma_holdings_of(b, id);
}

proof fn lemma_holdings_of(s: ServerModel, id: ClientId)
    ensures
        s.holdings().contains_key(id) == s.clients.contains_key(id),
        s.clients.contains_key(id) ==> s.holdings()[id] == s.clients[id].holdings(),
{
    reveal(ServerModel::holdings);
}

/// A step that leaves holdings alone leaves the connections sound and the
/// accounts right.
proof fn lemma_keeps_accounts(a: ServerModel, b: ServerModel)
    requires
        a.holdings() == b.holdings(),
        b.pool_bytes == a.pool_bytes,
        b.toplevel_metadata_bytes == a.toplevel_metadata_bytes,
        b.limits == a.limits,
        b.next_client_id == a.next_client_id,
        a.connections_are_sound(),
        a.is_accounted(),
    ensures
        b.connections_are_sound(),
        b.is_accounted(),
        forall|owner: WindowOwner| #[trigger] a.has_toplevel(owner) == b.has_toplevel(owner),
{
    assert forall|id: ClientId| #[trigger] b.clients.contains_key(id) implies a.clients.contains_key(
        id,
    ) && a.clients[id].holdings() == b.clients[id].holdings() by {
        lemma_same_client(a, b, id);
    }
    assert(b.clients.dom() =~= a.clients.dom()) by {
        assert forall|id: ClientId| a.clients.dom().contains(id) == b.clients.dom().contains(id) by {
            lemma_same_client(a, b, id);
        }
    }
    assert forall|id: ClientId| #[trigger] b.clients.contains_key(id) implies {
        &&& b.clients[id].is_sound()
        &&& b.clients[id].is_reaped()
        &&& b.clients[id].limits == a.clients[id].limits
        &&& b.clients[id].pool_bytes == a.clients[id].pool_bytes
        &&& b.clients[id].toplevel_metadata_bytes == a.clients[id].toplevel_metadata_bytes
        &&& b.clients[id].toplevels.dom() == a.clients[id].toplevels.dom()
    } by {
        lemma_same_holdings(a.clients[id], b.clients[id]);
    }
    let pool = pool_bytes_held();
    let text = text_bytes_held();
    sums::lemma_total_same(
        a.clients.dom(),
        |id: ClientId| pool(a.clients[id]),
        |id: ClientId| pool(b.clients[id]),
    );
    sums::lemma_total_same(
        a.clients.dom(),
        |id: ClientId| text(a.clients[id]),
        |id: ClientId| text(b.clients[id]),
    );
    assert forall|owner: WindowOwner| #[trigger] a.has_toplevel(owner) == b.has_toplevel(owner) by {
        lemma_same_client(a, b, owner.client_id);
        if a.clients.contains_key(owner.client_id) {
            assert(a.clients[owner.client_id].toplevels.dom().contains(owner.toplevel_id)
                == b.clients[owner.client_id].toplevels.dom().contains(owner.toplevel_id));
        }
    }
}

/// A step that leaves holdings alone and the windows in order leaves the
/// server sound.
pub proof fn law_holdings_keep_sound(a: ServerModel, b: ServerModel)
    requires
        a.is_sound(),
        keeps_holdings(a, b),
        laws::keeps_order(a, b),
    ensures
        b.is_sound(),
{
    lemma_keeps_accounts(a, b);
}

/// What all connections hold together can be counted, whatever the limits are:
/// there are only so many numbers for connections, and each holds only so much.
proof fn lemma_countable(s: ServerModel)
    requires
        s.connections_are_sound(),
        s.is_accounted(),
    ensures
        s.clients.dom().len() <= u32::MAX,
        !s.clients.contains_key(ClientId(s.next_client_id)) ==> s.clients.dom().len() < u32::MAX,
        s.pool_bytes <= MAX_CLIENT_POOL_BYTES * u32::MAX,
        s.toplevel_metadata_bytes <= MAX_CLIENT_TOPLEVELS * MAX_TOPLEVEL_METADATA_BYTES * u32::MAX,
{
    let ids = s.clients.dom();
    let next = ClientId(s.next_client_id);
    assert(!ids.contains(ClientId(0)));
    sums::lemma_few_keys(ids.insert(ClientId(0)));
    sums::lemma_few_keys(ids.insert(ClientId(0)).insert(next));
    let pool = pool_bytes_held();
    let text = text_bytes_held();
    let most_text = (MAX_CLIENT_TOPLEVELS * MAX_TOPLEVEL_METADATA_BYTES) as nat;
    assert forall|id: ClientId| #[trigger] ids.contains(id) implies pool(s.clients[id])
        <= MAX_CLIENT_POOL_BYTES && text(s.clients[id]) <= most_text by {
        assert(s.clients.contains_key(id));
        lemma_few_texts(s.clients[id]);
    }
    sums::lemma_total_bound(
        ids,
        |id: ClientId| pool(s.clients[id]),
        MAX_CLIENT_POOL_BYTES as nat,
    );
    sums::lemma_total_bound(ids, |id: ClientId| text(s.clients[id]), most_text);
    let n = ids.len();
    assert(n <= u32::MAX);
    lemma_most(MAX_CLIENT_POOL_BYTES as nat, n);
    lemma_most(most_text, n);
}

proof fn lemma_most(most: nat, n: nat)
    requires
        n <= u32::MAX,
    ensures
        most * n <= most * u32::MAX,
{
    assert(most * n <= most * u32::MAX) by (nonlinear_arith)
        requires
            n <= u32::MAX,
    ;
}

/// A connection has only so many toplevels, and each only so much text.
proof fn lemma_few_texts(c: ClientModel)
    requires
        c.is_sound(),
        c.limits.toplevels == MAX_CLIENT_TOPLEVELS,
    ensures
        c.toplevel_metadata_bytes <= MAX_CLIENT_TOPLEVELS * MAX_TOPLEVEL_METADATA_BYTES,
{
    let size = sound::text_size();
    let ids = c.toplevels.dom();
    assert forall|t: ObjectId| #[trigger] ids.contains(t) implies size(c.toplevels[t])
        <= MAX_TOPLEVEL_METADATA_BYTES by {
        assert(c.toplevels.contains_key(t));
    }
    sums::lemma_total_bound(
        ids,
        |t: ObjectId| size(c.toplevels[t]),
        MAX_TOPLEVEL_METADATA_BYTES as nat,
    );
    assert(MAX_TOPLEVEL_METADATA_BYTES * ids.len() <= MAX_TOPLEVEL_METADATA_BYTES
        * MAX_CLIENT_TOPLEVELS);
}

/// A connection that has changed within the budget.
proof fn lemma_recounted(s: ServerModel, id: ClientId, after: ClientModel)
    requires
        s.connections_are_sound(),
        s.is_accounted(),
        s.clients.contains_key(id),
        after.is_sound(),
        after.is_reaped(),
        accounts::is_afforded(s.clients[id], after, s.budgets(id)),
    ensures
        s.recounted(id, after).connections_are_sound(),
        s.recounted(id, after).is_accounted(),
        s.clients[id].pool_bytes <= s.pool_bytes,
        s.clients[id].toplevel_metadata_bytes <= s.toplevel_metadata_bytes,
{
    let b = s.recounted(id, after);
    sums::lemma_map_insert(s.clients, pool_bytes_held(), id, after);
    sums::lemma_map_insert(s.clients, text_bytes_held(), id, after);
    assert(b.clients.dom() =~= s.clients.dom());
    lemma_budgets(s, id);
    lemma_countable(s);
}

/// A budget is no more than the limit.
pub(crate) proof fn lemma_budgets(s: ServerModel, id: ClientId)
    ensures
        s.budgets(id).pool_byte_limit <= s.limits.pool_bytes,
        s.budgets(id).toplevel_metadata_byte_limit <= s.limits.toplevel_metadata_bytes,
        s.budgets(id).toplevel_limit <= s.limits.toplevels,
{
}

/// The toplevel that a request has made, if it has made one.
pub open spec fn is_gain(
    s: ServerModel,
    after: ServerModel,
    client_id: ClientId,
    gained: Option<ObjectId>,
) -> bool {
    &&& forall|owner: WindowOwner| #[trigger]
        after.has_toplevel(owner) == (s.has_toplevel(owner) || (owner.client_id == client_id
            && gained == Some(owner.toplevel_id)))
    &&& gained is Some ==> !s.has_toplevel(
        WindowOwner { client_id, toplevel_id: gained->0 },
    )
}

proof fn lemma_bounded_client(s: ServerModel, id: ClientId, after: ClientModel)
    requires
        s.is_bounded(),
        s.clients.contains_key(id),
        bounds::keeps_bounds(s.clients[id], after),
    ensures
        s.with_client(id, after).is_bounded(),
        s.recounted(id, after).is_bounded(),
{
    reveal(ServerModel::is_bounded);
}

/// The state once a connection has taken a request, before what follows it.
pub(crate) proof fn lemma_settled(
    s: ServerModel,
    client_id: ClientId,
    header: wire::MessageHeader,
    payload: Seq<u8>,
    granted: bool,
)
    requires
        s.is_sound(),
        s.clients.contains_key(client_id),
    ensures
        ({
            let step = s.clients[client_id].dispatched(
                header,
                payload,
                s.budgets(client_id),
                granted,
            );
            let counted = s.recounted(client_id, step.0);
            &&& step.1 is Some ==> s.with_client(client_id, step.0).is_sound()
            &&& step.1 is None ==> {
                &&& s.clients[client_id].objects.contains_key(header.object_id)
                &&& counted.is_orderly()
                &&& counted.is_bounded()
                &&& counted.connections_are_sound()
                &&& counted.is_accounted()
                &&& is_gain(
                    s,
                    counted,
                    client_id,
                    accounts::asked_toplevel(
                        s.clients[client_id].objects[header.object_id],
                        header.opcode,
                        payload,
                    ),
                )
            }
        }),
{
    let c = s.clients[client_id];
    let budgets = s.budgets(client_id);
    let step = c.dispatched(header, payload, budgets, granted);
    let counted = s.recounted(client_id, step.0);
    sound::law_dispatch_keeps_sound(c, header, payload, budgets, granted);
    bounds::law_dispatch_keeps_bounds(c, header, payload, budgets, granted);
    lemma_afforded(s, client_id, header, payload, granted);
    lemma_bounded_client(s, client_id, step.0);
    lemma_recounted(s, client_id, step.0);
    if step.1 is Some {
        accounts::law_refusal_costs_nothing(c, header, payload, budgets, granted);
        let after = s.with_client(client_id, step.0);
        assert(counted == after);
        assert forall|owner: WindowOwner|
            #![trigger after.window_ids.contains_key(owner)]
            after.window_ids.contains_key(owner) == after.has_toplevel(owner) by {
            assert(s.window_ids.contains_key(owner) == s.has_toplevel(owner));
        }
    } else {
        let gained = accounts::asked_toplevel(c.objects[header.object_id], header.opcode, payload);
        assert forall|owner: WindowOwner| #[trigger]
            counted.has_toplevel(owner) == (s.has_toplevel(owner) || (owner.client_id == client_id
                && gained == Some(owner.toplevel_id))) by {
            if owner.client_id == client_id {
                assert(step.0.toplevels.dom().contains(owner.toplevel_id) == (
                c.toplevels.dom().contains(owner.toplevel_id) || gained == Some(
                    owner.toplevel_id,
                )));
            }
        }
    }
}

/// What a request that was taken adds.
pub(crate) proof fn lemma_afforded(
    s: ServerModel,
    client_id: ClientId,
    header: wire::MessageHeader,
    payload: Seq<u8>,
    granted: bool,
)
    requires
        s.is_sound(),
        s.clients.contains_key(client_id),
    ensures
        ({
            let c = s.clients[client_id];
            let step = c.dispatched(header, payload, s.budgets(client_id), granted);
            &&& accounts::is_afforded(c, step.0, s.budgets(client_id))
            &&& step.1 is None ==> c.objects.contains_key(header.object_id) && accounts::gains(
                c,
                step.0,
                accounts::asked_toplevel(c.objects[header.object_id], header.opcode, payload),
            )
        }),
{
    let c = s.clients[client_id];
    sums::lemma_map_insert(s.clients, pool_bytes_held(), client_id, c);
    sums::lemma_map_insert(s.clients, text_bytes_held(), client_id, c);
    lemma_budgets(s, client_id);
    lemma_countable(s);
    accounts::law_dispatch_is_afforded(c, header, payload, s.budgets(client_id), granted);
}

/// What is left of a connection without one of its toplevels.
proof fn lemma_without_toplevel(s: ServerModel, owner: WindowOwner)
    requires
        s.is_sound(),
        s.has_toplevel(owner),
    ensures
        ({
            let before = s.clients[owner.client_id];
            let after = ServerModel::without_toplevel(before, owner.toplevel_id);
            let freed = s.recounted(owner.client_id, after);
            &&& freed.is_bounded()
            &&& freed.connections_are_sound()
            &&& freed.is_accounted()
            &&& forall|o: WindowOwner| #[trigger]
                freed.has_toplevel(o) == (s.has_toplevel(o) && o != owner)
        }),
{
    broadcast use {
        crate::client::model::lemma_emit_frame,
        bounds::law_emit_keeps_bounds,
        bounds::lemma_reap_keeps_bounds,
        sound::lemma_reap_frame,
    };

    let before = s.clients[owner.client_id];
    let after = ServerModel::without_toplevel(before, owner.toplevel_id);
    sound::lemma_end_toplevel(before, owner.toplevel_id);
    assert(after.toplevels == before.toplevels.remove(owner.toplevel_id));
    lemma_recounted(s, owner.client_id, after);
    lemma_bounded_client(s, owner.client_id, after);
}

proof fn lemma_destroyed(s: ServerModel, owner: WindowOwner)
    requires
        s.is_sound(),
    ensures
        s.destroyed(owner).is_sound(),
        s.destroyed(owner).limits == s.limits,
{
    broadcast use holdings::group_holdings;

    let end = s.destroyed(owner);
    laws::lemma_destroyed(s, owner);
    reveal(ServerModel::destroyed);
    let loses_focus = s.has_toplevel(owner) && s.focus == Some(
        (owner.client_id, s.toplevel(owner).surface_id),
    );
    let excluded = if s.window_ids.contains_key(owner) {
        Set::empty().insert(s.window_ids[owner])
    } else {
        Set::empty()
    };
    let fallback = s.fallback_focus(excluded);
    let moved = if loses_focus {
        s.focused(fallback)
    } else {
        s
    };
    laws::lemma_focused(s, fallback);
    laws::lemma_same_desk_keeps_order(s, moved);
    law_holdings_keep_sound(s, moved);
    if moved.has_toplevel(owner) {
        let before = moved.clients[owner.client_id];
        let after = ServerModel::without_toplevel(before, owner.toplevel_id);
        let freed = moved.recounted(owner.client_id, after);
        lemma_without_toplevel(moved, owner);
        let dropped = if freed.is_dragged(owner) {
            ServerModel { drag: None, ..freed }
        } else {
            freed
        };
        holdings::lemma_rest(freed, dropped);
        assert(dropped.window_ids.contains_key(owner));
        lemma_unregistered(dropped, owner);
        let gone = dropped.unregistered(owner);
        assert(gone.holdings() == end.holdings());
        lemma_keeps_accounts(freed, end);
        assert(end.window_ids == moved.window_ids.remove(owner));
        assert forall|o: WindowOwner|
            #![trigger end.window_ids.contains_key(o)]
            end.window_ids.contains_key(o) == end.has_toplevel(o) by {
            assert(moved.window_ids.contains_key(o) == moved.has_toplevel(o));
            assert(freed.has_toplevel(o) == end.has_toplevel(o));
        }
    }
}

proof fn lemma_unregistered(s: ServerModel, owner: WindowOwner)
    requires
        s.window_ids.contains_key(owner),
    ensures
        ({
            let gone = s.unregistered(owner);
            &&& gone.holdings() == s.holdings()
            &&& gone.pool_bytes == s.pool_bytes
            &&& gone.toplevel_metadata_bytes == s.toplevel_metadata_bytes
            &&& gone.limits == s.limits
            &&& gone.next_client_id == s.next_client_id
            &&& gone.windows == s.windows.remove(s.window_ids[owner])
            &&& gone.window_ids == s.window_ids.remove(owner)
            &&& s.is_bounded() ==> gone.is_bounded()
        }),
{
    broadcast use holdings::group_holdings;

    reveal(ServerModel::unregistered);
    let window_id = s.window_ids[owner];
    let gone = Set::<WindowId>::empty().insert(window_id);
    holdings::lemma_rest(
        s,
        ServerModel {
            window_ids: s.window_ids.remove(owner),
            windows: s.windows.remove(window_id),
            z_order: focus::without(s.z_order, gone),
            restore: crate::server::windows::restore_without(s.restore, window_id),
            ..s
        },
    );
}

proof fn lemma_created(s: ServerModel, owner: WindowOwner)
    requires
        s.has_toplevel(owner),
        !s.window_ids.contains_key(owner),
    ensures
        ({
            let made = s.created(owner);
            let window_id = WindowId(s.next_window_id);
            &&& made.holdings() == s.holdings()
            &&& made.pool_bytes == s.pool_bytes
            &&& made.toplevel_metadata_bytes == s.toplevel_metadata_bytes
            &&& made.limits == s.limits
            &&& made.next_client_id == s.next_client_id
            &&& made.windows == s.windows.insert(window_id, owner)
            &&& made.window_ids == s.window_ids.insert(owner, window_id)
            &&& s.is_bounded() ==> made.is_bounded()
        }),
{
    broadcast use holdings::group_holdings;

    reveal(ServerModel::created);
    holdings::lemma_rest(s, s.registered(owner).0);
}

/// A toplevel that a connection has made becomes a window.
proof fn lemma_toplevel_made(
    before: ServerModel,
    s: ServerModel,
    client_id: ClientId,
    payload: Seq<u8>,
)
    requires
        before.is_sound(),
        s.is_orderly(),
        s.is_bounded(),
        s.connections_are_sound(),
        s.is_accounted(),
        s.windows == before.windows,
        s.window_ids == before.window_ids,
        s.limits == before.limits,
        s.next_window_id < u32::MAX,
        s.windows.dom().len() < s.limits.toplevels,
        crate::requests::size_fault(payload, 8) is None,
        is_gain(before, s, client_id, Some(XdgShellGetToplevel::held_by(payload).new_id)),
    ensures
        s.toplevel_made(client_id, payload).is_sound(),
        s.toplevel_made(client_id, payload).limits == s.limits,
{
    broadcast use holdings::group_holdings;

    let end = s.toplevel_made(client_id, payload);
    laws::lemma_toplevel_made(s, client_id, payload);
    reveal(ServerModel::toplevel_made);
    let request = XdgShellGetToplevel::held_by(payload);
    let owner = WindowOwner { client_id, toplevel_id: request.new_id };
    assert(s.has_toplevel(owner));
    assert(!before.window_ids.contains_key(owner));
    holdings::lemma_positioned(s, owner);
    let placed = s.positioned(owner);
    holdings::lemma_numbered(placed, owner);
    let numbered = placed.numbered(owner);
    lemma_keeps_accounts(s, numbered);
    assert(s.has_toplevel(owner) == numbered.has_toplevel(owner));
    lemma_created(numbered, owner);
    let made = numbered.created(owner);
    holdings::lemma_first_shown(made, client_id, request.surface_id);
    assert(keeps_holdings(made, end));
    lemma_keeps_accounts(s, end);
    let window_id = WindowId(numbered.next_window_id);
    assert(end.windows.dom() =~= s.windows.dom().insert(window_id));
    assert forall|o: WindowOwner|
        #![trigger end.window_ids.contains_key(o)]
        end.window_ids.contains_key(o) == end.has_toplevel(o) by {
        assert(before.window_ids.contains_key(o) == before.has_toplevel(o));
        assert(s.has_toplevel(o) == end.has_toplevel(o));
    }
}

/// Whatever is asked for, the server stays sound.
pub proof fn law_dispatch_keeps_sound(
    s: ServerModel,
    client_id: ClientId,
    message: Seq<u8>,
    granted: bool,
)
    requires
        s.is_sound(),
        s.can_serve(client_id, message),
    ensures
        s.dispatched(client_id, message, granted).0.is_sound(),
        s.dispatched(client_id, message, granted).0.limits == s.limits,
        s.served(client_id, message, granted).is_sound(),
        s.served(client_id, message, granted).limits == s.limits,
{
    if wire::header_fault(message) is None {
        let header = wire::header_at(message);
        let payload = message.subrange(HEADER_SIZE as int, header.length as int);
        lemma_carried_out(s, client_id, header, payload, granted);
    }
    let after = s.dispatched(client_id, message, granted).0;
    let served = s.served(client_id, message, granted);
    match crate::server::serve::registry_asked_for(message) {
        Some(registry_id) => {
            holdings::lemma_advertised(after, client_id, registry_id);
            laws::lemma_same_desk_keeps_order(after, served);
            law_holdings_keep_sound(after, served);
        },
        None => {},
    }
}

proof fn lemma_carried_out(
    s: ServerModel,
    client_id: ClientId,
    header: wire::MessageHeader,
    payload: Seq<u8>,
    granted: bool,
)
    requires
        s.is_sound(),
        s.can_handle(client_id, header.object_id, header.opcode),
    ensures
        s.carried_out(client_id, header, payload, granted).0.is_sound(),
        s.carried_out(client_id, header, payload, granted).0.limits == s.limits,
{
    reveal(ServerModel::carried_out);
    let target = header.object_id;
    let opcode = header.opcode;
    if !s.is_withheld(client_id, target, opcode) && s.clients.contains_key(client_id) {
        let c = s.clients[client_id];
        let step = c.dispatched(header, payload, s.budgets(client_id), granted);
        lemma_settled(s, client_id, header, payload, granted);
        if step.1 is None {
            let counted = s.recounted(client_id, step.0);
            let reserved = s.is_reserved(client_id, target, opcode);
            let settled = ServerModel {
                command_owner: if reserved {
                    None
                } else {
                    counted.command_owner
                },
                ..counted
            };
            holdings::lemma_rest(counted, settled);
            let end = settled.followed(s, client_id, target, opcode, payload).0;
            let interface = c.objects[target];
            if interface == Interface::XdgShell && opcode == 1 {
                assert(is_gain(
                    s,
                    settled,
                    client_id,
                    Some(XdgShellGetToplevel::held_by(payload).new_id),
                )) by {
                    assert forall|o: WindowOwner| settled.has_toplevel(o) == counted.has_toplevel(
                        o,
                    ) by {
                    }
                }
                lemma_room_for_one(s, client_id, header, payload, granted);
                lemma_toplevel_made(s, settled, client_id, payload);
            } else {
                assert(settled.windows_are_toplevels()) by {
                    assert forall|o: WindowOwner|
                        #![trigger settled.window_ids.contains_key(o)]
                        settled.window_ids.contains_key(o) == settled.has_toplevel(o) by {
                        assert(s.window_ids.contains_key(o) == s.has_toplevel(o));
                        assert(counted.has_toplevel(o) == s.has_toplevel(o));
                    }
                }
                assert(settled.is_sound());
                let owner = WindowOwner { client_id, toplevel_id: target };
                if interface == Interface::XdgToplevel && opcode == 3 {
                    reveal(ServerModel::toplevel_followed);
                    lemma_destroyed(settled, owner);
                } else {
                    laws::lemma_surface_followed(settled, s, client_id, target, opcode, payload);
                    laws::lemma_shell_followed(settled, client_id, opcode, payload, reserved);
                    laws::lemma_toplevel_followed(settled, owner, opcode, payload);
                    holdings::law_surfaces_take_nothing(
                        settled,
                        s,
                        client_id,
                        target,
                        opcode,
                        payload,
                    );
                    holdings::law_shells_take_nothing(
                        settled,
                        client_id,
                        opcode,
                        payload,
                        reserved,
                    );
                    if opcode != 3 {
                        holdings::law_toplevels_take_nothing(settled, owner, opcode, payload);
                    }
                    law_holdings_keep_sound(settled, end);
                }
            }
        }
    }
}

/// A toplevel is made only while there is room for one more window.
pub(crate) proof fn lemma_room_for_one(
    s: ServerModel,
    client_id: ClientId,
    header: wire::MessageHeader,
    payload: Seq<u8>,
    granted: bool,
)
    requires
        s.is_sound(),
        s.clients.contains_key(client_id),
        s.clients[client_id].is_object(header.object_id, Interface::XdgShell),
        header.opcode == 1,
        s.clients[client_id].dispatched(header, payload, s.budgets(client_id), granted).1 is None,
    ensures
        s.windows.dom().len() < s.limits.toplevels,
        crate::requests::size_fault(payload, 8) is None,
{
    reveal(ClientModel::dispatched);
    reveal(ClientModel::mutated);
    lemma_budgets(s, client_id);
}

/// A connection that has changed, but not in memory, texts or toplevels.
proof fn lemma_client_kept(s: ServerModel, id: ClientId, after: ClientModel)
    requires
        s.is_sound(),
        s.clients.contains_key(id),
        after.is_sound(),
        after.is_reaped(),
        bounds::keeps_bounds(s.clients[id], after),
        after.capabilities == s.clients[id].capabilities,
        after.peer_pid == s.clients[id].peer_pid,
        after.pool_bytes == s.clients[id].pool_bytes,
        after.toplevel_metadata_bytes == s.clients[id].toplevel_metadata_bytes,
        after.toplevels == s.clients[id].toplevels,
    ensures
        s.with_client(id, after).is_sound(),
{
    let end = s.with_client(id, after);
    lemma_recounted(s, id, after);
    lemma_bounded_client(s, id, after);
    assert(s.recounted(id, after) == end);
    assert forall|owner: WindowOwner|
        #![trigger end.window_ids.contains_key(owner)]
        end.window_ids.contains_key(owner) == end.has_toplevel(owner) by {
        assert(s.window_ids.contains_key(owner) == s.has_toplevel(owner));
    }
}

proof fn lemma_turn(d: Drain, ids: Seq<ClientId>, index: nat)
    requires
        d.server.is_sound(),
        d.server.clients.contains_key(ids[index as int]),
    ensures
        d.turn(ids, index).server.is_sound(),
        d.turn(ids, index).server.limits == d.server.limits,
        d.turn(ids, index).server.clients.dom() == d.server.clients.dom(),
{
    broadcast use crate::client::model::lemma_emit_frame;

    let id = ids[index as int];
    let c = d.server.clients[id];
    sound::law_reporting_keeps_sound(c);
    bounds::law_callbacks_keep_bounds(c, 0);
    lemma_client_kept(d.server, id, c.complete_ready().0);
    assert(d.turn(ids, index).server.clients.dom() =~= d.server.clients.dom());
}

proof fn lemma_pass(d: Drain, ids: Seq<ClientId>, start: nat, offset: nat)
    requires
        d.server.is_sound(),
        start < ids.len(),
        forall|i: int| 0 <= i < ids.len() ==> d.server.clients.contains_key(#[trigger] ids[i]),
    ensures
        d.pass(ids, start, offset).server.is_sound(),
        d.pass(ids, start, offset).server.limits == d.server.limits,
        d.pass(ids, start, offset).server.clients.dom() == d.server.clients.dom(),
    decreases ids.len() - offset,
{
    if offset < ids.len() && d.remaining > 0 {
        let index = crate::server::frames::around(start + offset, ids.len());
        lemma_turn(d, ids, index);
        let next = d.turn(ids, index);
        assert forall|i: int| 0 <= i < ids.len() implies next.server.clients.contains_key(
            #[trigger] ids[i],
        ) by {
            assert(d.server.clients.dom().contains(ids[i]));
        }
        lemma_pass(next, ids, start, offset + 1);
    }
}

proof fn lemma_passes(d: Drain, ids: Seq<ClientId>, start: nat)
    requires
        d.server.is_sound(),
        start < ids.len(),
        forall|i: int| 0 <= i < ids.len() ==> d.server.clients.contains_key(#[trigger] ids[i]),
    ensures
        d.passes(ids, start).server.is_sound(),
        d.passes(ids, start).server.limits == d.server.limits,
    decreases d.remaining,
{
    let after = d.pass(ids, start, 0);
    lemma_pass(d, ids, start, 0);
    if after.remaining < d.remaining && after.remaining != 0 {
        assert forall|i: int| 0 <= i < ids.len() implies after.server.clients.contains_key(
            #[trigger] ids[i],
        ) by {
            assert(d.server.clients.dom().contains(ids[i]));
        }
        lemma_passes(after, ids, crate::server::frames::around(start + 1, ids.len()));
    }
}

/// A picture that is shown, and frame callbacks that are reported, keep the
/// server sound.
pub proof fn law_frames_keep_sound(s: ServerModel, callback_data: u32, budget: nat)
    requires
        s.is_sound(),
    ensures
        s.presented(callback_data).is_sound(),
        s.presented(callback_data).limits == s.limits,
        s.callbacks_drained(budget).server.is_sound(),
        s.callbacks_drained(budget).server.limits == s.limits,
{
    lemma_presented(s, callback_data);
    let ids = ordered::ascending_keys(s.clients.dom());
    if budget > 0 && ids.len() > 0 {
        ordered::law_ascending_keys_list_all(s.clients.dom());
        assert forall|i: int| 0 <= i < ids.len() implies s.clients.contains_key(
            #[trigger] ids[i],
        ) by {
            assert(ids.to_set().contains(ids[i]));
        }
        let d = Drain { server: s, remaining: budget, last: None };
        let start = s.first_turn(ids);
        lemma_first_at_least(ids, s.callback_cursor, 0);
        lemma_passes(d, ids, start);
        let after = d.passes(ids, start).server;
        let end = s.callbacks_drained(budget).server;
        holdings::lemma_rest(after, end);
        laws::lemma_same_desk_keeps_order(after, end);
        law_holdings_keep_sound(after, end);
    }
}

pub(crate) proof fn lemma_first_at_least(ids: Seq<ClientId>, cursor: u32, from: nat)
    ensures
        crate::server::frames::first_at_least(ids, cursor, from) matches Some(index) ==> index
            < ids.len(),
    decreases ids.len() - from,
{
    if from < ids.len() {
        lemma_first_at_least(ids, cursor, from + 1);
    }
}

proof fn lemma_presented(s: ServerModel, callback_data: u32)
    requires
        s.is_sound(),
    ensures
        s.presented(callback_data).is_sound(),
{
    let end = s.presented(callback_data);
    laws::lemma_same_desk_keeps_order(s, end);
    assert(end.clients.dom() =~= s.clients.dom());
    assert forall|id: ClientId| #[trigger] end.clients.contains_key(id) implies {
        &&& end.clients[id].is_sound()
        &&& end.clients[id].is_reaped()
        &&& end.clients[id].is_bounded()
        &&& end.clients[id].pool_bytes == s.clients[id].pool_bytes
        &&& end.clients[id].toplevel_metadata_bytes == s.clients[id].toplevel_metadata_bytes
        &&& end.clients[id].toplevels == s.clients[id].toplevels
    } by {
        assert(s.clients.contains_key(id));
        reveal(ServerModel::is_bounded);
        sound::law_showing_keeps_sound(s.clients[id], callback_data);
        bounds::law_callbacks_keep_bounds(s.clients[id], callback_data);
    }
    assert(end.is_bounded()) by {
        reveal(ServerModel::is_bounded);
    }
    let pool = pool_bytes_held();
    let text = text_bytes_held();
    sums::lemma_total_same(
        s.clients.dom(),
        |id: ClientId| pool(s.clients[id]),
        |id: ClientId| pool(end.clients[id]),
    );
    sums::lemma_total_same(
        s.clients.dom(),
        |id: ClientId| text(s.clients[id]),
        |id: ClientId| text(end.clients[id]),
    );
    assert(end.connections_are_sound());
    assert forall|owner: WindowOwner|
        #![trigger end.window_ids.contains_key(owner)]
        end.window_ids.contains_key(owner) == end.has_toplevel(owner) by {
        assert(s.window_ids.contains_key(owner) == s.has_toplevel(owner));
    }
}

/// Input and the passing of time keep the server sound.
pub proof fn law_input_keeps_sound(
    s: ServerModel,
    x: i32,
    y: i32,
    button: u32,
    key: u32,
    state: u32,
    now_ms: u64,
)
    requires
        s.is_sound(),
    ensures
        s.pointer_moved(x, y).0.is_sound(),
        s.button_changed(button, state).0.is_sound(),
        s.key_changed(key, state).0.is_sound(),
        s.at_time(now_ms).is_sound(),
        s.pointer_moved(x, y).0.limits == s.limits,
        s.button_changed(button, state).0.limits == s.limits,
        s.key_changed(key, state).0.limits == s.limits,
        s.at_time(now_ms).limits == s.limits,
{
    holdings::law_input_takes_nothing(s, x, y, button, key, state, now_ms);
    laws::law_input_keeps_order(s, x, y, button, key, state);
    laws::law_time_keeps_order(s, now_ms);
    laws::lemma_same_desk_keeps_order(s, s.key_changed(key, state).0);
    law_holdings_keep_sound(s, s.pointer_moved(x, y).0);
    law_holdings_keep_sound(s, s.button_changed(button, state).0);
    law_holdings_keep_sound(s, s.key_changed(key, state).0);
    law_holdings_keep_sound(s, s.at_time(now_ms));
}

/// A connection that is accepted keeps the server sound, as long as its number
/// is not in use.
pub proof fn law_accept_keeps_sound(s: ServerModel, caps: CapSet, peer_pid: u32)
    requires
        s.is_sound(),
        s.accept_fault(caps) is None,
        !s.clients.contains_key(ClientId(s.next_client_id)),
    ensures
        s.accepted(caps, peer_pid).is_sound(),
        s.accepted(caps, peer_pid).limits == s.limits,
{
    let id = ClientId(s.next_client_id);
    let end = s.accepted(caps, peer_pid);
    let c = end.clients[id];
    sound::law_fresh_is_sound(
        id,
        caps,
        peer_pid,
        s.client_limits(),
    );
    sums::lemma_map_insert(s.clients, pool_bytes_held(), id, c);
    sums::lemma_map_insert(s.clients, text_bytes_held(), id, c);
    lemma_countable(s);
    assert(end.clients.dom() =~= s.clients.dom().insert(id));
    assert(end.is_bounded()) by {
        reveal(ServerModel::is_bounded);
        reveal(crate::client::queue::total_bytes);
    }
    laws::lemma_same_desk_keeps_order(s, end);
    assert forall|owner: WindowOwner|
        #![trigger end.window_ids.contains_key(owner)]
        end.window_ids.contains_key(owner) == end.has_toplevel(owner) by {
        assert(s.window_ids.contains_key(owner) == s.has_toplevel(owner));
    }
}

/// A server that has just started is sound.
pub proof fn law_fresh_is_sound(
    width: u32,
    height: u32,
    limits: ServerLimits,
    default_keymap: KeymapModel,
)
    ensures
        ServerModel::fresh(width, height, limits, default_keymap).is_sound(),
{
    let s = ServerModel::fresh(width, height, limits, default_keymap);
    laws::law_fresh_is_orderly(width, height, limits, default_keymap);
    reveal(ServerModel::is_bounded);
}

/// A connection that is forgotten takes with it what it held.
proof fn lemma_forgotten(s: ServerModel, id: ClientId)
    requires
        s.is_sound(),
    ensures
        ({
            let after = s.forgotten(id);
            &&& after.is_bounded()
            &&& after.connections_are_sound()
            &&& after.is_accounted()
            &&& after.limits == s.limits
            &&& forall|owner: WindowOwner| #[trigger]
                after.has_toplevel(owner) == (s.has_toplevel(owner) && owner.client_id != id)
        }),
{
    reveal(ServerModel::forgotten);
    reveal(ServerModel::is_bounded);
    let after = s.forgotten(id);
    sums::lemma_map_remove(s.clients, pool_bytes_held(), id);
    sums::lemma_map_remove(s.clients, text_bytes_held(), id);
    assert(s.clients.contains_key(id) ==> after.clients.dom() =~= s.clients.dom().remove(id));
}

/// Windows that are buried take nothing from the connections that are left.
proof fn lemma_buried(s: ServerModel, pairs: Seq<(WindowOwner, WindowId)>)
    ensures
        ({
            let after = s.buried(pairs);
            &&& after.holdings() == s.holdings()
            &&& after.pool_bytes == s.pool_bytes
            &&& after.toplevel_metadata_bytes == s.toplevel_metadata_bytes
            &&& after.limits == s.limits
            &&& after.next_client_id == s.next_client_id
            &&& s.is_bounded() ==> after.is_bounded()
            &&& after.windows.dom().subset_of(s.windows.dom())
        }),
    decreases pairs.len(),
{
    if pairs.len() > 0 {
        lemma_buried(s, pairs.drop_last());
        let before = s.buried(pairs.drop_last());
        let (owner, window_id) = pairs.last();
        let fewer = ServerModel {
            window_ids: before.window_ids.remove(owner),
            windows: before.windows.remove(window_id),
            ..before
        };
        let notice = crate::server::model::NoticeModel::Destroyed { window_id: window_id.0 };
        let told = fewer.announce(notice);
        holdings::lemma_rest(before, fewer);
        holdings::lemma_announce(fewer, notice);
        holdings::lemma_rest(told, s.buried(pairs));
    }
}

/// The state that tells of a connection that has gone, before a restore of its
/// own is given up.
pub(crate) proof fn lemma_parted(s: ServerModel, id: ClientId)
    requires
        s.is_sound(),
    ensures
        s.parted(id).is_sound(),
        s.parted(id).limits == s.limits,
        !s.parted(id).clients.contains_key(id),
        forall|owner: WindowOwner| #[trigger]
            s.parted(id).window_ids.contains_key(owner) == (s.window_ids.contains_key(owner)
                && owner.client_id != id),
{
    broadcast use holdings::group_holdings;

    let leaving = s.windows_leaving(id);
    let gone = connections::windows_of(leaving);
    let alone = s.unfocused(id);
    laws::lemma_focused(s, s.focus_without(id));
    laws::lemma_same_desk_keeps_order(s, alone);
    law_holdings_keep_sound(s, alone);
    let forgotten = alone.forgotten(id);
    lemma_forgotten(alone, id);
    let thinned = ServerModel { z_order: focus::without(forgotten.z_order, gone), ..forgotten };
    holdings::lemma_rest(forgotten, thinned);
    let emptied = thinned.buried(leaving);
    laws::lemma_emptied(s, id);
    lemma_buried(thinned, leaving);
    laws::lemma_buried(thinned, leaving);
    laws::lemma_windows_leaving(s, id);
    let told = s.parted(id);
    assert(keeps_holdings(emptied, told));
    assert(laws::same_desk(emptied, told)) by {
        broadcast use laws::group_same_desk;

    }
    laws::lemma_same_desk_keeps_order(emptied, told);
    lemma_keeps_accounts(forgotten, told);
    assert(thinned.window_ids == s.window_ids && thinned.windows == s.windows) by {
        reveal(ServerModel::forgotten);
    }
    vstd::set_lib::lemma_set_subset_finite(s.windows.dom(), told.windows.dom());
    vstd::set_lib::lemma_len_subset(told.windows.dom(), s.windows.dom());
    assert forall|owner: WindowOwner|
        #![trigger told.window_ids.contains_key(owner)]
        told.window_ids.contains_key(owner) == (s.window_ids.contains_key(owner)
            && owner.client_id != id) by {
        assert(emptied.window_ids.contains_key(owner) == (thinned.window_ids.contains_key(owner)
            && !laws::leaves(leaving, owner)));
    }
    assert forall|owner: WindowOwner|
        #![trigger told.window_ids.contains_key(owner)]
        told.window_ids.contains_key(owner) == told.has_toplevel(owner) by {
        assert(alone.window_ids.contains_key(owner) == alone.has_toplevel(owner));
        assert(forgotten.has_toplevel(owner) == told.has_toplevel(owner));
    }
    lemma_same_client(forgotten, told, id);
    assert(!forgotten.clients.contains_key(id)) by {
        reveal(ServerModel::forgotten);
    }
}

/// A connection that goes keeps the server sound, and takes its windows with
/// it.
pub proof fn law_disconnect_keeps_sound(s: ServerModel, id: ClientId)
    requires
        s.is_sound(),
    ensures
        s.disconnected(id).is_sound(),
        s.disconnected(id).limits == s.limits,
        !s.disconnected(id).clients.contains_key(id),
        forall|owner: WindowOwner| #[trigger]
            s.disconnected(id).window_ids.contains_key(owner) == (s.window_ids.contains_key(owner)
                && owner.client_id != id),
{
    broadcast use holdings::group_holdings;

    let end = s.disconnected(id);
    laws::law_connections_keep_order(s, id, CapSet(0), 0);
    reveal(ServerModel::disconnected);
    lemma_parted(s, id);
    let told = s.parted(id);
    holdings::lemma_restore_aborted(told, events::RESTORE_ABORTED, false);
    assert(keeps_holdings(told, end));
    lemma_keeps_accounts(told, end);
    lemma_same_client(told, end, id);
    assert(end.window_ids == told.window_ids);
    assert forall|owner: WindowOwner|
        #![trigger end.window_ids.contains_key(owner)]
        end.window_ids.contains_key(owner) == end.has_toplevel(owner) by {
        assert(told.window_ids.contains_key(owner) == told.has_toplevel(owner));
    }
}

} // verus!
