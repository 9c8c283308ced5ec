//! What telling connections of things leaves alone, and what drawing does.

use vstd::prelude::*;

use crate::client::bounds;
use crate::client::model::{ClientModel, ToplevelModel};
use crate::compositor::FramebufferModel;
use crate::ids::{ClientId, ObjectId, WindowId, WindowOwner};
use crate::objects::Interface;
use crate::ordered;
use crate::server::damage::DamageModel;
use crate::server::focus;
use crate::server::model;
use crate::server::model::{NoticeModel, ServerFault, ServerModel};
use crate::server::scene;
use crate::server::sound;
use crate::sums;
use crate::wire;
use crate::wire::{MessageHeader, HEADER_SIZE};

verus! {

/// Whether a connection differs from what it was only in what is queued for it
/// and noted of its requests.
pub open spec fn is_told(a: ClientModel, b: ClientModel) -> bool {
    b == (ClientModel {
        events: b.events,
        overflowed: b.overflowed,
        journal: b.journal,
        next_configure_serial: b.next_configure_serial,
        ..a
    })
}

/// The same of all connections.
pub open spec fn all_told(a: Map<ClientId, ClientModel>, b: Map<ClientId, ClientModel>) -> bool {
    &&& a.dom() == b.dom()
    &&& forall|id: ClientId| #[trigger] a.contains_key(id) ==> is_told(a[id], b[id])
}

/// Whether a step only tells connections of something.
pub open spec fn only_tells(a: ServerModel, b: ServerModel) -> bool {
    &&& b == (ServerModel { clients: b.clients, ..a })
    &&& all_told(a.clients, b.clients)
}

/// Whether a step only tells connections of something, and draws the picture.
pub open spec fn only_shows(a: ServerModel, b: ServerModel) -> bool {
    &&& b == (ServerModel {
        clients: b.clients,
        frame: b.frame,
        scene_generation: b.scene_generation,
        damage: b.damage,
        recomposition_serial: b.recomposition_serial,
        pending: b.pending,
        ..a
    })
    &&& all_told(a.clients, b.clients)
    &&& b.frame.width == a.frame.width
    &&& b.frame.height == a.frame.height
}

pub(crate) proof fn lemma_tells_then(a: ServerModel, b: ServerModel, c: ServerModel)
    requires
        only_tells(a, b),
        only_tells(b, c),
    ensures
        only_tells(a, c),
{
    assert forall|id: ClientId| #[trigger] a.clients.contains_key(id) implies is_told(
        a.clients[id],
        c.clients[id],
    ) by {
        assert(b.clients.dom().contains(id));
        assert(b.clients.contains_key(id));
    }
}

pub(crate) proof fn lemma_shows_then(a: ServerModel, b: ServerModel, c: ServerModel)
    requires
        only_shows(a, b),
        only_shows(b, c),
    ensures
        only_shows(a, c),
{
    assert forall|id: ClientId| #[trigger] a.clients.contains_key(id) implies is_told(
        a.clients[id],
        c.clients[id],
    ) by {
        assert(b.clients.dom().contains(id));
        assert(b.clients.contains_key(id));
    }
}

/// What connections have and where windows are stays.
pub(crate) proof fn lemma_all_told(a: ServerModel, b: ServerModel)
    requires
        all_told(a.clients, b.clients),
    ensures
        forall|o: WindowOwner| #[trigger] b.has_toplevel(o) == a.has_toplevel(o),
        forall|o: WindowOwner| a.has_toplevel(o) ==> #[trigger] b.toplevel(o) == a.toplevel(o),
        forall|id: ClientId| #[trigger] b.is_shell(id) == a.is_shell(id),
        forall|id: ClientId, surface_id: ObjectId|
            a.clients.contains_key(id) ==> #[trigger] b.clients[id].shows(surface_id)
                == a.clients[id].shows(surface_id),
        a.windows == b.windows ==> forall|w: WindowId| #[trigger]
            b.is_focusable(w) == a.is_focusable(w),
        a.windows == b.windows ==> forall|w: WindowId| #[trigger]
            b.is_at_hand(w) == a.is_at_hand(w),
{
    assert forall|o: WindowOwner| #[trigger] b.has_toplevel(o) == a.has_toplevel(o) by {
        assert(a.clients.dom().contains(o.client_id) == b.clients.dom().contains(o.client_id));
        assert(a.clients.contains_key(o.client_id) == b.clients.contains_key(o.client_id));
    }
    assert forall|id: ClientId| #[trigger] b.is_shell(id) == a.is_shell(id) by {
        assert(a.clients.dom().contains(id) == b.clients.dom().contains(id));
        assert(a.clients.contains_key(id) == b.clients.contains_key(id));
    }
}

pub(crate) proof fn lemma_with_told_client(s: ServerModel, id: ClientId, c: ClientModel)
    requires
        s.clients.contains_key(id),
        is_told(s.clients[id], c),
    ensures
        only_tells(s, s.with_client(id, c)),
{
    assert(s.with_client(id, c).clients.dom() =~= s.clients.dom());
}

pub(crate) broadcast proof fn lemma_announce(s: ServerModel, notice: NoticeModel)
    ensures
        only_tells(s, #[trigger] s.announce(notice)),
{
    broadcast use crate::client::model::lemma_emit_frame;

    reveal(ServerModel::announce);
    assert(s.announce(notice).clients.dom() =~= s.clients.dom());
}

pub(crate) broadcast proof fn lemma_announce_state(s: ServerModel, window_id: WindowId)
    ensures
        only_tells(s, #[trigger] s.announce_state(window_id)),
{
    broadcast use lemma_announce;

    reveal(ServerModel::announce_state);
}

pub(crate) broadcast proof fn lemma_announce_states(s: ServerModel, window_ids: Seq<WindowId>)
    ensures
        only_tells(s, #[trigger] s.announce_states(window_ids)),
    decreases window_ids.len(),
{
    if window_ids.len() > 0 {
        let before = s.announce_states(window_ids.drop_last());
        lemma_announce_states(s, window_ids.drop_last());
        lemma_announce_state(before, window_ids.last());
        lemma_tells_then(s, before, s.announce_states(window_ids));
    }
}

pub(crate) broadcast proof fn lemma_configured(
    s: ServerModel,
    owner: WindowOwner,
    width: i32,
    height: i32,
)
    ensures
        only_tells(s, #[trigger] s.configured(owner, width, height)),
{
    broadcast use crate::client::model::lemma_emit_frame;

    reveal(ServerModel::configured);
    assert(s.configured(owner, width, height).clients.dom() =~= s.clients.dom());
}

/// The focus moves, and those concerned are told.
pub(crate) broadcast proof fn lemma_focused(s: ServerModel, focus: Option<(ClientId, ObjectId)>)
    ensures
        only_tells(ServerModel { focus, ..s }, #[trigger] s.focused(focus)),
{
    broadcast use lemma_configured;

    reveal(ServerModel::focused);
    let moved = ServerModel { focus, ..s };
    let lost = match s.focus {
        Some(previous) => moved.configured_current(previous),
        None => moved,
    };
    if s.focus != focus {
        assert(only_tells(moved, lost));
        if let Some(next) = focus {
            assert(only_tells(lost, lost.configured_current(next)));
            lemma_tells_then(moved, lost, lost.configured_current(next));
        }
    }
}

/// The order changes, and shells are told.
pub(crate) broadcast proof fn lemma_raised(s: ServerModel, window_id: WindowId)
    ensures
        only_tells(
            ServerModel { z_order: focus::lifted(s.z_order, window_id).0, ..s },
            (#[trigger] s.raised(window_id)).0,
        ),
        s.raised(window_id).1 == (focus::lifted(s.z_order, window_id).1.len() > 0),
{
    broadcast use lemma_announce_states;

    reveal(ServerModel::raised);
    model::lemma_rank_of(s.z_order, window_id, 0);
}

/// A window that is lifted is the last, and the others stay as they are to one
/// another.
pub(crate) proof fn lemma_lifted_is_last(order: Seq<WindowId>, window_id: WindowId)
    requires
        order.contains(window_id),
    ensures
        focus::lifted(order, window_id).0.len() == order.len(),
        focus::lifted(order, window_id).0.last() == window_id,
        forall|w: WindowId| #[trigger]
            focus::lifted(order, window_id).0.contains(w) == order.contains(w),
        order.no_duplicates() ==> focus::lifted(order, window_id).0.drop_last() == focus::without(
            order,
            Set::empty().insert(window_id),
        ),
{
    model::lemma_rank_of(order, window_id, 0);
    let rank = model::rank_of(order, window_id, 0)->0;
    let place = choose|i: int| 0 <= i < order.len() && order[i] == window_id;
    assert(order[place] == window_id);
    let after = focus::lifted(order, window_id).0;
    assert forall|w: WindowId| #[trigger] after.contains(w) == order.contains(w) by {
        if rank + 1 != order.len() {
            if order.contains(w) {
                let i = choose|i: int| 0 <= i < order.len() && order[i] == w;
                if i < rank {
                    assert(after[i] == w);
                } else if i > rank {
                    assert(after[i - 1] == w);
                } else {
                    assert(after[after.len() - 1] == w);
                }
            }
            if after.contains(w) {
                let i = choose|i: int| 0 <= i < after.len() && after[i] == w;
                if i < rank {
                    assert(order[i] == w);
                } else if i < after.len() - 1 {
                    assert(order[i + 1] == w);
                } else {
                    assert(order[rank as int] == w);
                }
            }
        }
    }
    if order.no_duplicates() {
        lemma_without_one(order, window_id, rank as int);
        assert(after.drop_last() =~= order.remove(rank as int));
    }
}

proof fn lemma_without_one(order: Seq<WindowId>, window_id: WindowId, rank: int)
    requires
        order.no_duplicates(),
        0 <= rank < order.len(),
        order[rank] == window_id,
    ensures
        focus::without(order, Set::empty().insert(window_id)) == order.remove(rank),
    decreases order.len(),
{
    let gone = Set::<WindowId>::empty().insert(window_id);
    let front = order.drop_last();
    if rank == order.len() - 1 {
        lemma_without_none(front, window_id);
        assert(order.remove(rank) =~= front);
    } else {
        assert(order[order.len() - 1] != order[rank]);
        lemma_without_one(front, window_id, rank);
        assert(front.remove(rank).push(order.last()) =~= order.remove(rank));
    }
}

proof fn lemma_without_none(order: Seq<WindowId>, window_id: WindowId)
    requires
        forall|i: int| 0 <= i < order.len() ==> #[trigger] order[i] != window_id,
    ensures
        focus::without(order, Set::empty().insert(window_id)) == order,
    decreases order.len(),
{
    if order.len() > 0 {
        lemma_without_none(order.drop_last(), window_id);
        assert(order[order.len() - 1] != window_id);
        assert(order.drop_last().push(order.last()) =~= order);
    } else {
        assert(order =~= Seq::empty());
    }
}

pub(crate) broadcast proof fn lemma_changed(s: ServerModel, damage: DamageModel)
    ensures
        only_shows(s, #[trigger] s.changed(damage)),
{
    reveal(ServerModel::changed);
    let noted = ServerModel {
        damage: s.damage.with(damage),
        recomposition_serial: s.recomposition_serial.wrapping_add(1),
        ..s
    };
    crate::server::promises::lemma_scene_keeps_canvas(noted);
}

pub(crate) broadcast group group_shows {
    lemma_announce,
    lemma_announce_state,
    lemma_announce_states,
    lemma_configured,
    lemma_focused,
    lemma_changed,
}

/// Whether a toplevel is in the same place and as visible.
pub open spec fn stands_same(a: ToplevelModel, b: ToplevelModel) -> bool {
    &&& a.surface_id == b.surface_id
    &&& a.x == b.x
    &&& a.y == b.y
    &&& a.minimized == b.minimized
    &&& a.hidden_for_restore == b.hidden_for_restore
}

/// Whether two states of a connection look the same: the same is shown, in the
/// same places.
pub open spec fn looks_same(a: ClientModel, b: ClientModel) -> bool {
    &&& a.surfaces == b.surfaces
    &&& a.buffers == b.buffers
    &&& a.pools == b.pools
    &&& a.toplevel_by_surface == b.toplevel_by_surface
    &&& a.toplevels.dom() == b.toplevels.dom()
    &&& forall|t: ObjectId|
        a.toplevels.contains_key(t) ==> stands_same(#[trigger] a.toplevels[t], b.toplevels[t])
}

/// The same of all connections.
pub open spec fn all_look_same(
    a: Map<ClientId, ClientModel>,
    b: Map<ClientId, ClientModel>,
) -> bool {
    &&& a.dom() == b.dom()
    &&& forall|id: ClientId| #[trigger] a.contains_key(id) ==> looks_same(a[id], b[id])
}

pub(crate) proof fn lemma_told_look_same(
    a: Map<ClientId, ClientModel>,
    b: Map<ClientId, ClientModel>,
)
    requires
        all_told(a, b),
    ensures
        all_look_same(a, b),
{
    assert forall|id: ClientId| #[trigger] a.contains_key(id) implies looks_same(a[id], b[id]) by {
        assert(is_told(a[id], b[id]));
    }
}

pub(crate) proof fn lemma_look_then(
    a: Map<ClientId, ClientModel>,
    b: Map<ClientId, ClientModel>,
    c: Map<ClientId, ClientModel>,
)
    requires
        all_look_same(a, b),
        all_look_same(b, c),
    ensures
        all_look_same(a, c),
{
    assert forall|id: ClientId| #[trigger] a.contains_key(id) implies looks_same(a[id], c[id]) by {
        assert(b.dom().contains(id));
        assert(b.contains_key(id));
        let x = a[id];
        let y = b[id];
        let z = c[id];
        assert forall|t: ObjectId| x.toplevels.contains_key(t) implies stands_same(
            #[trigger] x.toplevels[t],
            z.toplevels[t],
        ) by {
            assert(y.toplevels.dom().contains(t));
            assert(stands_same(y.toplevels[t], z.toplevels[t]));
        }
    }
}

proof fn lemma_plain_of_same(
    f: FramebufferModel,
    a: ClientModel,
    b: ClientModel,
    ids: Seq<ObjectId>,
)
    requires
        looks_same(a, b),
    ensures
        scene::plain_drawn(f, a, ids) == scene::plain_drawn(f, b, ids),
    decreases ids.len(),
{
    if ids.len() > 0 {
        lemma_plain_of_same(f, a, b, ids.drop_last());
        let id = ids.last();
        let attached = (a.surfaces[id].current_buffer->0).buffer_id;
        assert(a.buffer_memory(attached) == b.buffer_memory(attached));
    }
}

proof fn lemma_clients_of_same(
    a: ServerModel,
    b: ServerModel,
    f: FramebufferModel,
    ids: Seq<ClientId>,
)
    requires
        all_look_same(a.clients, b.clients),
        forall|i: int| 0 <= i < ids.len() ==> a.clients.contains_key(#[trigger] ids[i]),
    ensures
        a.clients_drawn(f, ids) == b.clients_drawn(f, ids),
    decreases ids.len(),
{
    if ids.len() > 0 {
        let front = ids.drop_last();
        assert forall|i: int| 0 <= i < front.len() implies a.clients.contains_key(
            #[trigger] front[i],
        ) by {
            assert(front[i] == ids[i]);
        }
        lemma_clients_of_same(a, b, f, front);
        assert(a.clients.contains_key(ids[ids.len() - 1]));
        let client = a.clients[ids.last()];
        lemma_plain_of_same(
            a.clients_drawn(f, front),
            client,
            b.clients[ids.last()],
            ordered::ascending_keys(client.surfaces.dom()),
        );
    }
}

/// A window of which the same is shown can be seen as before.
pub(crate) proof fn lemma_same_is_focusable(a: ServerModel, b: ServerModel, id: WindowId)
    requires
        all_look_same(a.clients, b.clients),
        a.windows == b.windows,
    ensures
        a.is_focusable(id) == b.is_focusable(id),
        a.is_focusable(id) ==> looks_same(
            a.clients[a.windows[id].client_id],
            b.clients[a.windows[id].client_id],
        ) && stands_same(a.toplevel(a.windows[id]), b.toplevel(a.windows[id])),
{
    if a.windows.contains_key(id) {
        let owner = a.windows[id];
        assert(a.clients.dom().contains(owner.client_id) == b.clients.dom().contains(
            owner.client_id,
        ));
        if a.clients.contains_key(owner.client_id) {
            let c = a.clients[owner.client_id];
            let d = b.clients[owner.client_id];
            assert(looks_same(c, d));
            assert(c.toplevels.dom().contains(owner.toplevel_id) == d.toplevels.dom().contains(
                owner.toplevel_id,
            ));
            if c.toplevels.contains_key(owner.toplevel_id) {
                assert(stands_same(
                    c.toplevels[owner.toplevel_id],
                    d.toplevels[owner.toplevel_id],
                ));
            }
        }
    }
}

proof fn lemma_windows_of_same(
    a: ServerModel,
    b: ServerModel,
    f: FramebufferModel,
    order: Seq<WindowId>,
)
    requires
        all_look_same(a.clients, b.clients),
        a.windows == b.windows,
    ensures
        a.windows_drawn(f, order) == b.windows_drawn(f, order),
    decreases order.len(),
{
    if order.len() > 0 {
        lemma_windows_of_same(a, b, f, order.drop_last());
        let id = order.last();
        lemma_same_is_focusable(a, b, id);
        if a.is_focusable(id) {
            let owner = a.windows[id];
            let c = a.clients[owner.client_id];
            let d = b.clients[owner.client_id];
            let toplevel = a.toplevel(owner);
            let attached = (c.surfaces[toplevel.surface_id].current_buffer->0).buffer_id;
            assert(c.buffer_memory(attached) == d.buffer_memory(attached));
        }
    }
}

/// The picture of a scene depends only on what is shown, and where.
pub(crate) proof fn lemma_scene_of_same(a: ServerModel, b: ServerModel)
    requires
        a.clients.dom().finite(),
        all_look_same(a.clients, b.clients),
        a.windows == b.windows,
        a.z_order == b.z_order,
        a.frame.cleared() == b.frame.cleared(),
    ensures
        a.scene() == b.scene(),
{
    reveal(ServerModel::scene);
    let ids = ordered::ascending_keys(a.clients.dom());
    ordered::law_ascending_keys_list_all(a.clients.dom());
    assert forall|i: int| 0 <= i < ids.len() implies a.clients.contains_key(#[trigger] ids[i]) by {
        assert(ids.to_set().contains(ids[i]));
    }
    lemma_clients_of_same(a, b, a.frame.cleared(), ids);
    lemma_windows_of_same(a, b, a.clients_drawn(a.frame.cleared(), ids), a.z_order);
}

/// The picture of a scene does not depend on what connections are told.
pub(crate) proof fn lemma_scene_of_told(a: ServerModel, b: ServerModel)
    requires
        a.clients.dom().finite(),
        all_told(a.clients, b.clients),
        a.windows == b.windows,
        a.z_order == b.z_order,
        a.frame.cleared() == b.frame.cleared(),
    ensures
        a.scene() == b.scene(),
{
    lemma_told_look_same(a.clients, b.clients);
    lemma_scene_of_same(a, b);
}

/// Whether the picture is the one of the scene.
pub open spec fn is_up_to_date(s: ServerModel) -> bool {
    s.frame.is_whole() && s.frame == s.scene()
}

/// Telling connections of something leaves the picture up to date.
pub(crate) proof fn lemma_telling_keeps_picture(a: ServerModel, b: ServerModel)
    requires
        is_up_to_date(a),
        a.clients.dom().finite(),
        all_told(a.clients, b.clients),
        a.windows == b.windows,
        a.z_order == b.z_order,
        a.frame == b.frame,
    ensures
        is_up_to_date(b),
{
    lemma_scene_of_told(a, b);
}

/// The state once a request that changes nothing of its connection has been
/// taken: it is entered in the journal, and a reservation of the shell is used
/// up.
pub open spec fn is_taken(a: ServerModel, b: ServerModel) -> bool {
    &&& b == (ServerModel { clients: b.clients, command_owner: b.command_owner, ..a })
    &&& all_told(a.clients, b.clients)
}

/// Whether a message is a request of a number, with a payload of a size, to a
/// connection's manager of windows.
pub open spec fn asks_manager(
    s: ServerModel,
    client_id: ClientId,
    message: Seq<u8>,
    opcode: u16,
    size: int,
) -> bool {
    let header = wire::header_at(message);
    &&& wire::header_fault(message) is None
    &&& s.interface_of(client_id, header.object_id) == Some(Interface::ShellManager)
    &&& header.opcode == opcode
    &&& header.length == HEADER_SIZE + size
}

/// The payload of a request to a manager has the size that the request needs.
pub open spec fn fits_manager(opcode: u16, size: int) -> bool {
    match opcode {
        8 => size == 0,
        9 => size == 4,
        10 => size == 8,
        11 => size == 32,
        12 => size == 8,
        _ => 1 <= opcode <= 7,
    }
}

/// A request to a shell's manager is taken, and changes nothing of its
/// connection by itself.
pub(crate) proof fn lemma_asks_manager(
    s: ServerModel,
    client_id: ClientId,
    message: Seq<u8>,
    opcode: u16,
    size: int,
    granted: bool,
) -> (taken: ServerModel)
    requires
        s.is_sound(),
        asks_manager(s, client_id, message, opcode, size),
        fits_manager(opcode, size),
    ensures
        is_taken(s, taken),
        s.dispatched(client_id, message, granted) == (
            taken.shell_followed(
                client_id,
                opcode,
                message.subrange(HEADER_SIZE as int, HEADER_SIZE + size),
                s.is_reserved(client_id, wire::header_at(message).object_id, opcode),
            ),
            None::<ServerFault>,
        ),
{
    let header = wire::header_at(message);
    let payload = message.subrange(HEADER_SIZE as int, header.length as int);
    assert(payload.len() == size);
    lemma_manager_request(s, client_id, header, payload, granted)
}

/// A request of a shell's manager that is taken changes nothing of its
/// connection.
pub(crate) proof fn lemma_manager_request(
    s: ServerModel,
    client_id: ClientId,
    header: MessageHeader,
    payload: Seq<u8>,
    granted: bool,
) -> (taken: ServerModel)
    requires
        s.is_sound(),
        s.interface_of(client_id, header.object_id) == Some(Interface::ShellManager),
        fits_manager(header.opcode, payload.len() as int),
    ensures
        is_taken(s, taken),
        s.carried_out(client_id, header, payload, granted) == (
            taken.shell_followed(
                client_id,
                header.opcode,
                payload,
                s.is_reserved(client_id, header.object_id, header.opcode),
            ),
            None::<ServerFault>,
        ),
{
    reveal(ServerModel::carried_out);
    reveal(ClientModel::dispatched);
    reveal(ClientModel::mutated);
    let c = s.clients[client_id];
    bounds::lemma_reaped(c);
    let step = c.dispatched(header, payload, s.budgets(client_id), granted);
    assert(is_told(c, step.0));
    sums::lemma_map_insert(s.clients, sound::pool_bytes_held(), client_id, c);
    sums::lemma_map_insert(s.clients, sound::text_bytes_held(), client_id, c);
    let counted = s.recounted(client_id, step.0);
    let taken = ServerModel {
        command_owner: if s.is_reserved(client_id, header.object_id, header.opcode) {
            None
        } else {
            counted.command_owner
        },
        ..counted
    };
    assert(taken.clients.dom() =~= s.clients.dom());
    taken
}

} // verus!
