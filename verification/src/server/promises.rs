//! What the server promises of its parts together: what is seen and hit, what
//! a batch costs, and who may change the work area.

use vstd::prelude::*;

use crate::client::model::ClientModel;
use crate::client::BufferInfo;
use crate::compositor;
use crate::compositor::FramebufferModel;
use crate::events;
use crate::ids::{ClientId, ObjectId, WindowId, WindowOwner};
use crate::objects::Interface;
use crate::ordered;
use crate::requests::XdgShellGetToplevel;
use crate::server::connections;
use crate::server::damage::DamageModel;
use crate::server::focus;
use crate::server::holdings;
use crate::server::holdings::{keeps_picture, settings};
use crate::server::keyboard::KEY_F4;
use crate::server::model::ServerModel;
use crate::server::scene;
use crate::server::sound;
use crate::wire;
use crate::wire::HEADER_SIZE;

verus! {

/// What a point hits belongs to a window that shows something and is neither
/// minimized nor hidden, and no such window above it has the point.
pub proof fn law_hit_is_topmost(s: ServerModel, x: i32, y: i32)
    ensures
        match s.hit(x, y) {
            Some(hit) => exists|i: int|
                0 <= i < s.z_order.len() && s.is_focusable(#[trigger] s.z_order[i])
                    && s.hit_window(s.z_order[i], x, y) == Some(hit) && forall|j: int|
                    i < j < s.z_order.len() ==> s.hit_window(#[trigger] s.z_order[j], x, y) is None,
            None => forall|j: int|
                0 <= j < s.z_order.len() ==> s.hit_window(#[trigger] s.z_order[j], x, y) is None,
        },
{
    lemma_hit_among(s, s.z_order, x, y);
}

proof fn lemma_hit_among(s: ServerModel, order: Seq<WindowId>, x: i32, y: i32)
    ensures
        match s.hit_among(order, x, y) {
            Some(hit) => exists|i: int|
                0 <= i < order.len() && s.is_focusable(#[trigger] order[i]) && s.hit_window(
                    order[i],
                    x,
                    y,
                ) == Some(hit) && forall|j: int|
                    i < j < order.len() ==> s.hit_window(#[trigger] order[j], x, y) is None,
            None => forall|j: int|
                0 <= j < order.len() ==> s.hit_window(#[trigger] order[j], x, y) is None,
        },
    decreases order.len(),
{
    if order.len() > 0 {
        let front = order.drop_last();
        lemma_hit_among(s, front, x, y);
        if s.hit_window(order.last(), x, y) is Some {
            assert(s.is_focusable(order[order.len() - 1]));
        } else {
            match s.hit_among(front, x, y) {
                Some(hit) => {
                    let i = choose|i: int|
                        0 <= i < front.len() && s.is_focusable(#[trigger] front[i])
                            && s.hit_window(front[i], x, y) == Some(hit) && forall|j: int|
                            i < j < front.len() ==> s.hit_window(#[trigger] front[j], x, y) is None;
                    assert(s.is_focusable(order[i]));
                    assert forall|j: int| i < j < order.len() implies s.hit_window(
                        #[trigger] order[j],
                        x,
                        y,
                    ) is None by {
                        if j < front.len() {
                            assert(front[j] == order[j]);
                        }
                    }
                },
                None => {
                    assert forall|j: int| 0 <= j < order.len() implies s.hit_window(
                        #[trigger] order[j],
                        x,
                        y,
                    ) is None by {
                        if j < front.len() {
                            assert(front[j] == order[j]);
                        }
                    }
                },
            }
        }
    }
}

/// The windows of a stack that can be seen.
pub open spec fn seen(s: ServerModel, order: Seq<WindowId>) -> Seq<WindowId>
    decreases order.len(),
{
    if order.len() == 0 {
        order
    } else if s.is_focusable(order.last()) {
        seen(s, order.drop_last()).push(order.last())
    } else {
        seen(s, order.drop_last())
    }
}

/// Windows that are minimized, hidden or without a picture leave no trace in
/// the picture: it is that of the others.
pub proof fn law_unseen_windows_are_not_drawn(
    s: ServerModel,
    frame: FramebufferModel,
    order: Seq<WindowId>,
)
    ensures
        s.windows_drawn(frame, order) == s.windows_drawn(frame, seen(s, order)),
    decreases order.len(),
{
    if order.len() > 0 {
        let front = order.drop_last();
        law_unseen_windows_are_not_drawn(s, frame, front);
        if s.is_focusable(order.last()) {
            assert(seen(s, order).drop_last() =~= seen(s, front));
        }
    }
}

/// A close shortcut that was taken is taken whole: until the key is let go
/// nothing of it reaches a window, and then the latch is open again.
pub proof fn law_close_shortcut_is_taken_whole(s: ServerModel)
    ensures
        ({
            let pressed = s.f4_changed(events::STATE_PRESSED);
            let held = pressed.0.key_changed(KEY_F4, events::STATE_PRESSED).0;
            let released = held.key_changed(KEY_F4, events::STATE_RELEASED).0;
            pressed.1 ==> {
                &&& held == pressed.0
                &&& released == (ServerModel { f4_down: false, f4_consumed: false, ..held })
                &&& !s.f4_down ==> s.closable() is Some && s.shortcut_shell() is Some && s.alt_mask
                    != 0
            }
        }),
{
    let pressed = s.f4_changed(events::STATE_PRESSED);
    if pressed.1 && !s.f4_down {
        let held = ServerModel { f4_down: true, ..s };
        assert(held.closable() == s.closable()) by {
            assert forall|w: WindowId| held.is_focusable(w) == s.is_focusable(w) by {
            }
        }
        assert(held.shortcut_shell() == s.shortcut_shell());
    }
}

/// No key but F4 touches the latch.
pub proof fn law_other_keys_leave_the_latch(s: ServerModel, key: u32, state: u32)
    requires
        key != KEY_F4,
    ensures
        s.key_changed(key, state).0.f4_down == s.f4_down,
        s.key_changed(key, state).0.f4_consumed == s.f4_consumed,
{
}

/// The state once a connection has taken a request keeps the settings and the
/// picture.
proof fn lemma_made(s: ServerModel, client_id: ClientId, payload: Seq<u8>)
    ensures
        settings(s.toplevel_made(client_id, payload)) == settings(s),
        keeps_picture(s, s.toplevel_made(client_id, payload)),
{
    broadcast use holdings::group_holdings;

    reveal(ServerModel::toplevel_made);
    let request = XdgShellGetToplevel::held_by(payload);
    let owner = WindowOwner { client_id, toplevel_id: request.new_id };
    holdings::lemma_positioned(s, owner);
    let placed = s.positioned(owner);
    holdings::lemma_numbered(placed, owner);
    let numbered = placed.numbered(owner);
    let made = numbered.created(owner);
    assert(settings(made) == settings(numbered) && keeps_picture(numbered, made)) by {
        reveal(ServerModel::created);
    }
    holdings::lemma_first_shown(made, client_id, request.surface_id);
}

proof fn lemma_destroyed(s: ServerModel, owner: WindowOwner)
    ensures
        settings(s.destroyed(owner)) == settings(s),
        keeps_picture(s, s.destroyed(owner)),
{
    broadcast use holdings::group_holdings;

    reveal(ServerModel::destroyed);
    reveal(ServerModel::unregistered);
}

/// Whether a message asks for another work area.
pub open spec fn asks_for_work_area(s: ServerModel, client_id: ClientId, message: Seq<u8>) -> bool {
    let header = wire::header_at(message);
    s.interface_of(client_id, header.object_id) == Some(Interface::ShellManager) && header.opcode
        == 6
}

/// A request changes the settings only if it asks for another work area; and
/// in a batch it leaves the picture alone.
pub proof fn law_dispatch_keeps_settings(
    s: ServerModel,
    client_id: ClientId,
    message: Seq<u8>,
    granted: bool,
)
    ensures
        keeps_picture(s, s.dispatched(client_id, message, granted).0),
        keeps_picture(s, s.served(client_id, message, granted)),
        !asks_for_work_area(s, client_id, message) ==> settings(
            s.served(client_id, message, granted),
        ) == settings(s),
{
    reveal(ServerModel::carried_out);
    let header = wire::header_at(message);
    let payload = message.subrange(HEADER_SIZE as int, header.length as int);
    let target = header.object_id;
    let opcode = header.opcode;
    if wire::header_fault(message) is None && !s.is_withheld(client_id, target, opcode)
        && s.clients.contains_key(client_id) {
        let step = s.clients[client_id].dispatched(header, payload, s.budgets(client_id), granted);
        if step.1 is None {
            let counted = s.recounted(client_id, step.0);
            let reserved = s.is_reserved(client_id, target, opcode);
            let settled = ServerModel {
                command_owner: if reserved {
                    None
                } else {
                    counted.command_owner
                },
                ..counted
            };
            let owner = WindowOwner { client_id, toplevel_id: target };
            lemma_made(settled, client_id, payload);
            lemma_destroyed(settled, owner);
            holdings::law_surfaces_take_nothing(settled, s, client_id, target, opcode, payload);
            holdings::law_shells_take_nothing(settled, client_id, opcode, payload, reserved);
            if opcode != 3 {
                holdings::law_toplevels_take_nothing(settled, owner, opcode, payload);
            } else {
                reveal(ServerModel::toplevel_followed);
            }
        }
    }
    let after = s.dispatched(client_id, message, granted).0;
    match crate::server::serve::registry_asked_for(message) {
        Some(registry_id) => {
            holdings::lemma_advertised(after, client_id, registry_id);
        },
        None => {},
    }
}

/// Input and the passing of time leave the picture alone in a batch, and the
/// work area always.
pub proof fn law_input_keeps_picture(
    s: ServerModel,
    x: i32,
    y: i32,
    button: u32,
    key: u32,
    state: u32,
    now_ms: u64,
)
    ensures
        keeps_picture(s, s.pointer_moved(x, y).0),
        keeps_picture(s, s.button_changed(button, state).0),
        keeps_picture(s, s.key_changed(key, state).0),
        keeps_picture(s, s.at_time(now_ms)),
        settings(s.pointer_moved(x, y).0) == settings(s),
        settings(s.button_changed(button, state).0) == settings(s),
        settings(s.at_time(now_ms)) == settings(s),
        s.key_changed(key, state).0.work_area_owner == s.work_area_owner,
        s.key_changed(key, state).0.taskbar_height == s.taskbar_height,
{
    holdings::law_input_takes_nothing(s, x, y, button, key, state, now_ms);
}

proof fn lemma_buried(s: ServerModel, pairs: Seq<(WindowOwner, WindowId)>)
    ensures
        settings(s.buried(pairs)) == settings(s),
        keeps_picture(s, s.buried(pairs)),
    decreases pairs.len(),
{
    broadcast use holdings::lemma_announce;

    if pairs.len() > 0 {
        lemma_buried(s, pairs.drop_last());
    }
}

/// A connection that goes gives up the work area if it kept it, and leaves it
/// alone if it did not; and in a batch the picture stays.
pub proof fn law_disconnect_gives_up_work_area(s: ServerModel, id: ClientId)
    ensures
        ({
            let after = s.disconnected(id);
            &&& keeps_picture(s, after)
            &&& s.work_area_owner == Some(id) ==> after.work_area_owner is None
                && after.taskbar_height == 0
            &&& s.work_area_owner != Some(id) ==> settings(after) == settings(s)
        }),
{
    broadcast use holdings::group_holdings;

    reveal(ServerModel::disconnected);
    reveal(ServerModel::forgotten);
    let leaving = s.windows_leaving(id);
    let forgotten = s.unfocused(id).forgotten(id);
    let thinned = ServerModel {
        z_order: focus::without(forgotten.z_order, connections::windows_of(leaving)),
        ..forgotten
    };
    lemma_buried(thinned, leaving);
    holdings::lemma_restore_aborted(s.parted(id), events::RESTORE_ABORTED, false);
}

/// However much happens in a batch, the picture is composed at most once: what
/// leaves it alone until the batch ends is one composition behind at the end.
pub proof fn law_batch_composes_once(before: ServerModel, within: ServerModel)
    requires
        !before.deferred,
        keeps_picture(ServerModel { deferred: true, ..before }, within),
    ensures
        ({
            let after = within.batch_ended();
            &&& !after.deferred
            &&& !after.pending
            &&& within.pending ==> after.scene_generation == before.scene_generation.wrapping_add(
                1,
            ) && after.frame == (ServerModel { deferred: false, pending: false, ..within }).scene()
            &&& !within.pending ==> after.frame == before.frame && after.scene_generation
                == before.scene_generation
        }),
{
}

/// What is kept back for shells stays so: a request of any other connection
/// that takes more memory or texts leaves the shells' part of the limits free.
pub proof fn law_shell_reserve_is_kept(
    s: ServerModel,
    client_id: ClientId,
    header: wire::MessageHeader,
    payload: Seq<u8>,
    granted: bool,
)
    requires
        s.is_sound(),
        s.clients.contains_key(client_id),
        !s.is_shell(client_id),
    ensures
        ({
            let after = s.clients[client_id].dispatched(
                header,
                payload,
                s.budgets(client_id),
                granted,
            ).0;
            let counted = s.recounted(client_id, after);
            let shells = s.limits.shell_clients as int;
            &&& counted.pool_bytes > s.pool_bytes ==> counted.pool_bytes
                <= crate::server::dispatch::ordinary_limit(
                s.limits.pool_bytes as int,
                crate::server::SHELL_FULL_OUTPUT_POOL_BYTES as int,
                shells,
            )
            &&& counted.toplevel_metadata_bytes > s.toplevel_metadata_bytes
                ==> counted.toplevel_metadata_bytes <= crate::server::dispatch::ordinary_limit(
                s.limits.toplevel_metadata_bytes as int,
                crate::server::SHELL_METADATA_BYTES_RESERVED_PER_CLIENT as int,
                shells,
            )
        }),
{
    let c = s.clients[client_id];
    let step = c.dispatched(header, payload, s.budgets(client_id), granted);
    sound::lemma_afforded(s, client_id, header, payload, granted);
    sound::lemma_budgets(s, client_id);
    crate::sums::lemma_map_insert(s.clients, sound::pool_bytes_held(), client_id, c);
    crate::sums::lemma_map_insert(s.clients, sound::text_bytes_held(), client_id, c);
}

/// Whether two pictures have the same size and background.
pub open spec fn is_same_canvas(a: FramebufferModel, b: FramebufferModel) -> bool {
    &&& a.width == b.width
    &&& a.height == b.height
    &&& a.clear_argb == b.clear_argb
    &&& a.is_whole() ==> b.is_whole()
}

proof fn lemma_blitted(f: FramebufferModel, info: BufferInfo, source: Seq<u8>, x: int, y: int)
    ensures
        is_same_canvas(f, f.blitted(info, source, x, y).0),
{
    if f.is_whole() && f.width > 0 && f.height > 0 {
        compositor::law_blit_is_exact(f, info, source, x, y, 0, 0, 0);
    } else {
        reveal(FramebufferModel::blitted);
    }
}

proof fn lemma_surface_drawn(
    f: FramebufferModel,
    client: ClientModel,
    surface_id: ObjectId,
    x: i32,
    y: i32,
)
    ensures
        is_same_canvas(f, scene::surface_drawn(f, client, surface_id, x, y)),
{
    if client.shows(surface_id) {
        let buffer_id = (client.surfaces[surface_id].current_buffer->0).buffer_id;
        match client.buffer_memory(buffer_id) {
            Some(memory) => {
                lemma_blitted(f, client.buffers[buffer_id], memory, x as int, y as int);
            },
            None => {},
        }
    }
}

proof fn lemma_plain_drawn(f: FramebufferModel, client: ClientModel, ids: Seq<ObjectId>)
    ensures
        is_same_canvas(f, scene::plain_drawn(f, client, ids)),
    decreases ids.len(),
{
    if ids.len() > 0 {
        lemma_plain_drawn(f, client, ids.drop_last());
        let under = scene::plain_drawn(f, client, ids.drop_last());
        let attachment = client.surfaces[ids.last()].current_buffer->0;
        lemma_surface_drawn(under, client, ids.last(), attachment.x, attachment.y);
    }
}

pub(crate) proof fn lemma_clients_drawn(s: ServerModel, f: FramebufferModel, ids: Seq<ClientId>)
    ensures
        is_same_canvas(f, s.clients_drawn(f, ids)),
    decreases ids.len(),
{
    if ids.len() > 0 {
        lemma_clients_drawn(s, f, ids.drop_last());
        let client = s.clients[ids.last()];
        lemma_plain_drawn(
            s.clients_drawn(f, ids.drop_last()),
            client,
            ordered::ascending_keys(client.surfaces.dom()),
        );
    }
}

proof fn lemma_windows_drawn(s: ServerModel, f: FramebufferModel, order: Seq<WindowId>)
    ensures
        is_same_canvas(f, s.windows_drawn(f, order)),
    decreases order.len(),
{
    if order.len() > 0 {
        lemma_windows_drawn(s, f, order.drop_last());
        let owner = s.windows[order.last()];
        let toplevel = s.toplevel(owner);
        let client = s.clients[owner.client_id];
        let attachment = client.surfaces[toplevel.surface_id].current_buffer->0;
        lemma_surface_drawn(
            s.windows_drawn(f, order.drop_last()),
            client,
            toplevel.surface_id,
            crate::arith::sat_i32(toplevel.x + attachment.x),
            crate::arith::sat_i32(toplevel.y + attachment.y),
        );
    }
}

/// The picture of a scene has the size of the picture before.
pub(crate) proof fn lemma_scene_keeps_canvas(s: ServerModel)
    ensures
        is_same_canvas(s.frame, s.scene()),
{
    reveal(ServerModel::scene);
    let ids = ordered::ascending_keys(s.clients.dom());
    lemma_clients_drawn(s, s.frame.cleared(), ids);
    lemma_windows_drawn(s, s.clients_drawn(s.frame.cleared(), ids), s.z_order);
}

/// What a picture is drawn on and with does not depend on the picture before.
proof fn lemma_drawn_of_same(a: ServerModel, b: ServerModel)
    requires
        b == (ServerModel {
            frame: b.frame,
            scene_generation: b.scene_generation,
            ..a
        }),
        a.frame.cleared() == b.frame.cleared(),
    ensures
        a.scene() == b.scene(),
{
    reveal(ServerModel::scene);
    let ids = ordered::ascending_keys(a.clients.dom());
    lemma_clients_drawn_of_same(a, b, a.frame.cleared(), ids);
    lemma_windows_drawn_of_same(a, b, a.clients_drawn(a.frame.cleared(), ids), a.z_order);
}

proof fn lemma_clients_drawn_of_same(
    a: ServerModel,
    b: ServerModel,
    f: FramebufferModel,
    ids: Seq<ClientId>,
)
    requires
        a.clients == b.clients,
    ensures
        a.clients_drawn(f, ids) == b.clients_drawn(f, ids),
    decreases ids.len(),
{
    if ids.len() > 0 {
        lemma_clients_drawn_of_same(a, b, f, ids.drop_last());
    }
}

proof fn lemma_windows_drawn_of_same(
    a: ServerModel,
    b: ServerModel,
    f: FramebufferModel,
    order: Seq<WindowId>,
)
    requires
        a.clients == b.clients,
        a.windows == b.windows,
    ensures
        a.windows_drawn(f, order) == b.windows_drawn(f, order),
    decreases order.len(),
{
    if order.len() > 0 {
        lemma_windows_drawn_of_same(a, b, f, order.drop_last());
        assert(a.is_focusable(order.last()) == b.is_focusable(order.last()));
    }
}

/// After a change the picture is that of the whole scene, whatever it was
/// before: composing it once more would show the same.
pub proof fn law_picture_is_of_the_scene(s: ServerModel, damage: DamageModel)
    requires
        !s.deferred,
        s.frame.is_whole(),
    ensures
        s.changed(damage).frame == s.changed(damage).scene(),
        is_same_canvas(s.frame, s.changed(damage).frame),
        s.changed(damage).frame.is_whole(),
{
    reveal(ServerModel::changed);
    reveal(ServerModel::scene);
    let noted = ServerModel {
        damage: s.damage.with(damage),
        recomposition_serial: s.recomposition_serial.wrapping_add(1),
        ..s
    };
    let after = s.changed(damage);
    let ids = ordered::ascending_keys(s.clients.dom());
    lemma_clients_drawn(noted, s.frame.cleared(), ids);
    lemma_windows_drawn(noted, noted.clients_drawn(s.frame.cleared(), ids), s.z_order);
    assert(s.frame.width * s.frame.height >= 0) by (nonlinear_arith);
    assert(after.frame.cleared() =~= s.frame.cleared());
    lemma_drawn_of_same(noted, after);
}

} // verus!
