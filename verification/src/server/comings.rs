//! How windows come and go.

use vstd::prelude::*;

use crate::bytes;
use crate::client::model::{ClientModel, ToplevelModel};
use crate::client::AUTO_LAYOUT_STEP;
use crate::ids::{ClientId, ObjectId, WindowId, WindowOwner};
use crate::objects::Interface;
use crate::server::coverage;
use crate::server::damage::DamageModel;
use crate::server::desk;
use crate::server::desk::is_highest;
use crate::server::focus;
use crate::server::model::{NoticeModel, ServerModel};
use crate::server::promises;
use crate::server::restoring;
use crate::server::restoring::is_below;
use crate::server::shells;
use crate::server::shells::{others_stay, word};
use crate::server::sound;
use crate::server::telling;
use crate::server::telling::{is_told, is_up_to_date, only_shows, only_tells};
use crate::server::toplevels;
use crate::server::toplevels::{addressed, is_to_toplevel};
use crate::wire;
use crate::wire::HEADER_SIZE;

verus! {

/// Whether an order is another without one window.
pub open spec fn is_without(before: Seq<WindowId>, after: Seq<WindowId>, w: WindowId) -> bool {
    &&& forall|v: WindowId| #[trigger] after.contains(v) == (before.contains(v) && v != w)
    &&& forall|a: WindowId, b: WindowId|
        #![trigger is_below(after, a, b)]
        is_below(before, a, b) && a != w && b != w ==> is_below(after, a, b)
}

/// A connection without a toplevel: it shows what it showed, but for the
/// toplevel's surface.
proof fn lemma_without_toplevel(c: ClientModel, id: ObjectId)
    requires
        c.toplevels.contains_key(id),
    ensures
        ({
            let after = ServerModel::without_toplevel(c, id);
            let surface_id = c.toplevels[id].surface_id;
            &&& after.toplevels == c.toplevels.remove(id)
            &&& forall|t: ObjectId|
                t != surface_id ==> #[trigger] after.shows(t) == c.shows(t)
            &&& !after.shows(surface_id)
            &&& after.capabilities == c.capabilities
        }),
{
    broadcast use crate::client::model::lemma_emit_frame;
    broadcast use crate::client::sound::lemma_reap_frame;

    let toplevel = c.toplevels[id];
    let released = ClientModel { toplevels: c.toplevels.remove(id), ..c }.release_metadata(
        toplevel,
    );
    let named = ClientModel {
        toplevel_by_surface: released.toplevel_by_surface.remove(toplevel.surface_id),
        objects: released.objects.remove(id),
        ..released
    }.emit_delete_id(id);
    let surface_id = toplevel.surface_id;
    if named.surfaces.contains_key(surface_id) {
        let surface = named.surfaces[surface_id];
        let bare = ClientModel {
            surfaces: named.surfaces.insert(
                surface_id,
                crate::client::model::SurfaceModel {
                    pending_buffer: None,
                    pending_attach: false,
                    pending_damage: Seq::empty(),
                    pending_damage_unprovable: false,
                    current_buffer: None,
                    ..surface
                },
            ),
            ..named
        };
        let shown = if surface.current_buffer is Some {
            Some(surface.current_buffer->0.buffer_id)
        } else {
            None
        };
        coverage::lemma_reaped(bare.release(shown));
    } else {
        coverage::lemma_reaped(named);
    }
}

/// What the end of a window comes to: it is gone, and no other is touched. If it
/// had the focus, the highest window that can have it gets it; if it was being
/// dragged, nothing is any more. The picture follows at once.
pub open spec fn is_window_gone(a: ServerModel, b: ServerModel, owner: WindowOwner) -> bool {
    let window_id = a.window_ids[owner];
    let before = a.toplevel(owner);
    &&& !b.has_toplevel(owner)
    &&& others_stay(a, b, owner)
    &&& b.windows == a.windows.remove(window_id)
    &&& b.window_ids == a.window_ids.remove(owner)
    &&& is_without(a.z_order, b.z_order, window_id)
    &&& a.focus == Some((owner.client_id, before.surface_id)) ==> is_highest(b, b.focus)
    &&& a.focus != Some((owner.client_id, before.surface_id)) ==> b.focus == a.focus
    &&& a.is_dragged(owner) ==> b.drag is None
    &&& !a.is_dragged(owner) ==> b.drag == a.drag
    &&& !b.clients[owner.client_id].shows(before.surface_id)
    &&& a.frame.is_whole() && !a.deferred ==> is_up_to_date(b)
}

/// The focus falls to the highest window but the one that goes.
proof fn lemma_fallback_but_one(s: ServerModel, b: ServerModel, gone: WindowId)
    requires
        forall|w: WindowId| w != gone ==> #[trigger] b.is_focusable(w) == s.is_focusable(w),
        forall|w: WindowId|
            w != gone && #[trigger] s.is_focusable(w) ==> b.windows[w] == s.windows[w]
                && b.toplevel(b.windows[w]).surface_id == s.toplevel(s.windows[w]).surface_id,
        b.z_order == focus::without(s.z_order, Set::empty().insert(gone)),
    ensures
        is_highest(b, s.fallback_focus(Set::empty().insert(gone))),
{
    let set = Set::<WindowId>::empty().insert(gone);
    let allowed = s.focusable().difference(set);
    assert forall|w: WindowId| #[trigger] allowed.contains(w) == (s.is_focusable(w) && w != gone) by {}
    lemma_topmost_without(s.z_order, allowed, set);
    desk::lemma_topmost(b.z_order, allowed);
    lemma_gone(s.z_order, set, gone);
    assert forall|j: int| 0 <= j < b.z_order.len() implies b.is_focusable(#[trigger] b.z_order[j])
        == allowed.contains(b.z_order[j]) by {
        assert(b.z_order.contains(b.z_order[j]));
    }
    if let Some(w) = focus::topmost(b.z_order, allowed) {
        let i = choose|i: int|
            0 <= i < b.z_order.len() && #[trigger] b.z_order[i] == w && allowed.contains(w)
                && forall|j: int|
                i < j < b.z_order.len() ==> !allowed.contains(#[trigger] b.z_order[j]);
        assert(b.is_focusable(b.z_order[i]));
    }
}

/// A window that is taken out is not in what is left.
pub(crate) proof fn lemma_gone(order: Seq<WindowId>, set: Set<WindowId>, gone: WindowId)
    requires
        set.contains(gone),
    ensures
        !focus::without(order, set).contains(gone),
    decreases order.len(),
{
    if order.len() > 0 {
        lemma_gone(order.drop_last(), set, gone);
        let rest = focus::without(order.drop_last(), set);
        let after = focus::without(order, set);
        if after.contains(gone) {
            let i = choose|i: int| 0 <= i < after.len() && after[i] == gone;
            if i < rest.len() {
                assert(rest[i] == gone);
            }
        }
    }
}

/// What may not be chosen may as well not be there.
pub(crate) proof fn lemma_topmost_without(order: Seq<WindowId>, allowed: Set<WindowId>, gone: Set<WindowId>)
    requires
        forall|w: WindowId| #[trigger] allowed.contains(w) ==> !gone.contains(w),
    ensures
        focus::topmost(focus::without(order, gone), allowed) == focus::topmost(order, allowed),
    decreases order.len(),
{
    if order.len() > 0 {
        lemma_topmost_without(order.drop_last(), allowed, gone);
        let rest = focus::without(order.drop_last(), gone);
        if !gone.contains(order.last()) {
            assert(rest.push(order.last()).drop_last() =~= rest);
        }
    }
}

/// An order without one window.
pub(crate) proof fn lemma_is_without(order: Seq<WindowId>, w: WindowId)
    ensures
        is_without(order, focus::without(order, Set::empty().insert(w)), w),
{
    let set = Set::<WindowId>::empty().insert(w);
    let after = focus::without(order, set);
    lemma_gone(order, set, w);
    assert forall|v: WindowId| #[trigger] after.contains(v) == (order.contains(v) && v != w) by {
        if order.contains(v) && v != w {
            let i = choose|i: int| 0 <= i < order.len() && order[i] == v;
            restoring::lemma_without_keeps_others(order, set, i);
        }
        if after.contains(v) {
            lemma_without_is_part(order, set, v);
        }
    }
    assert forall|a: WindowId, b: WindowId|
        #![trigger is_below(after, a, b)]
        is_below(order, a, b) && a != w && b != w implies is_below(after, a, b) by {
        restoring::lemma_without_keeps_order(order, set, a, b);
    }
}

proof fn lemma_without_is_part(order: Seq<WindowId>, set: Set<WindowId>, v: WindowId)
    requires
        focus::without(order, set).contains(v),
    ensures
        order.contains(v),
    decreases order.len(),
{
    if order.len() > 0 {
        let front = order.drop_last();
        let rest = focus::without(front, set);
        let after = focus::without(order, set);
        let i = choose|i: int| 0 <= i < after.len() && after[i] == v;
        if i < rest.len() {
            assert(rest[i] == v);
            lemma_without_is_part(front, set, v);
            let j = choose|j: int| 0 <= j < front.len() && front[j] == v;
            assert(order[j] == v);
        } else {
            assert(order[order.len() - 1] == v);
        }
    }
}


/// The state without a window, but for the focus.
proof fn lemma_unregistered(s: ServerModel, owner: WindowOwner)
    requires
        s.window_ids.contains_key(owner),
    ensures
        ({
            let window_id = s.window_ids[owner];
            let after = s.unregistered(owner);
            only_tells(
                ServerModel {
                    window_ids: s.window_ids.remove(owner),
                    windows: s.windows.remove(window_id),
                    z_order: focus::without(s.z_order, Set::empty().insert(window_id)),
                    restore: after.restore,
                    ..s
                },
                after,
            )
        }),
{
    broadcast use telling::group_shows;

    reveal(ServerModel::unregistered);
    let window_id = s.window_ids[owner];
    let gone = Set::<WindowId>::empty().insert(window_id);
    let bare = ServerModel {
        window_ids: s.window_ids.remove(owner),
        windows: s.windows.remove(window_id),
        z_order: focus::without(s.z_order, gone),
        restore: crate::server::windows::restore_without(s.restore, window_id),
        ..s
    };
    let told = bare.announce(NoticeModel::Destroyed { window_id: window_id.0 });
    assert(only_tells(bare, told));
    assert(only_tells(told, s.unregistered(owner)));
    telling::lemma_tells_then(bare, told, s.unregistered(owner));
}

#[verifier::rlimit(40)]
pub(crate) proof fn lemma_window_gone(s: ServerModel, owner: WindowOwner)
    requires
        s.is_orderly(),
        s.window_ids.contains_key(owner),
        s.has_toplevel(owner),
        s.clients.dom().finite(),
        s.clients[owner.client_id].toplevels_are_sound(),
    ensures
        is_window_gone(s, s.destroyed(owner), owner),
{
    broadcast use telling::group_shows;

    reveal(ServerModel::destroyed);
    let window_id = s.window_ids[owner];
    let before = s.toplevel(owner);
    let surface_id = before.surface_id;
    let loses = s.focus == Some((owner.client_id, surface_id));
    let excluded = Set::<WindowId>::empty().insert(window_id);
    let fallback = s.fallback_focus(excluded);
    let moved = if loses {
        s.focused(fallback)
    } else {
        s
    };
    let aimed = ServerModel { focus: moved.focus, ..s };
    assert(only_tells(aimed, moved)) by {
        telling::lemma_focused(s, fallback);
    }
    telling::lemma_all_told(aimed, moved);
    assert(aimed.has_toplevel(owner));
    assert(moved.has_toplevel(owner));
    let c = moved.clients[owner.client_id];
    assert(is_told(s.clients[owner.client_id], c)) by {
        assert(aimed.clients.contains_key(owner.client_id));
    }
    lemma_without_toplevel(c, owner.toplevel_id);
    let d = ServerModel::without_toplevel(c, owner.toplevel_id);
    let freed = ServerModel {
        pool_bytes: moved.pool_bytes.saturating_sub(c.pool_bytes).saturating_add(d.pool_bytes),
        toplevel_metadata_bytes: moved.toplevel_metadata_bytes.saturating_sub(
            c.toplevel_metadata_bytes,
        ).saturating_add(d.toplevel_metadata_bytes),
        ..moved.with_client(owner.client_id, d)
    };
    let dropped = if freed.is_dragged(owner) {
        ServerModel { drag: None, ..freed }
    } else {
        freed
    };
    lemma_unregistered(dropped, owner);
    let gone = dropped.unregistered(owner);
    let told = if loses {
        gone.announce_focus(gone.window_of_focus(fallback))
    } else {
        gone
    };
    assert(only_tells(gone, told));
    let after = s.destroyed(owner);
    assert(only_shows(told, after));
    telling::lemma_shows_then(gone, told, after);
    let bare = ServerModel {
        window_ids: dropped.window_ids.remove(owner),
        windows: dropped.windows.remove(window_id),
        z_order: focus::without(dropped.z_order, excluded),
        restore: gone.restore,
        ..dropped
    };
    telling::lemma_shows_then(bare, gone, after);
    telling::lemma_all_told(bare, after);
    lemma_is_without(s.z_order, window_id);
    assert forall|o: WindowOwner| o != owner implies #[trigger] after.has_toplevel(o)
        == s.has_toplevel(o) && (s.has_toplevel(o) ==> after.toplevel(o) == s.toplevel(o)) by {
        assert(bare.has_toplevel(o) == freed.has_toplevel(o));
        assert(freed.has_toplevel(o) == moved.has_toplevel(o));
        assert(moved.has_toplevel(o) == aimed.has_toplevel(o));
        assert(aimed.has_toplevel(o) == s.has_toplevel(o));
    }
    assert(!after.has_toplevel(owner)) by {
        assert(!bare.has_toplevel(owner));
        assert(after.has_toplevel(owner) == bare.has_toplevel(owner));
    }
    assert(!after.clients[owner.client_id].shows(surface_id)) by {
        assert(bare.clients.contains_key(owner.client_id));
    }
    if loses {
        assert forall|w: WindowId| w != window_id implies #[trigger] after.is_focusable(w)
            == s.is_focusable(w) by {
            lemma_others_are_seen(s, moved, bare, owner, w);
            assert(after.is_focusable(w) == bare.is_focusable(w));
        }
        assert forall|w: WindowId| w != window_id && #[trigger] s.is_focusable(w) implies after.windows[w]
            == s.windows[w] && after.toplevel(after.windows[w]).surface_id == s.toplevel(
            s.windows[w],
        ).surface_id by {
            assert(s.windows.contains_key(w));
            assert(s.windows[w] != owner);
            assert(after.has_toplevel(s.windows[w]) == s.has_toplevel(s.windows[w]));
        }
        lemma_fallback_but_one(s, after, window_id);
    }
    if s.frame.is_whole() && !s.deferred {
        promises::law_picture_is_of_the_scene(told, DamageModel::Full);
    }
}

/// The other windows are seen as before.
proof fn lemma_others_are_seen(
    s: ServerModel,
    moved: ServerModel,
    bare: ServerModel,
    owner: WindowOwner,
    w: WindowId,
)
    requires
        s.is_orderly(),
        s.window_ids.contains_key(owner),
        s.has_toplevel(owner),
        s.clients[owner.client_id].toplevels_are_sound(),
        w != s.window_ids[owner],
        telling::all_told(s.clients, moved.clients),
        bare.windows == s.windows.remove(s.window_ids[owner]),
        bare.clients == moved.clients.insert(
            owner.client_id,
            ServerModel::without_toplevel(moved.clients[owner.client_id], owner.toplevel_id),
        ),
    ensures
        bare.is_focusable(w) == s.is_focusable(w),
{
    if s.windows.contains_key(w) {
        let o = s.windows[w];
        assert(o != owner);
        telling::lemma_all_told(s, moved);
        assert(moved.has_toplevel(o) == s.has_toplevel(o));
        assert(moved.has_toplevel(owner) == s.has_toplevel(owner));
        let c = moved.clients[owner.client_id];
        assert(is_told(s.clients[owner.client_id], c));
        lemma_without_toplevel(c, owner.toplevel_id);
        if s.has_toplevel(o) {
            assert(is_told(s.clients[o.client_id], moved.clients[o.client_id]));
            assert(moved.toplevel(o) == s.toplevel(o));
            if o.client_id == owner.client_id {
                let x = s.clients[owner.client_id];
                assert(x.toplevels.contains_key(o.toplevel_id));
                assert(x.toplevels.contains_key(owner.toplevel_id));
                assert(s.toplevel(o).surface_id != s.toplevel(owner).surface_id);
            }
        }
    }
}

/// A window that its connection destroys is gone, and no other is touched. If it
/// had the focus, the highest window that can have it gets it. The picture
/// follows at once.
pub proof fn law_destroyed_window_is_gone(
    s: ServerModel,
    client_id: ClientId,
    message: Seq<u8>,
    granted: bool,
)
    requires
        s.is_sound(),
        is_to_toplevel(s, client_id, message, 3),
        s.dispatched(client_id, message, granted).1 is None,
    ensures
        is_window_gone(
            s,
            s.dispatched(client_id, message, granted).0,
            addressed(client_id, message),
        ),
{
    let owner = addressed(client_id, message);
    toplevels::lemma_not_refused(s, client_id, message, 3, granted);
    let taken = toplevels::lemma_toplevel_request(s, client_id, message, 3, granted);
    reveal(ServerModel::toplevel_followed);
    telling::lemma_all_told(s, taken);
    assert(s.window_ids.contains_key(owner));
    assert(s.clients[client_id].is_sound());
    assert(is_told(s.clients[client_id], taken.clients[client_id]));
    assert(taken.is_orderly());
    assert(taken.has_toplevel(owner) && taken.toplevel(owner) == s.toplevel(owner));
    lemma_window_gone(taken, owner);
    let after = s.dispatched(client_id, message, granted).0;
    assert forall|o: WindowOwner| o != owner implies #[trigger] after.has_toplevel(o)
        == s.has_toplevel(o) && (s.has_toplevel(o) ==> after.toplevel(o) == s.toplevel(o)) by {
        assert(taken.has_toplevel(o) == s.has_toplevel(o));
    }
}


// New windows.

/// Whether a message asks to make a window of a surface of a connection.
pub open spec fn asks_for_window(s: ServerModel, client_id: ClientId, message: Seq<u8>) -> bool {
    let header = wire::header_at(message);
    &&& wire::header_fault(message) is None
    &&& s.interface_of(client_id, header.object_id) == Some(Interface::XdgShell)
    &&& header.opcode == 1
    &&& header.length == HEADER_SIZE + 8
}

/// What a connection has after it has made a window of a surface.
proof fn lemma_toplevel_installed(
    s: ServerModel,
    client_id: ClientId,
    message: Seq<u8>,
    granted: bool,
) -> (taken: ServerModel)
    requires
        s.is_sound(),
        asks_for_window(s, client_id, message),
        s.dispatched(client_id, message, granted).1 is None,
    ensures
        ({
            let owner = WindowOwner { client_id, toplevel_id: ObjectId(word(message, 0)) };
            let surface_id = ObjectId(word(message, 1));
            let c = s.clients[client_id];
            let d = taken.clients[client_id];
            let t = d.toplevels[owner.toplevel_id];
            &&& !s.has_toplevel(owner)
            &&& taken == (ServerModel {
                clients: taken.clients,
                pool_bytes: taken.pool_bytes,
                toplevel_metadata_bytes: taken.toplevel_metadata_bytes,
                ..s
            })
            &&& taken.clients == s.clients.insert(client_id, d)
            &&& d.toplevels == c.toplevels.insert(owner.toplevel_id, t)
            &&& d.peer_pid == c.peer_pid
            &&& d.capabilities == c.capabilities
            &&& d.is_object(owner.toplevel_id, Interface::XdgToplevel)
            &&& t.surface_id == surface_id
            &&& !t.minimized && !t.maximized && !t.mapped_once && !t.initial_configure_sent
                && t.restore_origin is None
            &&& t.title.len() == 0 && t.app_id.len() == 0
            &&& !c.shows(surface_id) ==> !d.shows(surface_id)
            &&& s.dispatched(client_id, message, granted).0 == taken.toplevel_made(
                client_id,
                message.subrange(10, 18),
            )
        }),
{
    broadcast use crate::client::model::lemma_emit_frame;
    broadcast use crate::client::sound::lemma_reap_frame;

    reveal(ServerModel::carried_out);
    reveal(ClientModel::dispatched);
    reveal(ClientModel::mutated);
    let header = wire::header_at(message);
    let payload = message.subrange(HEADER_SIZE as int, header.length as int);
    assert(payload =~= message.subrange(10, 18));
    assert(bytes::le32_at(payload, 0) == word(message, 0));
    assert(bytes::le32_at(payload, 4) == word(message, 1));
    let c = s.clients[client_id];
    let step = c.dispatched(header, payload, s.budgets(client_id), granted);
    let made = c.get_toplevel(payload);
    assert(made.1 is None);
    coverage::lemma_reaped(made.0);
    let id = ObjectId(word(message, 0));
    assert(c.is_sound());
    assert(!c.toplevels.contains_key(id));
    crate::client::sound::law_dispatch_keeps_sound(
        c,
        header,
        payload,
        s.budgets(client_id),
        granted,
    );
    assert(step.0.toplevels.contains_key(id));
    s.recounted(client_id, step.0)
}

/// A surface that shows nothing yet can be made a window. A shell's window is in
/// the corner, below all others; any other is a step away from the one before it,
/// above all others, and hidden while a restore lasts. Windows of a process are
/// numbered. The focus stays, and no other window is touched.
pub proof fn law_new_window_is_placed(
    s: ServerModel,
    client_id: ClientId,
    message: Seq<u8>,
    granted: bool,
)
    requires
        s.is_sound(),
        s.can_number(client_id),
        asks_for_window(s, client_id, message),
        s.dispatched(client_id, message, granted).1 is None,
        !s.clients[client_id].shows(ObjectId(word(message, 1))),
    ensures
        ({
            let owner = WindowOwner { client_id, toplevel_id: ObjectId(word(message, 0)) };
            let window_id = WindowId(s.next_window_id);
            let after = s.dispatched(client_id, message, granted).0;
            let toplevel = after.toplevel(owner);
            let is_shell = s.is_shell(client_id);
            let at = if is_shell {
                0
            } else {
                s.next_toplevel_offset
            };
            let pid = s.clients[client_id].peer_pid;
            &&& !s.has_toplevel(owner)
            &&& after.has_toplevel(owner)
            &&& toplevel.surface_id == ObjectId(word(message, 1))
            &&& toplevel.x == at && toplevel.y == at && toplevel.normal_x == at
                && toplevel.normal_y == at
            &&& !toplevel.minimized && !toplevel.maximized && !toplevel.mapped_once
            &&& toplevel.hidden_for_restore == (!is_shell && s.restore is Some)
            &&& pid != 0 && s.ordinals.contains_key(pid) ==> toplevel.ordinal == s.ordinals[pid]
                && after.ordinals == s.ordinals.insert(pid, (s.ordinals[pid] + 1) as u32)
            &&& pid != 0 && !s.ordinals.contains_key(pid) ==> toplevel.ordinal == 1
                && after.ordinals == s.ordinals.insert(pid, 2)
            &&& is_shell ==> after.next_toplevel_offset == s.next_toplevel_offset
            &&& !is_shell && s.next_toplevel_offset + AUTO_LAYOUT_STEP <= i32::MAX
                ==> after.next_toplevel_offset == s.next_toplevel_offset + AUTO_LAYOUT_STEP
            &&& after.windows == s.windows.insert(window_id, owner)
            &&& after.next_window_id == s.next_window_id + 1
            &&& is_shell ==> after.z_order == seq![window_id] + s.z_order
            &&& !is_shell ==> after.z_order == s.z_order + seq![window_id]
            &&& toplevel.hidden_for_restore ==> (after.restore->0).hidden == (
            s.restore->0).hidden.insert(window_id)
            &&& !toplevel.hidden_for_restore ==> after.restore == s.restore
            &&& after.focus == s.focus
            &&& others_stay(s, after, owner)
        }),
{
    broadcast use telling::group_shows;

    let owner = WindowOwner { client_id, toplevel_id: ObjectId(word(message, 0)) };
    let taken = lemma_toplevel_installed(s, client_id, message, granted);
    reveal(ServerModel::toplevel_made);
    reveal(ServerModel::created);
    let payload = message.subrange(10, 18);
    assert(bytes::le32_at(payload, 0) == word(message, 0));
    assert(bytes::le32_at(payload, 4) == word(message, 1));
    assert(taken.has_toplevel(owner));
    assert(!s.window_ids.contains_key(owner));
    let placed = taken.positioned(owner);
    let numbered = placed.numbered(owner);
    lemma_positioned(taken, owner);
    lemma_numbered(placed, owner);
    let (named, window_id, shifted) = numbered.registered(owner);
    let toplevel = numbered.toplevel(owner);
    let told = named.announce(
        NoticeModel::Created {
            window_id: window_id.0,
            title: toplevel.title,
            app_id: toplevel.app_id,
            state: named.window_state(window_id),
        },
    );
    let made = told.announce_states(shifted);
    assert(only_tells(named, told) && only_tells(told, made));
    telling::lemma_tells_then(named, told, made);
    telling::lemma_all_told(named, made);
    assert(named.has_toplevel(owner) && named.toplevel(owner) == toplevel);
    assert(made.has_toplevel(owner) && made.toplevel(owner) == toplevel);
    assert(!made.clients[client_id].shows(toplevel.surface_id)) by {
        assert(named.clients.contains_key(client_id));
    }
    let after = s.dispatched(client_id, message, granted).0;
    assert(after == made);
    assert(after.z_order =~= if s.is_shell(client_id) {
        seq![window_id] + s.z_order
    } else {
        s.z_order + seq![window_id]
    });
    assert forall|o: WindowOwner| o != owner implies #[trigger] after.has_toplevel(o)
        == s.has_toplevel(o) && (s.has_toplevel(o) ==> after.toplevel(o) == s.toplevel(o)) by {
        assert(named.has_toplevel(o) == numbered.has_toplevel(o));
        assert(numbered.has_toplevel(o) == placed.has_toplevel(o));
        assert(placed.has_toplevel(o) == taken.has_toplevel(o));
        assert(taken.has_toplevel(o) == s.has_toplevel(o));
    }
}

proof fn lemma_positioned(s: ServerModel, owner: WindowOwner)
    requires
        s.has_toplevel(owner),
    ensures
        ({
            let after = s.positioned(owner);
            let is_shell = s.is_shell(owner.client_id);
            let at = if is_shell {
                0
            } else {
                s.next_toplevel_offset
            };
            &&& after.toplevel(owner) == (ToplevelModel {
                x: at,
                y: at,
                normal_x: at,
                normal_y: at,
                hidden_for_restore: !is_shell && s.restore is Some,
                ..s.toplevel(owner)
            })
            &&& after == (ServerModel {
                clients: after.clients,
                next_toplevel_offset: after.next_toplevel_offset,
                ..s
            })
            &&& after.has_toplevel(owner)
            &&& others_stay(s, after, owner)
            &&& after.clients.dom() == s.clients.dom()
            &&& after.clients[owner.client_id] == (ClientModel {
                toplevels: after.clients[owner.client_id].toplevels,
                ..s.clients[owner.client_id]
            })
            &&& is_shell ==> after.next_toplevel_offset == s.next_toplevel_offset
            &&& !is_shell && s.next_toplevel_offset + AUTO_LAYOUT_STEP <= i32::MAX
                ==> after.next_toplevel_offset == s.next_toplevel_offset + AUTO_LAYOUT_STEP
        }),
{
    let after = s.positioned(owner);
    shells::lemma_with_toplevel(s, owner, after.toplevel(owner));
    assert forall|o: WindowOwner| o != owner implies #[trigger] after.has_toplevel(o)
        == s.has_toplevel(o) && (s.has_toplevel(o) ==> after.toplevel(o) == s.toplevel(o)) by {}
    assert(after.clients.dom() =~= s.clients.dom());
}

proof fn lemma_numbered(s: ServerModel, owner: WindowOwner)
    requires
        s.has_toplevel(owner),
    ensures
        ({
            let after = s.numbered(owner);
            let pid = s.clients[owner.client_id].peer_pid;
            &&& after == (ServerModel { clients: after.clients, ordinals: after.ordinals, ..s })
            &&& after.has_toplevel(owner)
            &&& after.toplevel(owner) == (ToplevelModel {
                ordinal: after.toplevel(owner).ordinal,
                ..s.toplevel(owner)
            })
            &&& others_stay(s, after, owner)
            &&& after.clients.dom() == s.clients.dom()
            &&& after.clients[owner.client_id] == (ClientModel {
                toplevels: after.clients[owner.client_id].toplevels,
                ..s.clients[owner.client_id]
            })
            &&& pid != 0 && s.ordinals.contains_key(pid) ==> after.toplevel(owner).ordinal
                == s.ordinals[pid] && after.ordinals == s.ordinals.insert(
                pid,
                (s.ordinals[pid] + 1) as u32,
            )
            &&& pid != 0 && !s.ordinals.contains_key(pid) ==> after.toplevel(owner).ordinal == 1
                && after.ordinals == s.ordinals.insert(pid, 2)
        }),
{
    let after = s.numbered(owner);
    shells::lemma_with_toplevel(s, owner, after.toplevel(owner));
    assert forall|o: WindowOwner| o != owner implies #[trigger] after.has_toplevel(o)
        == s.has_toplevel(o) && (s.has_toplevel(o) ==> after.toplevel(o) == s.toplevel(o)) by {}
    assert(after.clients.dom() =~= s.clients.dom());
}

} // verus!
