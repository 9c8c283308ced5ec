//! What the requests of a shell come to.

use vstd::prelude::*;

use crate::bytes;
use crate::client::model::ToplevelModel;
use crate::ids::{ClientId, WindowId, WindowOwner};
use crate::requests::{RESTORE_WINDOW_ALL, RESTORE_WINDOW_MAXIMIZED, RESTORE_WINDOW_MINIMIZED};
use crate::server::damage::DamageModel;
use crate::server::focus;
use crate::server::model::ServerModel;
use crate::server::promises;
use crate::server::restore::WindowPlace;
use crate::server::telling;
use crate::server::telling::{asks_manager, is_taken, is_up_to_date, only_shows, only_tells};
use crate::wire;

verus! {

/// The window that a request to a manager of windows names.
pub open spec fn named_window(message: Seq<u8>) -> WindowId {
    WindowId(bytes::le32_at(message, 10))
}

/// Whether all toplevels but one are as they were.
pub open spec fn others_stay(a: ServerModel, b: ServerModel, owner: WindowOwner) -> bool {
    forall|o: WindowOwner|
        o != owner ==> #[trigger] b.has_toplevel(o) == a.has_toplevel(o) && (a.has_toplevel(o)
            ==> b.toplevel(o) == a.toplevel(o))
}

/// Whether one window has come to lie above all others, which stay as they are
/// to one another.
pub open spec fn is_lifted(before: Seq<WindowId>, after: Seq<WindowId>, window_id: WindowId) -> bool {
    exists|i: int|
        0 <= i < before.len() && #[trigger] before[i] == window_id && after == before.remove(
            i,
        ).push(window_id)
}

pub(crate) proof fn lemma_is_lifted(order: Seq<WindowId>, window_id: WindowId)
    requires
        order.contains(window_id),
    ensures
        is_lifted(order, focus::lifted(order, window_id).0, window_id),
        focus::lifted(order, window_id).1.len() == 0 ==> focus::lifted(order, window_id).0
            == order,
{
    crate::server::model::lemma_rank_of(order, window_id, 0);
    let place = choose|i: int| 0 <= i < order.len() && order[i] == window_id;
    assert(order[place] == window_id);
    let rank = crate::server::model::rank_of(order, window_id, 0)->0 as int;
    assert(order[rank] == window_id);
    if rank + 1 == order.len() {
        assert(order.remove(rank).push(window_id) =~= order);
    }
}

/// A toplevel that is put in for another.
pub(crate) proof fn lemma_with_toplevel(s: ServerModel, owner: WindowOwner, t: ToplevelModel)
    requires
        s.has_toplevel(owner),
    ensures
        s.with_toplevel(owner, t).has_toplevel(owner),
        s.with_toplevel(owner, t).toplevel(owner) == t,
        others_stay(s, s.with_toplevel(owner, t), owner),
        s.with_toplevel(owner, t).clients.dom() == s.clients.dom(),
{
    assert(s.with_toplevel(owner, t).clients.dom() =~= s.clients.dom());
}

/// What focusing a window comes to: it is brought back, and has the focus and
/// the highest place.
pub(crate) proof fn lemma_window_focused(
    s: ServerModel,
    window_id: WindowId,
    shell: Option<ClientId>,
)
    requires
        s.is_at_hand(window_id),
    ensures
        ({
            let owner = s.windows[window_id];
            let toplevel = s.toplevel(owner);
            let after = s.window_focused(window_id, shell);
            let meant = ServerModel {
                focus: Some((owner.client_id, toplevel.surface_id)),
                z_order: focus::lifted(s.z_order, window_id).0,
                commit_owner: after.commit_owner,
                ..s.with_toplevel(owner, ToplevelModel { minimized: false, ..toplevel })
            };
            &&& only_shows(meant, after)
            &&& s.clients.dom().finite() && is_up_to_date(s) && !s.deferred && shell is None
                ==> is_up_to_date(after)
        }),
{
    reveal(ServerModel::window_focused);
    broadcast use telling::group_shows;

    let owner = s.windows[window_id];
    let toplevel = s.toplevel(owner);
    let back = s.with_toplevel(owner, ToplevelModel { minimized: false, ..toplevel });
    let target = Some((owner.client_id, toplevel.surface_id));
    let moved = back.focused(target);
    let (lifted, raised) = moved.raised(window_id);
    telling::lemma_focused(back, target);
    telling::lemma_raised(moved, window_id);
    let aimed = ServerModel { focus: target, ..back };
    assert(moved.z_order == s.z_order);
    let order = focus::lifted(s.z_order, window_id).0;
    let ordered = ServerModel { z_order: order, ..aimed };
    assert(only_tells(ordered, ServerModel { z_order: order, ..moved }));
    telling::lemma_tells_then(ordered, ServerModel { z_order: order, ..moved }, lifted);
    let damage = if toplevel.minimized {
        DamageModel::Full
    } else {
        moved.raise_damage(window_id)
    };
    let shown = if !toplevel.minimized && !raised {
        lifted
    } else if shell is Some {
        ServerModel { commit_owner: shell, damage: lifted.damage.with(damage), ..lifted }
    } else {
        ServerModel { commit_owner: None, ..lifted }.changed(damage)
    };
    let after = s.window_focused(window_id, shell);
    let meant = ServerModel { commit_owner: after.commit_owner, ..ordered };
    let told = shown.announce_focus(Some(window_id));
    assert(only_shows(meant, ServerModel { commit_owner: after.commit_owner, ..lifted }));
    assert(only_shows(ServerModel { commit_owner: after.commit_owner, ..lifted }, shown));
    telling::lemma_shows_then(
        meant,
        ServerModel { commit_owner: after.commit_owner, ..lifted },
        shown,
    );
    telling::lemma_tells_then(shown, told, after);
    telling::lemma_shows_then(meant, shown, after);
    if s.clients.dom().finite() && is_up_to_date(s) && !s.deferred && shell is None {
        lemma_with_toplevel(s, owner, ToplevelModel { minimized: false, ..toplevel });
        if !toplevel.minimized && !raised {
            assert(back.clients =~= s.clients) by {
                assert(s.clients[owner.client_id].toplevels.insert(owner.toplevel_id, toplevel)
                    =~= s.clients[owner.client_id].toplevels);
            }
            crate::server::model::lemma_rank_of(s.z_order, window_id, 0);
            telling::lemma_telling_keeps_picture(s, lifted);
        } else {
            let idle = ServerModel { commit_owner: None, ..lifted };
            assert(idle.frame == s.frame);
            promises::law_picture_is_of_the_scene(idle, damage);
        }
        telling::lemma_telling_keeps_picture(shown, after);
    }
}

/// A window that the shell asks to focus, or to bring back, is no longer
/// minimized; it has the keyboard focus, and lies above all others. If it shows
/// something it can be seen and hit. No other window is touched. The picture
/// follows, at once or with the shell's next commit.
pub proof fn law_focus_request_brings_window_up(
    s: ServerModel,
    client_id: ClientId,
    message: Seq<u8>,
    opcode: u16,
    granted: bool,
)
    requires
        s.is_sound(),
        asks_manager(s, client_id, message, opcode, 4),
        opcode == 2 || opcode == 5,
        s.windows.contains_key(named_window(message)),
        !s.toplevel(s.windows[named_window(message)]).hidden_for_restore,
    ensures
        ({
            let window_id = named_window(message);
            let owner = s.windows[window_id];
            let before = s.toplevel(owner);
            let after = s.dispatched(client_id, message, granted).0;
            &&& s.dispatched(client_id, message, granted).1 is None
            &&& after.has_toplevel(owner)
            &&& !after.toplevel(owner).minimized
            &&& after.toplevel(owner) == (ToplevelModel { minimized: false, ..before })
            &&& after.focus == Some((owner.client_id, before.surface_id))
            &&& is_lifted(s.z_order, after.z_order, window_id)
            &&& after.windows == s.windows
            &&& others_stay(s, after, owner)
            &&& s.clients[owner.client_id].shows(before.surface_id) ==> after.is_focusable(
                window_id,
            )
            &&& is_up_to_date(s) && !s.deferred && (opcode == 5 || s.command_owner != Some(
                client_id,
            )) ==> is_up_to_date(after)
        }),
{
    let window_id = named_window(message);
    let owner = s.windows[window_id];
    let before = s.toplevel(owner);
    let taken = telling::lemma_asks_manager(s, client_id, message, opcode, 4, granted);
    telling::lemma_all_told(s, taken);
    reveal(ServerModel::shell_followed);
    let after = s.dispatched(client_id, message, granted).0;
    let reserved = s.is_reserved(client_id, wire::header_at(message).object_id, opcode);
    let shell = if reserved && opcode == 2 {
        Some(client_id)
    } else {
        None
    };
    assert(bytes::le32_at(message.subrange(10, 14), 0) == bytes::le32_at(message, 10));
    assert(s.window_ids.contains_key(owner));
    assert(s.has_toplevel(owner));
    assert(after == taken.window_focused(window_id, shell));
    lemma_window_focused(taken, window_id, shell);
    let t = ToplevelModel { minimized: false, ..before };
    lemma_with_toplevel(taken, owner, t);
    let meant = ServerModel {
        focus: Some((owner.client_id, before.surface_id)),
        z_order: focus::lifted(s.z_order, window_id).0,
        commit_owner: after.commit_owner,
        ..taken.with_toplevel(owner, t)
    };
    telling::lemma_all_told(meant, after);
    assert(s.z_order.contains(window_id));
    lemma_is_lifted(s.z_order, window_id);
    assert forall|o: WindowOwner| o != owner implies #[trigger] after.has_toplevel(o)
        == s.has_toplevel(o) && (s.has_toplevel(o) ==> after.toplevel(o) == s.toplevel(o)) by {
        assert(taken.with_toplevel(owner, t).has_toplevel(o) == taken.has_toplevel(o));
        assert(meant.has_toplevel(o) == taken.has_toplevel(o));
    }
    if s.clients[owner.client_id].shows(before.surface_id) {
        assert(taken.clients[owner.client_id].shows(before.surface_id));
        assert(meant.is_focusable(window_id));
    }
    if is_up_to_date(s) && !s.deferred && shell is None {
        telling::lemma_telling_keeps_picture(s, taken);
    }
}


// What is told does not matter to what is put in place.

pub(crate) proof fn lemma_toplevel_of_told(a: ServerModel, b: ServerModel, owner: WindowOwner, t: ToplevelModel)
    requires
        only_tells(a, b),
        a.has_toplevel(owner),
    ensures
        only_tells(a.with_toplevel(owner, t), b.with_toplevel(owner, t)),
        b.has_toplevel(owner),
        b.toplevel(owner) == a.toplevel(owner),
{
    telling::lemma_all_told(a, b);
    let c = a.with_toplevel(owner, t);
    let d = b.with_toplevel(owner, t);
    assert(c.clients.dom() =~= d.clients.dom());
}

pub(crate) proof fn lemma_toplevel_put_twice(
    s: ServerModel,
    owner: WindowOwner,
    t: ToplevelModel,
    u: ToplevelModel,
)
    requires
        s.has_toplevel(owner),
    ensures
        s.with_toplevel(owner, t).with_toplevel(owner, u) == s.with_toplevel(owner, u),
{
    let once = s.with_toplevel(owner, t);
    let twice = once.with_toplevel(owner, u);
    let meant = s.with_toplevel(owner, u);
    assert(once.clients[owner.client_id].toplevels.insert(owner.toplevel_id, u)
        =~= s.clients[owner.client_id].toplevels.insert(owner.toplevel_id, u));
    assert(twice.clients =~= meant.clients);
}

proof fn lemma_put_in_place(s: ServerModel, owner: WindowOwner, place: WindowPlace)
    requires
        s.has_toplevel(owner),
    ensures
        only_tells(
            s.with_toplevel(
                owner,
                ToplevelModel {
                    normal_x: place.x,
                    normal_y: place.y,
                    normal_width: place.width,
                    normal_height: place.height,
                    minimized: place.minimized,
                    maximized: place.maximized,
                    initial_configure_sent: true,
                    restore_origin: if place.maximized {
                        Some((place.x, place.y))
                    } else {
                        None
                    },
                    x: if place.maximized {
                        0
                    } else {
                        place.x
                    },
                    y: if place.maximized {
                        0
                    } else {
                        place.y
                    },
                    ..s.toplevel(owner)
                },
            ),
            s.put_in_place(owner, place),
        ),
{
    reveal(ServerModel::put_in_place);
    broadcast use telling::group_shows;

    let t = ToplevelModel {
        normal_x: place.x,
        normal_y: place.y,
        normal_width: place.width,
        normal_height: place.height,
        minimized: place.minimized,
        maximized: false,
        initial_configure_sent: true,
        restore_origin: None,
        x: place.x,
        y: place.y,
        ..s.toplevel(owner)
    };
    let first = s.with_toplevel(owner, t);
    lemma_with_toplevel(s, owner, t);
    let placed = first.configured(owner, place.width as i32, place.height as i32);
    assert(only_tells(first, placed));
    if place.maximized {
        let u = ToplevelModel {
            maximized: true,
            restore_origin: Some((place.x, place.y)),
            x: 0,
            y: 0,
            ..t
        };
        lemma_toplevel_of_told(first, placed, owner, u);
        lemma_toplevel_put_twice(s, owner, t, u);
        let second = placed.with_toplevel(owner, u);
        assert(only_tells(s.with_toplevel(owner, u), second));
        telling::lemma_tells_then(
            s.with_toplevel(owner, u),
            second,
            second.configured(owner, place.expected_width as i32, place.expected_height as i32),
        );
    }
}

// Restoring windows.

/// The word of a message at a place of its payload.
pub open spec fn word(message: Seq<u8>, index: int) -> u32 {
    bytes::le32_at(message, 10 + 4 * index)
}

/// Whether a request to place a window is one that the running restore takes:
/// it is of the shell whose restore it is, names that restore and a window that
/// it holds back, and gives the window a size and none but known flags.
pub open spec fn is_placeable(s: ServerModel, client_id: ClientId, message: Seq<u8>) -> bool {
    let window_id = WindowId(word(message, 1));
    &&& s.restore is Some
    &&& (s.restore->0).owner == client_id
    &&& (s.restore->0).restore_id == word(message, 0)
    &&& word(message, 0) != 0
    &&& (s.restore->0).hidden.contains(window_id)
    &&& word(message, 4) != 0
    &&& word(message, 5) != 0
    &&& word(message, 6) <= RESTORE_WINDOW_ALL
    &&& s.windows.contains_key(window_id)
    &&& !s.is_shell(s.windows[window_id].client_id)
    &&& s.clients[s.windows[window_id].client_id].surfaces.contains_key(
        s.toplevel(s.windows[window_id]).surface_id,
    )
}

/// Whether a span fits between zero and a limit.
pub open spec fn fits(at: i32, size: int, limit: int) -> bool {
    0 <= at && at + size <= limit
}

/// A window that a restore places is minimized or maximized exactly as its
/// request's flags say, and takes its place in the order that the request
/// gives. Its normal place and size are those of the request where they lie in
/// the work area; else the window is moved, and made smaller, until it does. A
/// maximized window is at the corner, and is expected to fill the work area; any
/// other is at its normal place. Until the restore ends, the window stays
/// hidden. No other window is touched, nor is the picture.
pub proof fn law_placed_window_is_as_asked(
    s: ServerModel,
    client_id: ClientId,
    message: Seq<u8>,
    granted: bool,
)
    requires
        s.is_sound(),
        asks_manager(s, client_id, message, 11, 32),
        is_placeable(s, client_id, message),
    ensures
        ({
            let window_id = WindowId(word(message, 1));
            let asked_x = word(message, 2) as i32;
            let asked_y = word(message, 3) as i32;
            let asked_width = word(message, 4);
            let asked_height = word(message, 5);
            let flags = word(message, 6);
            let owner = s.windows[window_id];
            let before = s.toplevel(owner);
            let after = s.dispatched(client_id, message, granted).0;
            let toplevel = after.toplevel(owner);
            let placement = (after.restore->0).placements[window_id];
            let work_width = s.frame.width;
            let work_height = s.work_area_height();
            let surface = s.clients[owner.client_id].surfaces[before.surface_id];
            &&& s.dispatched(client_id, message, granted).1 is None
            &&& after.has_toplevel(owner)
            &&& toplevel.minimized == (flags & RESTORE_WINDOW_MINIMIZED != 0)
            &&& toplevel.maximized == (flags & RESTORE_WINDOW_MAXIMIZED != 0)
            &&& toplevel.hidden_for_restore == before.hidden_for_restore
            &&& toplevel.surface_id == before.surface_id
            &&& toplevel.mapped_once == before.mapped_once
            &&& toplevel.initial_configure_sent
            &&& toplevel.maximized ==> toplevel.x == 0 && toplevel.y == 0
                && toplevel.restore_origin == Some((toplevel.normal_x, toplevel.normal_y))
            &&& !toplevel.maximized ==> toplevel.x == toplevel.normal_x && toplevel.y
                == toplevel.normal_y && toplevel.restore_origin is None
            &&& 0 < work_width <= i32::MAX ==> fits(
                toplevel.normal_x,
                toplevel.normal_width as int,
                work_width as int,
            ) && (asked_width <= work_width ==> toplevel.normal_width == asked_width)
                && (asked_width > work_width ==> toplevel.normal_width == work_width) && (fits(
                asked_x,
                asked_width as int,
                work_width as int,
            ) ==> toplevel.normal_x == asked_x) && (asked_x < 0 ==> toplevel.normal_x == 0) && (
            asked_x >= 0 && asked_x + toplevel.normal_width > work_width ==> toplevel.normal_x
                + toplevel.normal_width == work_width)
            &&& 0 < work_height <= i32::MAX ==> fits(
                toplevel.normal_y,
                toplevel.normal_height as int,
                work_height as int,
            ) && (asked_height <= work_height ==> toplevel.normal_height == asked_height)
                && (asked_height > work_height ==> toplevel.normal_height == work_height) && (fits(
                asked_y,
                asked_height as int,
                work_height as int,
            ) ==> toplevel.normal_y == asked_y) && (asked_y < 0 ==> toplevel.normal_y == 0) && (
            asked_y >= 0 && asked_y + toplevel.normal_height > work_height ==> toplevel.normal_y
                + toplevel.normal_height == work_height)
            &&& after.restore is Some
            &&& (after.restore->0).placements.contains_key(window_id)
            &&& placement.z_rank == word(message, 7)
            &&& placement.commit_count_at_place == surface.commit_count
            &&& work_width > 0 && work_height > 0 && toplevel.maximized
                ==> placement.expected_width == work_width && placement.expected_height
                == work_height
            &&& !toplevel.maximized ==> placement.expected_width == toplevel.normal_width
                && placement.expected_height == toplevel.normal_height
            &&& placement.settled == (s.clients[owner.client_id].shown_size(before.surface_id)
                == Some((placement.expected_width, placement.expected_height)))
            &&& forall|w: WindowId|
                w != window_id ==> #[trigger] (after.restore->0).placements.contains_key(w) == (
                s.restore->0).placements.contains_key(w) && ((
                s.restore->0).placements.contains_key(w) ==> (after.restore->0).placements[w] == (
                s.restore->0).placements[w])
            &&& (after.restore->0).hidden == (s.restore->0).hidden
            &&& (after.restore->0).owner == (s.restore->0).owner
            &&& (after.restore->0).restore_id == (s.restore->0).restore_id
            &&& (after.restore->0).deadline_ms == (s.restore->0).deadline_ms
            &&& others_stay(s, after, owner)
            &&& after.windows == s.windows
            &&& after.z_order == s.z_order
            &&& after.focus == s.focus
            &&& after.frame == s.frame
            &&& after.damage == s.damage
        }),
{
    let window_id = WindowId(word(message, 1));
    let flags = word(message, 6);
    let taken = telling::lemma_asks_manager(s, client_id, message, 11, 32, granted);
    telling::lemma_all_told(s, taken);
    reveal(ServerModel::shell_followed);
    reveal(ServerModel::restore_placed);
    broadcast use telling::group_shows;

    let payload = message.subrange(10, 42);
    let request = crate::requests::ShellManagerPlaceRestoredWindow::held_by(payload);
    assert(bytes::le32_at(payload, 0) == word(message, 0));
    assert(bytes::le32_at(payload, 4) == word(message, 1));
    assert(bytes::le32_at(payload, 8) == word(message, 2));
    assert(bytes::le32_at(payload, 12) == word(message, 3));
    assert(bytes::le32_at(payload, 16) == word(message, 4));
    assert(bytes::le32_at(payload, 20) == word(message, 5));
    assert(bytes::le32_at(payload, 24) == word(message, 6));
    assert(bytes::le32_at(payload, 28) == word(message, 7));
    assert(flags <= 3 ==> (flags & 1 != 0) == (flags % 2 == 1) && (flags & 2 != 0) == (flags / 2
        % 2 == 1)) by (bit_vector);
    let owner = s.windows[window_id];
    let before = s.toplevel(owner);
    assert(s.window_ids.contains_key(owner));
    assert(s.has_toplevel(owner));
    assert(taken.can_place(client_id, request));
    let place = taken.place_of(request);
    lemma_put_in_place(taken, owner, place);
    let t = ToplevelModel {
        normal_x: place.x,
        normal_y: place.y,
        normal_width: place.width,
        normal_height: place.height,
        minimized: place.minimized,
        maximized: place.maximized,
        initial_configure_sent: true,
        restore_origin: if place.maximized {
            Some((place.x, place.y))
        } else {
            None
        },
        x: if place.maximized {
            0
        } else {
            place.x
        },
        y: if place.maximized {
            0
        } else {
            place.y
        },
        ..before
    };
    let meant = taken.with_toplevel(owner, t);
    lemma_with_toplevel(taken, owner, t);
    let moved = taken.put_in_place(owner, place);
    telling::lemma_all_told(meant, moved);
    let after = s.dispatched(client_id, message, granted).0;
    let noted = ServerModel { restore: after.restore, ..moved };
    assert(only_tells(noted, after));
    telling::lemma_all_told(noted, after);
    assert forall|o: WindowOwner| o != owner implies #[trigger] after.has_toplevel(o)
        == s.has_toplevel(o) && (s.has_toplevel(o) ==> after.toplevel(o) == s.toplevel(o)) by {
        assert(noted.has_toplevel(o) == moved.has_toplevel(o));
        assert(moved.has_toplevel(o) == meant.has_toplevel(o));
        assert(meant.has_toplevel(o) == taken.has_toplevel(o));
    }
    assert(noted.has_toplevel(owner) == moved.has_toplevel(owner));
    assert(moved.toplevel(owner) == t);
    assert(noted.toplevel(owner) == moved.toplevel(owner));
    assert(after.toplevel(owner) == t);
}

/// A request to place a window that the restore does not take changes nothing.
pub proof fn law_other_places_are_ignored(
    s: ServerModel,
    client_id: ClientId,
    message: Seq<u8>,
    granted: bool,
)
    requires
        s.is_sound(),
        asks_manager(s, client_id, message, 11, 32),
        !is_placeable(s, client_id, message),
    ensures
        is_taken(s, s.dispatched(client_id, message, granted).0),
        s.dispatched(client_id, message, granted).1 is None,
{
    let taken = telling::lemma_asks_manager(s, client_id, message, 11, 32, granted);
    telling::lemma_all_told(s, taken);
    reveal(ServerModel::shell_followed);
    reveal(ServerModel::restore_placed);
    let payload = message.subrange(10, 42);
    assert(bytes::le32_at(payload, 0) == word(message, 0));
    assert(bytes::le32_at(payload, 4) == word(message, 1));
    assert(bytes::le32_at(payload, 16) == word(message, 4));
    assert(bytes::le32_at(payload, 20) == word(message, 5));
    assert(bytes::le32_at(payload, 24) == word(message, 6));
}

} // verus!
