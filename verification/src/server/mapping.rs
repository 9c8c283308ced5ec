//! What a commit does to the window whose surface it is of.

use vstd::prelude::*;

use crate::client::model::{ClientModel, ToplevelModel};
use crate::ids::{ClientId, ObjectId, WindowId, WindowOwner};
use crate::server::coverage;
use crate::server::coverage::{asks_surface, payload_of};
use crate::server::damage::DamageModel;
use crate::server::focus;
use crate::server::model::ServerModel;
use crate::server::shells;
use crate::server::shells::{is_lifted, others_stay};
use crate::server::sizes;
use crate::server::telling;
use crate::server::telling::{all_told, is_told, only_shows, only_tells};
use crate::wire;

verus! {

/// Whether a step changes of connections only one toplevel, and what they are
/// told.
pub open spec fn puts(a: ServerModel, b: ServerModel, owner: WindowOwner) -> bool {
    &&& a.has_toplevel(owner)
    &&& b.has_toplevel(owner)
    &&& all_told(a.with_toplevel(owner, b.toplevel(owner)).clients, b.clients)
}

pub(crate) proof fn lemma_puts_told(a: ServerModel, b: ServerModel, owner: WindowOwner)
    requires
        a.has_toplevel(owner),
        all_told(a.clients, b.clients),
    ensures
        puts(a, b, owner),
        b.toplevel(owner) == a.toplevel(owner),
{
    telling::lemma_all_told(a, b);
    assert(b.has_toplevel(owner) == a.has_toplevel(owner));
    assert(b.toplevel(owner) == a.toplevel(owner));
    let t = a.toplevel(owner);
    assert(a.with_toplevel(owner, t).clients =~= a.clients) by {
        assert(a.clients[owner.client_id].toplevels.insert(owner.toplevel_id, t)
            =~= a.clients[owner.client_id].toplevels);
    }
}

pub(crate) proof fn lemma_puts_toplevel(a: ServerModel, owner: WindowOwner, t: ToplevelModel)
    requires
        a.has_toplevel(owner),
    ensures
        puts(a, a.with_toplevel(owner, t), owner),
        a.with_toplevel(owner, t).toplevel(owner) == t,
{
    shells::lemma_with_toplevel(a, owner, t);
}

pub(crate) proof fn lemma_puts_then(a: ServerModel, b: ServerModel, c: ServerModel, owner: WindowOwner)
    requires
        puts(a, b, owner),
        puts(b, c, owner),
    ensures
        puts(a, c, owner),
{
    let t = c.toplevel(owner);
    let u = b.toplevel(owner);
    let x = a.with_toplevel(owner, u);
    shells::lemma_with_toplevel(a, owner, u);
    let y = ServerModel { clients: b.clients, ..x };
    assert(only_tells(x, y));
    shells::lemma_toplevel_of_told(x, y, owner, t);
    shells::lemma_toplevel_put_twice(a, owner, u, t);
    assert(y.with_toplevel(owner, t).clients == b.with_toplevel(owner, t).clients);
    let p = a.with_toplevel(owner, t).clients;
    let q = b.with_toplevel(owner, t).clients;
    assert(all_told(p, q));
    assert forall|id: ClientId| #[trigger] p.contains_key(id) implies is_told(
        p[id],
        c.clients[id],
    ) by {
        assert(q.dom().contains(id));
        assert(q.contains_key(id));
    }
}

pub(crate) proof fn lemma_puts_others(a: ServerModel, b: ServerModel, owner: WindowOwner)
    requires
        puts(a, b, owner),
    ensures
        others_stay(a, b, owner),
        b.clients.dom() == a.clients.dom(),
{
    let t = b.toplevel(owner);
    let x = a.with_toplevel(owner, t);
    shells::lemma_with_toplevel(a, owner, t);
    let y = ServerModel { clients: b.clients, ..x };
    telling::lemma_all_told(x, y);
    assert forall|o: WindowOwner| o != owner implies #[trigger] b.has_toplevel(o)
        == a.has_toplevel(o) && (a.has_toplevel(o) ==> b.toplevel(o) == a.toplevel(o)) by {
        assert(y.has_toplevel(o) == x.has_toplevel(o));
        assert(x.has_toplevel(o) == a.has_toplevel(o));
    }
}

/// Whether some window that is no shell's can have the focus.
pub open spec fn others_can_be_focused(s: ServerModel) -> bool {
    exists|w: WindowId| #[trigger]
        s.is_focusable(w) && !s.is_shell(s.windows[w].client_id)
}

/// What a commit comes to for the window of the surface.
pub open spec fn is_window_committed(
    a: ServerModel,
    b: ServerModel,
    owner: WindowOwner,
    size: Option<(u32, u32)>,
    takes_focus: bool,
) -> bool {
    let before = a.toplevel(owner);
    let toplevel = b.toplevel(owner);
    &&& b.has_toplevel(owner)
    &&& toplevel == (ToplevelModel {
        normal_x: toplevel.normal_x,
        normal_y: toplevel.normal_y,
        normal_width: toplevel.normal_width,
        normal_height: toplevel.normal_height,
        mapped_once: before.mapped_once || size is Some,
        initial_configure_sent: true,
        ..before
    })
    &&& !before.maximized && size is Some ==> toplevel.normal_x == before.x && toplevel.normal_y
        == before.y && toplevel.normal_width == (size->0).0 && toplevel.normal_height == (
    size->0).1
    &&& before.maximized || size is None ==> toplevel.normal_x == before.normal_x
        && toplevel.normal_y == before.normal_y && toplevel.normal_width == before.normal_width
        && toplevel.normal_height == before.normal_height
    &&& others_stay(a, b, owner)
    &&& b.windows == a.windows
    &&& takes_focus ==> b.focus == Some((owner.client_id, before.surface_id)) && is_lifted(
        a.z_order,
        b.z_order,
        a.window_ids[owner],
    )
    &&& !takes_focus ==> b.focus == a.focus && b.z_order == a.z_order
}

/// The first configure event is sent, once.
proof fn lemma_first_configured(s: ServerModel, owner: WindowOwner, surface_id: ObjectId)
    requires
        s.has_toplevel(owner),
        s.clients[owner.client_id].toplevel_by_surface.contains_key(surface_id),
        s.clients[owner.client_id].toplevel_by_surface[surface_id] == owner.toplevel_id,
    ensures
        ({
            let after = s.first_configured(owner.client_id, surface_id);
            &&& puts(s, after, owner)
            &&& after.toplevel(owner) == (ToplevelModel {
                initial_configure_sent: true,
                ..s.toplevel(owner)
            })
            &&& after == (ServerModel { clients: after.clients, ..s })
        }),
{
    broadcast use telling::lemma_configured;

    reveal(ServerModel::first_configured);
    let t = s.toplevel(owner);
    if t.initial_configure_sent {
        assert(all_told(s.clients, s.clients));
        lemma_puts_told(s, s, owner);
    } else {
        let after = s.first_configured(owner.client_id, surface_id);
        let left = crate::arith::max_int(t.x as int, 0);
        let top = crate::arith::max_int(t.y as int, 0);
        let width = if s.clients[owner.client_id].is_shell() {
            s.frame.width as i32
        } else {
            crate::arith::sat_i32(crate::arith::max_int(s.frame.width as i32 - left, 1))
        };
        let height = if s.clients[owner.client_id].is_shell() {
            s.frame.height as i32
        } else {
            crate::arith::sat_i32(
                crate::arith::max_int(s.work_area_height() as i32 - top, 1),
            )
        };
        let asked = s.configured(owner, width, height);
        assert(only_tells(s, asked));
        lemma_puts_told(s, asked, owner);
        let u = ToplevelModel { initial_configure_sent: true, ..t };
        lemma_puts_toplevel(asked, owner, u);
        lemma_puts_then(s, asked, after, owner);
    }
}

/// Whether a commit brings its window up: it shows something for the first time,
/// and is neither minimized nor hidden; and a shell's only if no other window can
/// have the focus.
pub open spec fn comes_up(s: ServerModel, owner: WindowOwner, size: Option<(u32, u32)>) -> bool {
    let before = s.toplevel(owner);
    &&& size is Some
    &&& !before.mapped_once
    &&& !before.minimized
    &&& !before.hidden_for_restore
    &&& !(s.is_shell(owner.client_id) && others_can_be_focused(s))
}

/// The window of a surface is there.
spec fn is_window_of(t: ServerModel, owner: WindowOwner, surface_id: ObjectId) -> bool {
    &&& t.window_ids.contains_key(owner)
    &&& t.has_toplevel(owner)
    &&& t.toplevel(owner).surface_id == surface_id
    &&& t.clients[owner.client_id].surfaces.contains_key(surface_id)
    &&& t.clients[owner.client_id].toplevel_by_surface.contains_key(surface_id)
    &&& t.clients[owner.client_id].toplevel_by_surface[surface_id] == owner.toplevel_id
    &&& t.clients[owner.client_id].shows(surface_id) == (t.clients[owner.client_id].shown_size(
        surface_id,
    ) is Some)
}

/// It stays so when nothing but toplevels and queues changes.
proof fn lemma_stays_window_of(
    a: ServerModel,
    b: ServerModel,
    owner: WindowOwner,
    surface_id: ObjectId,
)
    requires
        is_window_of(a, owner, surface_id),
        puts(a, b, owner),
        b.window_ids == a.window_ids,
        b.toplevel(owner).surface_id == surface_id,
    ensures
        is_window_of(b, owner, surface_id),
        b.clients[owner.client_id].shown_size(surface_id)
            == a.clients[owner.client_id].shown_size(surface_id),
        b.clients[owner.client_id].capabilities == a.clients[owner.client_id].capabilities,
{
    let x = a.with_toplevel(owner, b.toplevel(owner));
    assert(x.clients.contains_key(owner.client_id));
    assert(is_told(x.clients[owner.client_id], b.clients[owner.client_id]));
}

proof fn lemma_kept(
    t: ServerModel,
    owner: WindowOwner,
    surface_id: ObjectId,
    size_before: Option<(u32, u32)>,
)
    requires
        is_window_of(t, owner, surface_id),
    ensures
        ({
            let size = t.clients[owner.client_id].shown_size(surface_id);
            let toplevel = t.toplevel(owner);
            let kept = t.geometry_noted(owner.client_id, surface_id, size_before).0;
            let placed = kept.placement_noted(owner.client_id, surface_id).0;
            &&& puts(t, placed, owner)
            &&& placed.toplevel(owner) == if !toplevel.maximized && size is Some {
                ToplevelModel {
                    normal_x: toplevel.x,
                    normal_y: toplevel.y,
                    normal_width: (size->0).0,
                    normal_height: (size->0).1,
                    ..toplevel
                }
            } else {
                toplevel
            }
            &&& placed == (ServerModel { clients: placed.clients, restore: placed.restore, ..t })
        }),
{
    reveal(ServerModel::geometry_noted);
    reveal(ServerModel::placement_noted);
    let size = t.clients[owner.client_id].shown_size(surface_id);
    let toplevel = t.toplevel(owner);
    assert(t.owner_of_surface(owner.client_id, surface_id) == Some(owner));
    let kept = t.geometry_noted(owner.client_id, surface_id, size_before).0;
    if !toplevel.maximized && size is Some {
        let u = ToplevelModel {
            normal_x: toplevel.x,
            normal_y: toplevel.y,
            normal_width: (size->0).0,
            normal_height: (size->0).1,
            ..toplevel
        };
        lemma_puts_toplevel(t, owner, u);
    } else {
        assert(all_told(t.clients, t.clients));
        lemma_puts_told(t, t, owner);
    }
    let placed = kept.placement_noted(owner.client_id, surface_id).0;
    assert(placed.clients == kept.clients);
    assert(placed.toplevel(owner) == kept.toplevel(owner));
}

proof fn lemma_mapped(t: ServerModel, placed: ServerModel, owner: WindowOwner, surface_id: ObjectId)
    requires
        t.is_orderly(),
        is_window_of(t, owner, surface_id),
        puts(t, placed, owner),
        placed == (ServerModel { clients: placed.clients, restore: placed.restore, ..t }),
        telling::stands_same(t.toplevel(owner), placed.toplevel(owner)),
        placed.toplevel(owner).mapped_once == t.toplevel(owner).mapped_once,
    ensures
        ({
            let size = t.clients[owner.client_id].shown_size(surface_id);
            let mapped = placed.first_shown(owner.client_id, surface_id).0;
            &&& puts(t, mapped, owner)
            &&& mapped.toplevel(owner) == (ToplevelModel {
                mapped_once: t.toplevel(owner).mapped_once || size is Some,
                ..placed.toplevel(owner)
            })
            &&& mapped == (ServerModel {
                clients: mapped.clients,
                focus: mapped.focus,
                z_order: mapped.z_order,
                ..placed
            })
            &&& comes_up(t, owner, size) ==> mapped.focus == Some((owner.client_id, surface_id))
                && is_lifted(t.z_order, mapped.z_order, t.window_ids[owner])
            &&& !comes_up(t, owner, size) ==> mapped.focus == t.focus && mapped.z_order
                == t.z_order
        }),
{
    reveal(ServerModel::first_shown);
    let client_id = owner.client_id;
    lemma_stays_window_of(t, placed, owner, surface_id);
    assert(placed.owner_of_surface(client_id, surface_id) == Some(owner));
    let size = t.clients[client_id].shown_size(surface_id);
    let u = placed.toplevel(owner);
    if size is Some && !u.mapped_once {
        let v = ToplevelModel { mapped_once: true, ..u };
        let shown = placed.with_toplevel(owner, v);
        lemma_puts_toplevel(placed, owner, v);
        lemma_puts_then(t, placed, shown, owner);
        lemma_stays_window_of(t, shown, owner, surface_id);
        assert(shown.is_shell(client_id) == t.is_shell(client_id)) by {
            assert(shown.clients.contains_key(client_id));
        }
        lemma_ordinary_focusable(t, shown, owner);
        if comes_up(t, owner, size) {
            let target = Some((client_id, surface_id));
            let moved = shown.focused(target);
            telling::lemma_focused(shown, target);
            lemma_puts_told(shown, moved, owner);
            lemma_puts_then(t, shown, moved, owner);
            let window_id = t.window_ids[owner];
            telling::lemma_raised(moved, window_id);
            let lifted = moved.raised(window_id).0;
            lemma_puts_told(moved, lifted, owner);
            lemma_puts_then(t, moved, lifted, owner);
            assert(t.windows.contains_key(window_id));
            assert(t.z_order.contains(window_id));
            shells::lemma_is_lifted(t.z_order, window_id);
        }
    }
}

proof fn lemma_shown_on(
    mapped: ServerModel,
    owner: WindowOwner,
    surface_id: ObjectId,
    damage: DamageModel,
    focused: Option<WindowId>,
    different: Option<WindowId>,
)
    requires
        is_window_of(mapped, owner, surface_id),
    ensures
        ({
            let drawn = mapped.changed(damage);
            let shown = ServerModel {
                commit_owner: if drawn.commit_owner == Some(owner.client_id) {
                    None
                } else {
                    drawn.commit_owner
                },
                ..drawn
            };
            let announced = match focused {
                Some(window_id) => shown.announce_focus(Some(window_id)),
                None => shown,
            };
            let told = if different is Some && !announced.drags(different->0) {
                announced.announce_state(different->0)
            } else {
                announced
            };
            let after = told.first_configured(owner.client_id, surface_id);
            &&& puts(mapped, after, owner)
            &&& after.toplevel(owner) == (ToplevelModel {
                initial_configure_sent: true,
                ..mapped.toplevel(owner)
            })
            &&& after.windows == mapped.windows
            &&& after.focus == mapped.focus
            &&& after.z_order == mapped.z_order
        }),
{
    broadcast use telling::group_shows;

    let drawn = mapped.changed(damage);
    assert(only_shows(mapped, drawn));
    let shown = ServerModel {
        commit_owner: if drawn.commit_owner == Some(owner.client_id) {
            None
        } else {
            drawn.commit_owner
        },
        ..drawn
    };
    let announced = match focused {
        Some(window_id) => shown.announce_focus(Some(window_id)),
        None => shown,
    };
    let told = if different is Some && !announced.drags(different->0) {
        announced.announce_state(different->0)
    } else {
        announced
    };
    assert(only_tells(shown, announced));
    assert(only_tells(announced, told));
    telling::lemma_tells_then(shown, announced, told);
    lemma_puts_told(mapped, drawn, owner);
    lemma_puts_told(drawn, told, owner);
    lemma_puts_then(mapped, drawn, told, owner);
    lemma_stays_window_of(mapped, told, owner, surface_id);
    lemma_first_configured(told, owner, surface_id);
    lemma_puts_then(
        mapped,
        told,
        told.first_configured(owner.client_id, surface_id),
        owner,
    );
}

proof fn lemma_window_committed(
    t: ServerModel,
    before: ServerModel,
    owner: WindowOwner,
    surface_id: ObjectId,
)
    requires
        t.is_orderly(),
        is_window_of(t, owner, surface_id),
    ensures
        ({
            let size = t.clients[owner.client_id].shown_size(surface_id);
            let after = t.committed(before, owner.client_id, surface_id);
            &&& is_window_committed(t, after, owner, size, comes_up(t, owner, size))
            &&& puts(t, after, owner)
        }),
{
    reveal(ServerModel::committed);
    let client_id = owner.client_id;
    let size_before = before.clients[client_id].shown_size(surface_id);
    let (expected, at) = before.commit_candidate(client_id, surface_id);
    let (kept, changed) = t.geometry_noted(client_id, surface_id, size_before);
    let (placed, settled) = kept.placement_noted(client_id, surface_id);
    let (mapped, focused) = placed.first_shown(client_id, surface_id);
    lemma_kept(t, owner, surface_id, size_before);
    lemma_mapped(t, placed, owner, surface_id);
    lemma_stays_window_of(t, mapped, owner, surface_id);
    let damage = if at is Some && at == mapped.geometry(client_id, surface_id) {
        expected
    } else {
        DamageModel::Full
    };
    let different = if changed is Some {
        changed
    } else {
        settled
    };
    lemma_shown_on(mapped, owner, surface_id, damage, focused, different);
    let after = t.committed(before, client_id, surface_id);
    lemma_puts_then(t, mapped, after, owner);
    lemma_puts_others(t, after, owner);
}

/// Whether another window can have the focus does not depend on one that shows
/// something for the first time, if it is a shell's.
proof fn lemma_ordinary_focusable(t: ServerModel, shown: ServerModel, owner: WindowOwner)
    requires
        puts(t, shown, owner),
        t.windows == shown.windows,
        telling::stands_same(t.toplevel(owner), shown.toplevel(owner)),
    ensures
        shown.has_ordinary_focusable() == others_can_be_focused(t),
{
    let u = shown.toplevel(owner);
    let x = t.with_toplevel(owner, u);
    sizes::lemma_toplevel_looks_same(t, owner, u);
    telling::lemma_told_look_same(x.clients, shown.clients);
    telling::lemma_look_then(t.clients, x.clients, shown.clients);
    assert forall|w: WindowId| #[trigger] shown.is_focusable(w) == t.is_focusable(w) by {
        telling::lemma_same_is_focusable(t, shown, w);
    }
    assert forall|id: ClientId| #[trigger] shown.is_shell(id) == t.is_shell(id) by {
        assert(x.clients.dom() =~= t.clients.dom());
        assert(x.clients.dom().contains(id) == shown.clients.dom().contains(id));
        if t.clients.contains_key(id) {
            assert(x.clients.contains_key(id));
            assert(is_told(x.clients[id], shown.clients[id]));
        }
    }
    if others_can_be_focused(t) {
        let w = choose|w: WindowId| #[trigger]
            t.is_focusable(w) && !t.is_shell(t.windows[w].client_id);
        assert(shown.is_focusable(w));
        assert(!shown.is_shell(shown.windows[w].client_id));
    }
    if shown.has_ordinary_focusable() {
        let w = choose|w: WindowId| #[trigger]
            shown.is_focusable(w) && !shown.is_shell(shown.windows[w].client_id);
        assert(t.is_focusable(w));
        assert(!t.is_shell(t.windows[w].client_id));
    }
}

/// A commit of a window's surface leaves the window where it is. Unless it is
/// maximized, its place and the size that it now shows are from then on its
/// normal ones. A window that shows something for the first time gets the focus
/// and the highest place, unless it is minimized or hidden; a shell's only if no
/// other can have the focus. Later commits move neither. No other window is
/// touched.
pub proof fn law_commit_settles_window(
    s: ServerModel,
    client_id: ClientId,
    message: Seq<u8>,
    granted: bool,
)
    requires
        s.is_sound(),
        asks_surface(s, client_id, message, 7),
        s.dispatched(client_id, message, granted).1 is None,
        s.owner_of_surface(client_id, wire::header_at(message).object_id) is Some,
    ensures
        ({
            let surface_id = wire::header_at(message).object_id;
            let owner = s.owner_of_surface(client_id, surface_id)->0;
            let after = s.dispatched(client_id, message, granted).0;
            let size = after.clients[client_id].shown_size(surface_id);
            let before = s.toplevel(owner);
            &&& exists|up: bool| #[trigger] is_window_committed(s, after, owner, size, up)
            &&& before.mapped_once || before.minimized || before.hidden_for_restore || size is None
                ==> is_window_committed(s, after, owner, size, false)
            &&& size is Some && !before.mapped_once && !before.minimized
                && !before.hidden_for_restore && !s.is_shell(client_id) ==> is_window_committed(
                s,
                after,
                owner,
                size,
                true,
            )
        }),
{
    let surface_id = wire::header_at(message).object_id;
    let owner = s.owner_of_surface(client_id, surface_id)->0;
    let taken = coverage::lemma_surface_request(s, client_id, message, 7, granted);
    let a = s.clients[client_id];
    assert(a.is_sound() && a.is_reaped());
    coverage::lemma_commit(
        a,
        wire::header_at(message),
        payload_of(message),
        s.budgets(client_id),
        granted,
    );
    let b = taken.clients[client_id];
    assert(s.window_ids.contains_key(owner));
    assert(taken.has_toplevel(owner) && taken.toplevel(owner) == s.toplevel(owner));
    assert(taken.is_orderly());
    assert(a.toplevel_by_surface.contains_key(surface_id));
    assert(b.surfaces.dom().contains(surface_id));
    if b.shows(surface_id) {
        assert(b.surfaces.contains_key(surface_id));
        assert(b.buffers.contains_key((b.surfaces[surface_id].current_buffer->0).buffer_id));
    }
    assert(a.toplevels.contains_key(owner.toplevel_id));
    assert(is_window_of(taken, owner, surface_id));
    lemma_window_committed(taken, s, owner, surface_id);
    let after = s.dispatched(client_id, message, granted).0;
    let size = b.shown_size(surface_id);
    let up = comes_up(taken, owner, size);
    assert(after.clients[client_id].shown_size(surface_id) == size) by {
        let x = taken.with_toplevel(owner, after.toplevel(owner));
        assert(x.clients.contains_key(client_id));
        assert(is_told(x.clients[client_id], after.clients[client_id]));
    }
    assert forall|o: WindowOwner| o != owner implies #[trigger] after.has_toplevel(o)
        == s.has_toplevel(o) && (s.has_toplevel(o) ==> after.toplevel(o) == s.toplevel(o)) by {
        assert(after.has_toplevel(o) == taken.has_toplevel(o));
    }
    assert(is_window_committed(s, after, owner, size, up));
    assert(taken.is_shell(client_id) == s.is_shell(client_id)) by {
        crate::client::laws::law_dispatch_keeps_connection(
            a,
            wire::header_at(message),
            payload_of(message),
            s.budgets(client_id),
            granted,
        );
    }
}


/// A window that a restore has placed has taken its place once it has been
/// committed since, and shows the size of the place; with another size it has
/// not. Commits of other windows do not matter.
pub proof fn law_placement_is_settled_by_size(
    t: ServerModel,
    owner: WindowOwner,
    surface_id: ObjectId,
    size_before: Option<(u32, u32)>,
    w: WindowId,
)
    requires
        t.is_orderly(),
        t.restore is Some,
        (t.restore->0).placements.contains_key(w),
        t.window_ids.contains_key(owner),
        t.has_toplevel(owner),
        t.toplevel(owner).surface_id == surface_id,
        t.clients[owner.client_id].is_sound(),
        t.clients[owner.client_id].surfaces.contains_key(surface_id),
    ensures
        ({
            let c = t.clients[owner.client_id];
            let before = (t.restore->0).placements[w];
            let kept = t.geometry_noted(owner.client_id, surface_id, size_before).0;
            let placed = kept.placement_noted(owner.client_id, surface_id).0;
            let after = (placed.restore->0).placements[w];
            &&& placed.restore is Some
            &&& (placed.restore->0).placements.contains_key(w)
            &&& after.z_rank == before.z_rank
            &&& after.expected_width == before.expected_width
            &&& after.expected_height == before.expected_height
            &&& t.windows[w] != owner ==> after == before
            &&& t.windows[w] == owner && c.surfaces[surface_id].commit_count
                <= before.commit_count_at_place ==> after == before
            &&& t.windows[w] == owner && c.surfaces[surface_id].commit_count
                > before.commit_count_at_place ==> after.settled == (c.shown_size(surface_id)
                == Some((before.expected_width, before.expected_height)))
        }),
{
    reveal(ServerModel::placement_noted);
    let c = t.clients[owner.client_id];
    assert(c.toplevels.contains_key(owner.toplevel_id));
    let kept = t.geometry_noted(owner.client_id, surface_id, size_before).0;
    assert(kept.clients[owner.client_id] == (ClientModel {
        toplevels: kept.clients[owner.client_id].toplevels,
        ..c
    }) && kept == (ServerModel { clients: kept.clients, ..t }) && kept.clients.contains_key(
        owner.client_id,
    )) by {
        reveal(ServerModel::geometry_noted);
    }
    assert(kept.window_of_surface(owner.client_id, surface_id) == Some(t.window_ids[owner]));
    assert((t.restore->0).placements.dom().contains(w));
    assert(t.windows.contains_key(w));
}

} // verus!
