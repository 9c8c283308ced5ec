//! What requests do to the windows that they name.

use vstd::prelude::*;

use crate::bytes;
use crate::client::model::ToplevelModel;
use crate::events;
use crate::ids::{ClientId, ObjectId, WindowId, WindowOwner};
use crate::server::damage::DamageModel;
use crate::server::focus;
use crate::server::inputs;
use crate::server::model::ServerModel;
use crate::server::promises;
use crate::server::shells;
use crate::server::shells::{is_lifted, named_window, others_stay};
use crate::server::telling;
use crate::server::telling::{
    asks_manager, is_taken, is_up_to_date, only_shows, only_tells,
};
use crate::wire;
use crate::wire::HEADER_SIZE;

verus! {

// Who gets the focus when it is lost.

/// Whether a focus is that of the highest window that can have it; none, if no
/// window can.
pub open spec fn is_highest(s: ServerModel, focus: Option<(ClientId, ObjectId)>) -> bool {
    match focus {
        Some((client_id, surface_id)) => exists|i: int|
            0 <= i < s.z_order.len() && s.is_focusable(#[trigger] s.z_order[i])
                && s.windows[s.z_order[i]].client_id == client_id && s.toplevel(
                s.windows[s.z_order[i]],
            ).surface_id == surface_id && forall|j: int|
                i < j < s.z_order.len() ==> !s.is_focusable(#[trigger] s.z_order[j]),
        None => forall|j: int|
            0 <= j < s.z_order.len() ==> !s.is_focusable(#[trigger] s.z_order[j]),
    }
}

pub(crate) proof fn lemma_topmost(order: Seq<WindowId>, set: Set<WindowId>)
    ensures
        match focus::topmost(order, set) {
            Some(w) => exists|i: int|
                0 <= i < order.len() && #[trigger] order[i] == w && set.contains(w) && forall|j: int|
                    i < j < order.len() ==> !set.contains(#[trigger] order[j]),
            None => forall|j: int| 0 <= j < order.len() ==> !set.contains(#[trigger] order[j]),
        },
    decreases order.len(),
{
    if order.len() > 0 && !set.contains(order.last()) {
        let front = order.drop_last();
        lemma_topmost(front, set);
        match focus::topmost(front, set) {
            Some(w) => {
                let i = choose|i: int|
                    0 <= i < front.len() && #[trigger] front[i] == w && set.contains(w)
                        && forall|j: int|
                        i < j < front.len() ==> !set.contains(#[trigger] front[j]);
                assert(order[i] == w);
                assert forall|j: int| i < j < order.len() implies !set.contains(
                    #[trigger] order[j],
                ) by {
                    if j < front.len() {
                        assert(front[j] == order[j]);
                    }
                }
            },
            None => {
                assert forall|j: int| 0 <= j < order.len() implies !set.contains(
                    #[trigger] order[j],
                ) by {
                    if j < front.len() {
                        assert(front[j] == order[j]);
                    }
                }
            },
        }
    } else if order.len() > 0 {
        assert(order[order.len() - 1] == order.last());
    }
}

/// The focus falls to the highest window.
pub(crate) proof fn lemma_fallback(s: ServerModel)
    ensures
        is_highest(s, s.fallback_focus(Set::empty())),
{
    let allowed = s.focusable().difference(Set::empty());
    lemma_topmost(s.z_order, allowed);
    assert forall|w: WindowId| #[trigger] allowed.contains(w) == s.is_focusable(w) by {}
    if let Some(w) = focus::topmost(s.z_order, allowed) {
        let i = choose|i: int|
            0 <= i < s.z_order.len() && #[trigger] s.z_order[i] == w && allowed.contains(w)
                && forall|j: int|
                i < j < s.z_order.len() ==> !allowed.contains(#[trigger] s.z_order[j]);
        assert(s.is_focusable(s.z_order[i]));
        assert forall|j: int| i < j < s.z_order.len() implies !s.is_focusable(
            #[trigger] s.z_order[j],
        ) by {
            assert(!allowed.contains(s.z_order[j]));
        }
    } else {
        assert forall|j: int| 0 <= j < s.z_order.len() implies !s.is_focusable(
            #[trigger] s.z_order[j],
        ) by {
            assert(!allowed.contains(s.z_order[j]));
        }
    }
}

/// Who is highest does not depend on what connections are told.
pub(crate) proof fn lemma_highest_of_told(
    a: ServerModel,
    b: ServerModel,
    focus: Option<(ClientId, ObjectId)>,
)
    requires
        is_highest(a, focus),
        telling::all_told(a.clients, b.clients),
        a.windows == b.windows,
        a.z_order == b.z_order,
    ensures
        is_highest(b, focus),
{
    telling::lemma_all_told(a, b);
    assert forall|j: int| 0 <= j < a.z_order.len() implies b.is_focusable(#[trigger] b.z_order[j])
        == a.is_focusable(a.z_order[j]) by {}
    if let Some((client_id, surface_id)) = focus {
        let i = choose|i: int|
            0 <= i < a.z_order.len() && a.is_focusable(#[trigger] a.z_order[i])
                && a.windows[a.z_order[i]].client_id == client_id && a.toplevel(
                a.windows[a.z_order[i]],
            ).surface_id == surface_id && forall|j: int|
                i < j < a.z_order.len() ==> !a.is_focusable(#[trigger] a.z_order[j]);
        assert(b.is_focusable(b.z_order[i]));
        assert(b.toplevel(b.windows[b.z_order[i]]) == a.toplevel(a.windows[a.z_order[i]]));
    }
}

// Minimizing.

/// What minimizing a window that is not minimized comes to.
pub open spec fn is_put_away(a: ServerModel, b: ServerModel, window_id: WindowId) -> bool {
    let owner = a.windows[window_id];
    let before = a.toplevel(owner);
    &&& b.has_toplevel(owner)
    &&& b.toplevel(owner) == (ToplevelModel { minimized: true, ..before })
    &&& others_stay(a, b, owner)
    &&& b.windows == a.windows
    &&& b.z_order == a.z_order
    &&& !b.is_focusable(window_id)
    &&& !before.minimized && a.focus == Some((owner.client_id, before.surface_id)) ==> is_highest(
        b,
        b.focus,
    )
    &&& before.minimized || a.focus != Some((owner.client_id, before.surface_id)) ==> b.focus
        == a.focus
    &&& !before.minimized && a.is_dragged(owner) ==> b.drag is None
    &&& before.minimized || !a.is_dragged(owner) ==> b.drag == a.drag
    &&& a.clients.dom().finite() && is_up_to_date(a) && !a.deferred ==> is_up_to_date(b)
}

pub(crate) proof fn lemma_put_away(s: ServerModel, window_id: WindowId)
    requires
        s.is_at_hand(window_id),
    ensures
        is_put_away(s, s.minimized(window_id, true).0, window_id),
        s.minimized(window_id, true).1,
{
    broadcast use telling::group_shows;

    let owner = s.windows[window_id];
    let before = s.toplevel(owner);
    let t = ToplevelModel { minimized: true, ..before };
    let marked = s.with_toplevel(owner, t);
    shells::lemma_with_toplevel(s, owner, t);
    let after = s.minimized(window_id, true).0;
    if before.minimized {
        assert(marked.clients =~= s.clients) by {
            assert(s.clients[owner.client_id].toplevels.insert(owner.toplevel_id, t)
                =~= s.clients[owner.client_id].toplevels);
        }
        if s.clients.dom().finite() && is_up_to_date(s) {
            telling::lemma_telling_keeps_picture(s, marked);
        }
    } else {
        let loses = s.focus == Some((owner.client_id, before.surface_id));
        let dropped = if marked.is_dragged(owner) {
            ServerModel { drag: None, ..marked }
        } else {
            marked
        };
        let fallback = dropped.fallback_focus(Set::empty());
        lemma_fallback(dropped);
        let moved = if loses {
            dropped.focused(fallback)
        } else {
            dropped
        };
        let aimed = ServerModel { focus: moved.focus, ..dropped };
        assert(only_tells(aimed, moved)) by {
            telling::lemma_focused(dropped, fallback);
        }
        let drawn = moved.changed(DamageModel::Full);
        assert(only_shows(moved, drawn));
        let told = drawn.announce_state(window_id);
        assert(only_tells(drawn, told));
        assert(only_tells(told, after));
        telling::lemma_shows_then(aimed, moved, drawn);
        telling::lemma_tells_then(drawn, told, after);
        telling::lemma_shows_then(aimed, drawn, after);
        telling::lemma_all_told(aimed, after);
        lemma_highest_of_told(dropped, after, fallback);
        assert(aimed.is_focusable(window_id) == marked.is_focusable(window_id));
        assert forall|o: WindowOwner| o != owner implies #[trigger] after.has_toplevel(o)
            == s.has_toplevel(o) && (s.has_toplevel(o) ==> after.toplevel(o) == s.toplevel(o)) by {
            assert(aimed.has_toplevel(o) == marked.has_toplevel(o));
            assert(marked.has_toplevel(o) == s.has_toplevel(o));
        }
        assert(aimed.has_toplevel(owner) && aimed.toplevel(owner) == t);
        if s.clients.dom().finite() && is_up_to_date(s) && !s.deferred {
            promises::law_picture_is_of_the_scene(moved, DamageModel::Full);
            telling::lemma_telling_keeps_picture(drawn, after);
        }
    }
}

pub(crate) proof fn lemma_put_away_of_taken(a: ServerModel, b: ServerModel, c: ServerModel, w: WindowId)
    requires
        is_taken(a, b),
        a.is_at_hand(w),
        is_put_away(b, c, w),
    ensures
        is_put_away(a, c, w),
{
    telling::lemma_all_told(a, b);
    let owner = a.windows[w];
    assert(b.has_toplevel(owner) && b.toplevel(owner) == a.toplevel(owner));
    assert forall|o: WindowOwner| o != owner implies #[trigger] c.has_toplevel(o)
        == a.has_toplevel(o) && (a.has_toplevel(o) ==> c.toplevel(o) == a.toplevel(o)) by {
        assert(b.has_toplevel(o) == a.has_toplevel(o));
    }
    if a.clients.dom().finite() && is_up_to_date(a) {
        telling::lemma_telling_keeps_picture(a, b);
    }
}

/// A window that the shell asks to minimize is minimized. If it had the keyboard
/// focus, the highest window that can have it gets it; if it was being dragged,
/// it no longer is. No other window is touched, nor is the order; and the
/// picture follows at once.
pub proof fn law_minimize_request_puts_window_away(
    s: ServerModel,
    client_id: ClientId,
    message: Seq<u8>,
    granted: bool,
)
    requires
        s.is_sound(),
        asks_manager(s, client_id, message, 4, 4),
        s.windows.contains_key(named_window(message)),
        !s.toplevel(s.windows[named_window(message)]).hidden_for_restore,
    ensures
        is_put_away(
            s,
            s.dispatched(client_id, message, granted).0,
            named_window(message),
        ),
        s.dispatched(client_id, message, granted).1 is None,
{
    let window_id = named_window(message);
    let owner = s.windows[window_id];
    let taken = telling::lemma_asks_manager(s, client_id, message, 4, 4, granted);
    telling::lemma_all_told(s, taken);
    reveal(ServerModel::shell_followed);
    assert(bytes::le32_at(message.subrange(10, 14), 0) == bytes::le32_at(message, 10));
    assert(s.window_ids.contains_key(owner));
    assert(s.has_toplevel(owner));
    assert(s.is_at_hand(window_id));
    assert(taken.is_at_hand(window_id));
    lemma_put_away(taken, window_id);
    lemma_put_away_of_taken(s, taken, taken.minimized(window_id, true).0, window_id);
}

/// A shell's request for a window that is not there, or is hidden until a
/// restore ends, changes nothing.
pub proof fn law_requests_for_absent_windows_are_ignored(
    s: ServerModel,
    client_id: ClientId,
    message: Seq<u8>,
    opcode: u16,
    granted: bool,
)
    requires
        s.is_sound(),
        asks_manager(s, client_id, message, opcode, 4),
        opcode == 2 || opcode == 4 || opcode == 5 || opcode == 7 || (opcode == 3
            && !s.windows.contains_key(named_window(message))),
        s.windows.contains_key(named_window(message)) ==> s.toplevel(
            s.windows[named_window(message)],
        ).hidden_for_restore,
    ensures
        is_taken(s, s.dispatched(client_id, message, granted).0),
        s.dispatched(client_id, message, granted).1 is None,
{
    let window_id = named_window(message);
    let taken = telling::lemma_asks_manager(s, client_id, message, opcode, 4, granted);
    telling::lemma_all_told(s, taken);
    reveal(ServerModel::shell_followed);
    reveal(ServerModel::window_focused);
    assert(bytes::le32_at(message.subrange(10, 14), 0) == bytes::le32_at(message, 10));
    if s.windows.contains_key(window_id) {
        assert(s.window_ids.contains_key(s.windows[window_id]));
        assert(s.has_toplevel(s.windows[window_id]));
    }
    assert(!s.is_at_hand(window_id));
    assert(!taken.is_at_hand(window_id));
}

/// The rows that a shell asks to keep are kept, as far as there are rows; and
/// the work area is the shell's. Nothing else changes.
pub proof fn law_work_area_is_as_asked(
    s: ServerModel,
    client_id: ClientId,
    message: Seq<u8>,
    granted: bool,
)
    requires
        s.is_sound(),
        asks_manager(s, client_id, message, 6, 4),
    ensures
        ({
            let rows = bytes::le32_at(message, 10);
            let after = s.dispatched(client_id, message, granted).0;
            &&& rows <= s.frame.height ==> after.work_area_height() + rows == s.frame.height
            &&& rows > s.frame.height ==> after.work_area_height() == 0
            &&& after.work_area_owner == Some(client_id)
            &&& is_taken(
                ServerModel {
                    taskbar_height: after.taskbar_height,
                    work_area_owner: after.work_area_owner,
                    ..s
                },
                after,
            )
        }),
{
    let taken = telling::lemma_asks_manager(s, client_id, message, 6, 4, granted);
    reveal(ServerModel::shell_followed);
    assert(bytes::le32_at(message.subrange(10, 14), 0) == bytes::le32_at(message, 10));
}

// Closing.

/// A window that the shell asks to close is brought up as if it had been asked
/// for, and is asked to close; it is for the window to go. A queue that has no
/// room for the event is marked so.
pub proof fn law_close_request_asks_window(
    s: ServerModel,
    client_id: ClientId,
    message: Seq<u8>,
    granted: bool,
)
    requires
        s.is_sound(),
        asks_manager(s, client_id, message, 3, 4),
        s.windows.contains_key(named_window(message)),
    ensures
        ({
            let window_id = named_window(message);
            let owner = s.windows[window_id];
            let before = s.toplevel(owner);
            let after = s.dispatched(client_id, message, granted).0;
            let client = after.clients[owner.client_id];
            let m = client.events.last();
            &&& s.dispatched(client_id, message, granted).1 is None
            &&& after.windows == s.windows
            &&& after.has_toplevel(owner)
            &&& others_stay(s, after, owner)
            &&& !before.hidden_for_restore ==> after.toplevel(owner) == (ToplevelModel {
                minimized: false,
                ..before
            }) && after.focus == Some((owner.client_id, before.surface_id)) && is_lifted(
                s.z_order,
                after.z_order,
                window_id,
            )
            &&& before.hidden_for_restore ==> after.toplevel(owner) == before && after.focus
                == s.focus && after.z_order == s.z_order
            &&& !client.overflowed ==> client.events.len() > 0 && wire::header_fault(m) is None
                && wire::header_at(m).object_id == owner.toplevel_id && wire::header_at(m).opcode
                == 2 && m.len() == HEADER_SIZE
        }),
{
    broadcast use crate::client::model::lemma_emit_frame;

    let window_id = named_window(message);
    let owner = s.windows[window_id];
    let before = s.toplevel(owner);
    let taken = telling::lemma_asks_manager(s, client_id, message, 3, 4, granted);
    telling::lemma_all_told(s, taken);
    reveal(ServerModel::shell_followed);
    assert(bytes::le32_at(message.subrange(10, 14), 0) == bytes::le32_at(message, 10));
    assert(s.window_ids.contains_key(owner));
    assert(s.has_toplevel(owner));
    let focused = taken.window_focused(window_id, None);
    let t = ToplevelModel { minimized: false, ..before };
    let meant = if before.hidden_for_restore {
        taken
    } else {
        ServerModel {
            focus: Some((owner.client_id, before.surface_id)),
            z_order: focus::lifted(s.z_order, window_id).0,
            commit_owner: focused.commit_owner,
            ..taken.with_toplevel(owner, t)
        }
    };
    if before.hidden_for_restore {
        assert(!taken.is_at_hand(window_id));
        assert(focused == taken) by {
            reveal(ServerModel::window_focused);
        }
    } else {
        assert(taken.is_at_hand(window_id));
        shells::lemma_window_focused(taken, window_id, None);
        shells::lemma_with_toplevel(taken, owner, t);
        shells::lemma_is_lifted(s.z_order, window_id);
    }
    assert(only_shows(meant, focused));
    telling::lemma_all_told(meant, focused);
    assert(focused.clients.dom().contains(owner.client_id));
    let c = focused.clients[owner.client_id];
    let after = s.dispatched(client_id, message, granted).0;
    assert(after == focused.with_client(
        owner.client_id,
        c.emit(owner.toplevel_id, 2, Seq::empty()),
    ));
    telling::lemma_with_told_client(
        focused,
        owner.client_id,
        c.emit(owner.toplevel_id, 2, Seq::empty()),
    );
    telling::lemma_all_told(focused, after);
    assert forall|o: WindowOwner| o != owner implies #[trigger] after.has_toplevel(o)
        == s.has_toplevel(o) && (s.has_toplevel(o) ==> after.toplevel(o) == s.toplevel(o)) by {
        assert(focused.has_toplevel(o) == meant.has_toplevel(o));
        assert(meant.has_toplevel(o) == taken.has_toplevel(o));
        assert(taken.has_toplevel(o) == s.has_toplevel(o));
    }
    assert(meant.has_toplevel(owner));
    assert(focused.has_toplevel(owner));
    assert(s.clients[owner.client_id].is_sound());
    assert(c.objects == s.clients[owner.client_id].objects) by {
        assert(taken.clients.dom().contains(owner.client_id));
        assert(s.clients.contains_key(owner.client_id));
        assert(meant.clients.contains_key(owner.client_id));
    }
    if !c.emit(owner.toplevel_id, 2, Seq::empty()).overflowed {
        inputs::lemma_emitted_unless_full(c, owner.toplevel_id, 2, Seq::empty());
    }
}

} // verus!
