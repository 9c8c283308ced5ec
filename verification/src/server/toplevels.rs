//! What a connection's requests about its own windows come to, and what
//! dragging them does.

use vstd::prelude::*;

use crate::bytes;
use crate::client::bounds;
use crate::client::model::{ClientModel, ToplevelModel};
use crate::events::STATE_RELEASED;
use crate::ids::{ClientId, WindowOwner};
use crate::objects::Interface;
use crate::requests::{
    RESIZE_EDGE_BOTTOM, RESIZE_EDGE_LEFT, RESIZE_EDGE_RIGHT, RESIZE_EDGE_TOP,
};
use crate::server::damage::DamageModel;
use crate::server::desk;
use crate::server::desk::is_put_away;
use crate::server::model::ServerModel;
use crate::server::promises;
use crate::server::shells;
use crate::server::shells::{others_stay, word};
use crate::server::sizes;
use crate::server::sizes::{asks_size, is_brought_back, is_stretched, only_moved};
use crate::server::sound;
use crate::server::telling;
use crate::server::telling::{is_taken, is_told, is_up_to_date, only_shows, only_tells};
use crate::sums;
use crate::wire;
use crate::wire::HEADER_SIZE;

verus! {

/// Whether a message is a request of a number to a toplevel of a connection.
pub open spec fn is_to_toplevel(
    s: ServerModel,
    client_id: ClientId,
    message: Seq<u8>,
    opcode: u16,
) -> bool {
    let target = wire::header_at(message).object_id;
    &&& wire::header_fault(message) is None
    &&& s.interface_of(client_id, target) == Some(Interface::XdgToplevel)
    &&& wire::header_at(message).opcode == opcode
    &&& s.has_toplevel(WindowOwner { client_id, toplevel_id: target })
}

/// The same of a toplevel that is not hidden until a restore ends.
pub open spec fn asks_toplevel(
    s: ServerModel,
    client_id: ClientId,
    message: Seq<u8>,
    opcode: u16,
) -> bool {
    &&& is_to_toplevel(s, client_id, message, opcode)
    &&& !s.toplevel(addressed(client_id, message)).hidden_for_restore
}

/// The toplevel that a message is to.
pub open spec fn addressed(client_id: ClientId, message: Seq<u8>) -> WindowOwner {
    WindowOwner { client_id, toplevel_id: wire::header_at(message).object_id }
}

/// A request about a toplevel that is not refused is taken. Of the connection it
/// changes by itself no more than whether the toplevel is maximized.
pub(crate) proof fn lemma_toplevel_request(
    s: ServerModel,
    client_id: ClientId,
    message: Seq<u8>,
    opcode: u16,
    granted: bool,
) -> (taken: ServerModel)
    requires
        s.is_sound(),
        is_to_toplevel(s, client_id, message, opcode),
        opcode == 3 || (5 <= opcode <= 9 && asks_toplevel(s, client_id, message, opcode)),
        s.clients[client_id].dispatched(
            wire::header_at(message),
            message.subrange(HEADER_SIZE as int, wire::header_at(message).length as int),
            s.budgets(client_id),
            granted,
        ).1 is None,
    ensures
        ({
            let owner = addressed(client_id, message);
            let before = s.toplevel(owner);
            let noted = if opcode == 5 || opcode == 6 {
                s.with_toplevel(owner, ToplevelModel { maximized: opcode == 5, ..before })
            } else {
                s
            };
            &&& is_taken(noted, taken)
            &&& s.dispatched(client_id, message, granted) == taken.toplevel_followed(
                owner,
                opcode,
                message.subrange(HEADER_SIZE as int, wire::header_at(message).length as int),
            )
        }),
{
    reveal(ServerModel::carried_out);
    reveal(ClientModel::dispatched);
    reveal(ClientModel::mutated);
    let header = wire::header_at(message);
    let payload = message.subrange(HEADER_SIZE as int, header.length as int);
    let c = s.clients[client_id];
    bounds::lemma_reaped(c);
    let step = c.dispatched(header, payload, s.budgets(client_id), granted);
    sums::lemma_map_insert(s.clients, sound::pool_bytes_held(), client_id, c);
    sums::lemma_map_insert(s.clients, sound::text_bytes_held(), client_id, c);
    let taken = s.recounted(client_id, step.0);
    let owner = addressed(client_id, message);
    let before = s.toplevel(owner);
    let noted = if opcode == 5 || opcode == 6 {
        s.with_toplevel(owner, ToplevelModel { maximized: opcode == 5, ..before })
    } else {
        s
    };
    assert(is_told(noted.clients[client_id], step.0));
    assert(taken.clients.dom() =~= noted.clients.dom());
    taken
}

/// A connection can minimize its own window, with what follows when the shell
/// does.
pub proof fn law_own_minimize_request_puts_window_away(
    s: ServerModel,
    client_id: ClientId,
    message: Seq<u8>,
    granted: bool,
)
    requires
        s.is_sound(),
        asks_toplevel(s, client_id, message, 9),
        s.dispatched(client_id, message, granted).1 is None,
    ensures
        ({
            let owner = addressed(client_id, message);
            &&& s.window_ids.contains_key(owner)
            &&& is_put_away(
                s,
                s.dispatched(client_id, message, granted).0,
                s.window_ids[owner],
            )
        }),
{
    let owner = addressed(client_id, message);
    assert(s.window_ids.contains_key(owner));
    let window_id = s.window_ids[owner];
    assert(s.windows.contains_key(window_id));
    lemma_not_refused(s, client_id, message, 9, granted);
    let taken = lemma_toplevel_request(s, client_id, message, 9, granted);
    reveal(ServerModel::toplevel_followed);
    telling::lemma_all_told(s, taken);
    assert(s.is_at_hand(window_id));
    assert(taken.is_at_hand(window_id));
    desk::lemma_put_away(taken, window_id);
    desk::lemma_put_away_of_taken(s, taken, taken.minimized(window_id, true).0, window_id);
}

/// What is not refused in the end was not refused at first.
pub(crate) proof fn lemma_not_refused(
    s: ServerModel,
    client_id: ClientId,
    message: Seq<u8>,
    opcode: u16,
    granted: bool,
)
    requires
        is_to_toplevel(s, client_id, message, opcode),
        opcode == 3 || asks_toplevel(s, client_id, message, opcode),
        s.dispatched(client_id, message, granted).1 is None,
    ensures
        s.clients[client_id].dispatched(
            wire::header_at(message),
            message.subrange(HEADER_SIZE as int, wire::header_at(message).length as int),
            s.budgets(client_id),
            granted,
        ).1 is None,
{
    reveal(ServerModel::carried_out);
}

/// A window that its connection asks to maximize, or no longer to, is made as
/// large as the work area, in the corner, and remembers where it was; or is back
/// where it was. It is asked to take the size that goes with that. No other
/// window is touched, nor are the focus and the order.
pub proof fn law_own_maximize_request_is_followed(
    s: ServerModel,
    client_id: ClientId,
    message: Seq<u8>,
    opcode: u16,
    granted: bool,
)
    requires
        s.is_sound(),
        opcode == 5 || opcode == 6,
        asks_toplevel(s, client_id, message, opcode),
        s.dispatched(client_id, message, granted).1 is None,
    ensures
        ({
            let owner = addressed(client_id, message);
            let before = s.toplevel(owner);
            let after = s.dispatched(client_id, message, granted).0;
            let toplevel = after.toplevel(owner);
            let client = after.clients[client_id];
            &&& after.has_toplevel(owner)
            &&& toplevel.maximized == (opcode == 5)
            &&& only_moved(ToplevelModel { maximized: opcode == 5, ..before }, toplevel)
            &&& opcode == 5 ==> is_stretched(
                before,
                toplevel,
                s.clients[client_id].shown_size(before.surface_id),
            )
            &&& opcode == 6 ==> is_brought_back(before, toplevel)
            &&& after.focus == s.focus
            &&& after.z_order == s.z_order
            &&& after.windows == s.windows
            &&& after.drag == s.drag
            &&& others_stay(s, after, owner)
            &&& s.clients[client_id].shell_manager_id is None && !client.overflowed
                ==> client.events.len() > 0 && asks_size(
                client.events.last(),
                after,
                owner,
                if opcode == 5 {
                    s.frame.width as i32
                } else {
                    toplevel.normal_width as i32
                },
                if opcode == 5 {
                    s.work_area_height() as i32
                } else {
                    toplevel.normal_height as i32
                },
            )
        }),
{
    broadcast use telling::group_shows;

    let owner = addressed(client_id, message);
    assert(s.window_ids.contains_key(owner));
    let before = s.toplevel(owner);
    let t = ToplevelModel { maximized: opcode == 5, ..before };
    lemma_not_refused(s, client_id, message, opcode, granted);
    let taken = lemma_toplevel_request(s, client_id, message, opcode, granted);
    let noted = s.with_toplevel(owner, t);
    shells::lemma_with_toplevel(s, owner, t);
    reveal(ServerModel::toplevel_followed);
    telling::lemma_all_told(noted, taken);
    assert(noted.clients.contains_key(client_id));
    assert(is_told(noted.clients[client_id], taken.clients[client_id]));
    assert(taken.toplevel(owner) == t);
    assert(s.clients[client_id].is_sound());
    sizes::lemma_maximized(taken, owner, opcode == 5);
    let asked = taken.maximized(owner, opcode == 5);
    let u = asked.toplevel(owner);
    let put = taken.with_toplevel(owner, u);
    shells::lemma_with_toplevel(taken, owner, u);
    telling::lemma_all_told(put, asked);
    let window_id = s.window_ids[owner];
    let after = s.dispatched(client_id, message, granted).0;
    assert(only_tells(asked, after));
    telling::lemma_all_told(asked, after);
    assert forall|o: WindowOwner| o != owner implies #[trigger] after.has_toplevel(o)
        == s.has_toplevel(o) && (s.has_toplevel(o) ==> after.toplevel(o) == s.toplevel(o)) by {
        assert(asked.has_toplevel(o) == put.has_toplevel(o));
        assert(put.has_toplevel(o) == taken.has_toplevel(o));
        assert(taken.has_toplevel(o) == noted.has_toplevel(o));
        assert(noted.has_toplevel(o) == s.has_toplevel(o));
    }
    if s.clients[client_id].shell_manager_id is None {
        assert(put.clients.contains_key(client_id));
        assert(asked.clients.dom().contains(client_id));
        sizes::lemma_announce_state_elsewhere(asked, window_id, client_id);
    }
}

// Dragging.

/// A drag begins where the pointer and the window are: a move, or a resize by
/// the edges that the request names. Nothing else changes.
pub proof fn law_drag_begins_where_things_are(
    s: ServerModel,
    client_id: ClientId,
    message: Seq<u8>,
    opcode: u16,
    granted: bool,
)
    requires
        s.is_sound(),
        opcode == 7 || opcode == 8,
        asks_toplevel(s, client_id, message, opcode),
        s.dispatched(client_id, message, granted).1 is None,
        opcode == 8 ==> wire::header_at(message).length >= HEADER_SIZE + 8,
    ensures
        ({
            let owner = addressed(client_id, message);
            let before = s.toplevel(owner);
            let after = s.dispatched(client_id, message, granted).0;
            let drag = after.drag->0;
            &&& after.drag is Some
            &&& drag.client_id == owner.client_id
            &&& drag.toplevel_id == owner.toplevel_id
            &&& drag.start_pointer == (s.pointer_x, s.pointer_y)
            &&& drag.start_origin == (before.x, before.y)
            &&& opcode == 7 ==> drag.kind is Move
            &&& opcode == 8 ==> drag.kind is Resize && drag.kind->edges == word(message, 1)
            &&& is_taken(ServerModel { drag: after.drag, ..s }, after)
        }),
{
    let owner = addressed(client_id, message);
    lemma_not_refused(s, client_id, message, opcode, granted);
    let taken = lemma_toplevel_request(s, client_id, message, opcode, granted);
    telling::lemma_all_told(s, taken);
    reveal(ServerModel::toplevel_followed);
    assert(taken.has_toplevel(owner) && taken.toplevel(owner) == s.toplevel(owner));
    let header = wire::header_at(message);
    let payload = message.subrange(HEADER_SIZE as int, header.length as int);
    if opcode == 8 {
        assert(bytes::le32_at(payload, 4) == word(message, 1));
    }
}

/// A window that is moved is as far from where it was as the pointer is from
/// where it was; back at the start it is back where it was. (Coordinates go no
/// further than there are numbers.) Nothing else is moved, nobody is told, and
/// the picture follows at once.
pub proof fn law_moved_window_follows_pointer(s: ServerModel, x: i32, y: i32)
    requires
        s.clients.dom().finite(),
        s.drag is Some,
        (s.drag->0).kind is Move,
        s.has_toplevel(
            WindowOwner {
                client_id: (s.drag->0).client_id,
                toplevel_id: (s.drag->0).toplevel_id,
            },
        ),
    ensures
        ({
            let drag = s.drag->0;
            let owner = WindowOwner {
                client_id: drag.client_id,
                toplevel_id: drag.toplevel_id,
            };
            let before = s.toplevel(owner);
            let (after, told) = s.pointer_moved(x, y);
            let toplevel = after.toplevel(owner);
            let to_x = drag.start_origin.0 + x - drag.start_pointer.0;
            let to_y = drag.start_origin.1 + y - drag.start_pointer.1;
            &&& told is None
            &&& after.pointer_x == x
            &&& after.pointer_y == y
            &&& after.drag == s.drag
            &&& after.focus == s.focus
            &&& after.z_order == s.z_order
            &&& after.windows == s.windows
            &&& after.has_toplevel(owner)
            &&& toplevel == (ToplevelModel { x: toplevel.x, y: toplevel.y, ..before })
            &&& i32::MIN <= to_x <= i32::MAX ==> toplevel.x == to_x
            &&& to_x > i32::MAX ==> toplevel.x == i32::MAX
            &&& to_x < i32::MIN ==> toplevel.x == i32::MIN
            &&& i32::MIN <= to_y <= i32::MAX ==> toplevel.y == to_y
            &&& to_y > i32::MAX ==> toplevel.y == i32::MAX
            &&& to_y < i32::MIN ==> toplevel.y == i32::MIN
            &&& others_stay(s, after, owner)
            &&& telling::all_told(s.with_toplevel(owner, toplevel).clients, after.clients)
            &&& is_up_to_date(s) && !s.deferred ==> is_up_to_date(after)
        }),
{
    broadcast use telling::group_shows;

    reveal(ServerModel::drag_advanced);
    let drag = s.drag->0;
    let owner = drag.spec_owner();
    let before = s.toplevel(owner);
    let after = s.pointer_moved(x, y).0;
    let at = ServerModel { pointer_x: x, pointer_y: y, ..s };
    assert(at.toplevel(owner) == before);
    let dx = x - drag.start_pointer.0;
    let dy = y - drag.start_pointer.1;
    let t = ToplevelModel {
        x: crate::arith::sat_i32(drag.start_origin.0 + dx),
        y: crate::arith::sat_i32(drag.start_origin.1 + dy),
        ..before
    };
    let put = at.with_toplevel(owner, t);
    shells::lemma_with_toplevel(at, owner, t);
    assert(only_shows(put, after));
    telling::lemma_all_told(put, after);
    assert forall|o: WindowOwner| o != owner implies #[trigger] after.has_toplevel(o)
        == s.has_toplevel(o) && (s.has_toplevel(o) ==> after.toplevel(o) == s.toplevel(o)) by {
        assert(put.has_toplevel(o) == at.has_toplevel(o));
        assert(at.has_toplevel(o) == s.has_toplevel(o));
    }
    assert(put.clients == s.with_toplevel(owner, t).clients);
    if is_up_to_date(s) && !s.deferred {
        if before.x != t.x || before.y != t.y {
            promises::law_picture_is_of_the_scene(put, DamageModel::Full);
        } else {
            sizes::lemma_toplevel_looks_same(at, owner, t);
            telling::lemma_scene_of_same(s, put);
        }
    }
}

/// The size that dragging an edge makes of a size: larger by as much as the far
/// edge was moved out, or the near edge moved in the other way; never less than
/// one pixel, nor more than there are numbers.
pub open spec fn is_dragged_size(
    before: i32,
    after: i32,
    far: bool,
    near: bool,
    moved: int,
) -> bool {
    let meant = if far {
        before + moved
    } else if near {
        before - moved
    } else {
        before as int
    };
    &&& !far && !near ==> after == before
    &&& far || near ==> {
        &&& meant < 1 ==> after == 1
        &&& 1 <= meant <= i32::MAX ==> after == meant
        &&& meant > i32::MAX ==> after == i32::MAX
    }
}

/// A window that is resized is asked to be larger by as much as the pointer has
/// moved the edges out, or smaller; it is not moved. (Without a picture it counts
/// as one of 320 by 240 pixels.)
pub proof fn law_resized_window_is_asked_to_follow(s: ServerModel, x: i32, y: i32)
    requires
        s.is_sound(),
        s.drag is Some,
        (s.drag->0).kind is Resize,
        s.has_toplevel(
            WindowOwner {
                client_id: (s.drag->0).client_id,
                toplevel_id: (s.drag->0).toplevel_id,
            },
        ),
    ensures
        ({
            let drag = s.drag->0;
            let owner = WindowOwner {
                client_id: drag.client_id,
                toplevel_id: drag.toplevel_id,
            };
            let edges = drag.kind->edges;
            let (after, told) = s.pointer_moved(x, y);
            let client = after.clients[owner.client_id];
            let size = match s.clients[owner.client_id].shown_size(
                s.toplevel(owner).surface_id,
            ) {
                Some((width, height)) => (width as i32, height as i32),
                None => (320i32, 240i32),
            };
            &&& told is None
            &&& only_tells(ServerModel { pointer_x: x, pointer_y: y, ..s }, after)
            &&& !client.overflowed ==> client.events.len() > 0 && exists|width: i32, height: i32|
                #[trigger] asks_size(client.events.last(), s, owner, width, height)
                    && is_dragged_size(
                    size.0,
                    width,
                    edges & RESIZE_EDGE_RIGHT != 0,
                    edges & RESIZE_EDGE_LEFT != 0,
                    x - drag.start_pointer.0,
                ) && is_dragged_size(
                    size.1,
                    height,
                    edges & RESIZE_EDGE_BOTTOM != 0,
                    edges & RESIZE_EDGE_TOP != 0,
                    y - drag.start_pointer.1,
                )
        }),
{
    broadcast use telling::group_shows;

    reveal(ServerModel::drag_advanced);
    let drag = s.drag->0;
    let owner = drag.spec_owner();
    let edges = drag.kind->edges;
    let at = ServerModel { pointer_x: x, pointer_y: y, ..s };
    let size = match s.clients[owner.client_id].shown_size(s.toplevel(owner).surface_id) {
        Some((width, height)) => (width as i32, height as i32),
        None => (320i32, 240i32),
    };
    let width = crate::server::pointer::dragged_size(
        size.0,
        edges & RESIZE_EDGE_RIGHT != 0,
        edges & RESIZE_EDGE_LEFT != 0,
        x - drag.start_pointer.0,
    );
    let height = crate::server::pointer::dragged_size(
        size.1,
        edges & RESIZE_EDGE_BOTTOM != 0,
        edges & RESIZE_EDGE_TOP != 0,
        y - drag.start_pointer.1,
    );
    assert(s.clients[owner.client_id].is_sound());
    sizes::law_configure_event_says_size_and_state(at, owner, width, height);
    let after = s.pointer_moved(x, y).0;
    assert(after == at.configured(owner, width, height));
    let client = after.clients[owner.client_id];
    if !client.overflowed {
        assert(asks_size(client.events.last(), s, owner, width, height));
    }
}

/// A button that is let go ends a drag, and hits nothing. The window stays where
/// it was dragged to; unless it is maximized, that and the size that it shows are
/// from then on its normal place and size. No other window is touched.
#[verifier::rlimit(40)]
pub proof fn law_drop_keeps_place(s: ServerModel, button: u32)
    requires
        s.drag is Some,
        s.has_toplevel(
            WindowOwner {
                client_id: (s.drag->0).client_id,
                toplevel_id: (s.drag->0).toplevel_id,
            },
        ),
    ensures
        ({
            let drag = s.drag->0;
            let owner = WindowOwner {
                client_id: drag.client_id,
                toplevel_id: drag.toplevel_id,
            };
            let before = s.toplevel(owner);
            let size = s.clients[owner.client_id].shown_size(before.surface_id);
            let (after, told) = s.button_changed(button, STATE_RELEASED);
            let toplevel = after.toplevel(owner);
            &&& told is None
            &&& after.drag is None
            &&& after.has_toplevel(owner)
            &&& before.maximized ==> toplevel == before
            &&& !before.maximized ==> {
                &&& toplevel == (ToplevelModel {
                    normal_x: before.x,
                    normal_y: before.y,
                    normal_width: toplevel.normal_width,
                    normal_height: toplevel.normal_height,
                    ..before
                })
                &&& size is Some ==> toplevel.normal_width == (size->0).0
                    && toplevel.normal_height == (size->0).1
                &&& size is None ==> toplevel.normal_width == before.normal_width
                    && toplevel.normal_height == before.normal_height
            }
            &&& others_stay(s, after, owner)
            &&& only_tells(
                ServerModel { drag: None, ..s.with_toplevel(owner, toplevel) },
                after,
            )
        }),
{
    reveal(ServerModel::dropped);
    let drag = s.drag->0;
    let owner = drag.spec_owner();
    let before = s.toplevel(owner);
    let ended = ServerModel { drag: None, ..s };
    assert(ended.toplevel(owner) == before);
    let size = s.clients[owner.client_id].shown_size(before.surface_id);
    let asked = if drag.kind is Resize {
        let size = match size {
            Some((width, height)) => (width as i32, height as i32),
            None => (0i32, 0i32),
        };
        ended.configured(owner, size.0, size.1)
    } else {
        ended
    };
    assert(only_tells(ended, asked)) by {
        broadcast use telling::lemma_configured;

    }
    telling::lemma_all_told(ended, asked);
    assert(ended.clients.contains_key(owner.client_id));
    assert(is_told(ended.clients[owner.client_id], asked.clients[owner.client_id]));
    let settled = asked.drag_settled(drag);
    let after = s.button_changed(button, STATE_RELEASED).0;
    assert(only_tells(settled, after)) by {
        broadcast use telling::lemma_announce_state;

    }
    telling::lemma_all_told(settled, after);
    let t = settled.toplevel(owner);
    let put = ended.with_toplevel(owner, t);
    shells::lemma_with_toplevel(ended, owner, t);
    assert(asked.has_toplevel(owner) && asked.toplevel(owner) == before);
    if before.maximized {
        assert(put.clients =~= ended.clients) by {
            assert(ended.clients[owner.client_id].toplevels.insert(owner.toplevel_id, before)
                =~= ended.clients[owner.client_id].toplevels);
        }
    } else {
        shells::lemma_toplevel_of_told(ended, asked, owner, t);
        shells::lemma_with_toplevel(asked, owner, t);
    }
    assert(only_tells(put, settled));
    telling::lemma_tells_then(put, settled, after);
    telling::lemma_all_told(put, after);
    assert(put.clients == s.with_toplevel(owner, t).clients);
    assert forall|o: WindowOwner| o != owner implies #[trigger] after.has_toplevel(o)
        == s.has_toplevel(o) && (s.has_toplevel(o) ==> after.toplevel(o) == s.toplevel(o)) by {
        assert(put.has_toplevel(o) == ended.has_toplevel(o));
        assert(ended.has_toplevel(o) == s.has_toplevel(o));
    }
}

} // verus!
