//! Which sizes windows are asked to take, and where they then are.

use vstd::prelude::*;

use crate::bytes;
use crate::client::model::ToplevelModel;
use crate::events;
use crate::events::{
    TOPLEVEL_STATE_ACTIVATED, TOPLEVEL_STATE_MAXIMIZED, TOPLEVEL_STATE_RESIZING,
};
use crate::ids::{ClientId, WindowId, WindowOwner};
use crate::objects::Interface;
use crate::server::damage::DamageModel;
use crate::server::focus;
use crate::server::inputs;
use crate::server::inputs::joined_words;
use crate::server::model::{NoticeModel, ServerModel};
use crate::server::promises;
use crate::server::shells;
use crate::server::shells::{is_lifted, named_window, others_stay, word};
use crate::server::telling;
use crate::server::telling::{asks_manager, is_told, is_up_to_date, only_shows, only_tells};
use crate::wire;
use crate::wire::HEADER_SIZE;

verus! {

/// Whether a message asks a toplevel to take a size, and tells it what state it
/// is in: maximized, in focus, being resized.
pub open spec fn asks_size(
    m: Seq<u8>,
    s: ServerModel,
    owner: WindowOwner,
    width: i32,
    height: i32,
) -> bool {
    let toplevel = s.toplevel(owner);
    let states = word(m, 3);
    &&& wire::header_fault(m) is None
    &&& wire::header_at(m).object_id == owner.toplevel_id
    &&& wire::header_at(m).opcode == 1
    &&& m.len() == HEADER_SIZE + 16
    &&& word(m, 1) == width as u32
    &&& word(m, 2) == height as u32
    &&& (states & TOPLEVEL_STATE_MAXIMIZED != 0) == toplevel.maximized
    &&& (states & TOPLEVEL_STATE_ACTIVATED != 0) == (s.focus == Some(
        (owner.client_id, toplevel.surface_id),
    ))
    &&& (states & TOPLEVEL_STATE_RESIZING != 0) == (s.drag is Some && (s.drag->0).client_id
        == owner.client_id && (s.drag->0).toplevel_id == owner.toplevel_id && (
    s.drag->0).kind is Resize)
    &&& states < 8
}

/// A toplevel that is asked to take a size is sent an event that says so, under
/// the next number. A queue that has no room for it is marked so.
pub proof fn law_configure_event_says_size_and_state(
    s: ServerModel,
    owner: WindowOwner,
    width: i32,
    height: i32,
)
    requires
        s.has_toplevel(owner),
        s.clients[owner.client_id].is_object(owner.toplevel_id, Interface::XdgToplevel),
    ensures
        ({
            let after = s.configured(owner, width, height).clients[owner.client_id];
            let before = s.clients[owner.client_id];
            &&& !after.overflowed ==> after.events.len() == before.events.len() + 1
                && after.events.drop_last() == before.events && asks_size(
                after.events.last(),
                s,
                owner,
                width,
                height,
            ) && word(after.events.last(), 0) == before.next_configure_serial
            &&& before.next_configure_serial < u32::MAX ==> after.next_configure_serial
                == before.next_configure_serial + 1
            &&& after.next_configure_serial != 0
            &&& forall|id: ClientId|
                id != owner.client_id && s.clients.contains_key(id)
                    ==> #[trigger] s.configured(owner, width, height).clients[id] == s.clients[id]
        }),
{
    broadcast use crate::client::model::lemma_emit_frame;

    reveal(ServerModel::configured);
    let before = s.clients[owner.client_id];
    let counted = before.after_configure_serial();
    let states = s.states(owner);
    let serial = before.next_configure_serial;
    let payload = events::toplevel_configure_payload(serial, width, height, states);
    let words = seq![serial, width as u32, height as u32, states];
    assert(payload =~= joined_words(words)) by {
        reveal_with_fuel(joined_words, 5);
        let w3 = words.drop_last();
        let w2 = w3.drop_last();
        let w1 = w2.drop_last();
        assert(w1.drop_last() =~= Seq::<u32>::empty());
        assert(words.last() == states && w3.last() == height as u32 && w2.last() == width as u32
            && w1.last() == serial);
    }
    inputs::lemma_joined_words(words, 0);
    assert(states < 8);
    assert(states < 8 ==> (states & 1 != 0) == (states % 2 == 1) && (states & 2 != 0) == (states / 2
        % 2 == 1) && (states & 4 != 0) == (states / 4 == 1)) by (bit_vector);
    if !counted.emit(owner.toplevel_id, 1, payload).overflowed {
        inputs::lemma_emitted_unless_full(counted, owner.toplevel_id, 1, payload);
        inputs::lemma_words(owner.toplevel_id, 1, words, 0);
        inputs::lemma_words(owner.toplevel_id, 1, words, 1);
        inputs::lemma_words(owner.toplevel_id, 1, words, 2);
        inputs::lemma_words(owner.toplevel_id, 1, words, 3);
    }
}

// Who is not told.

/// A connection without a manager of windows is told nothing of windows.
pub(crate) broadcast proof fn lemma_announce_elsewhere(
    s: ServerModel,
    notice: NoticeModel,
    id: ClientId,
)
    requires
        s.clients.contains_key(id),
        s.clients[id].shell_manager_id is None,
    ensures
        #[trigger] s.announce(notice).clients[id] == s.clients[id],
{
    reveal(ServerModel::announce);
}

pub(crate) broadcast proof fn lemma_announce_state_elsewhere(
    s: ServerModel,
    window_id: WindowId,
    id: ClientId,
)
    requires
        s.clients.contains_key(id),
        s.clients[id].shell_manager_id is None,
    ensures
        #[trigger] s.announce_state(window_id).clients[id] == s.clients[id],
{
    broadcast use lemma_announce_elsewhere;

    reveal(ServerModel::announce_state);
}

// Maximizing.

/// Whether a toplevel was made as large as the work area: it is in the corner,
/// and remembers where it was and how large, unless it did already.
pub open spec fn is_stretched(
    before: ToplevelModel,
    after: ToplevelModel,
    size: Option<(u32, u32)>,
) -> bool {
    &&& after.x == 0
    &&& after.y == 0
    &&& before.restore_origin is None ==> {
        &&& after.restore_origin == Some((before.x, before.y))
        &&& after.normal_x == before.x
        &&& after.normal_y == before.y
        &&& size is Some ==> after.normal_width == (size->0).0 && after.normal_height == (
        size->0).1
        &&& size is None ==> after.normal_width == before.normal_width && after.normal_height
            == before.normal_height
    }
    &&& before.restore_origin is Some ==> {
        &&& after.restore_origin == before.restore_origin
        &&& after.normal_x == before.normal_x
        &&& after.normal_y == before.normal_y
        &&& after.normal_width == before.normal_width
        &&& after.normal_height == before.normal_height
    }
}

/// Whether a toplevel was brought back to its normal place.
pub open spec fn is_brought_back(before: ToplevelModel, after: ToplevelModel) -> bool {
    &&& after.normal_x == before.normal_x
    &&& after.normal_y == before.normal_y
    &&& after.normal_width == before.normal_width
    &&& after.normal_height == before.normal_height
    &&& after.restore_origin is None
    &&& before.restore_origin is Some ==> after.x == before.normal_x && after.y
        == before.normal_y
    &&& before.restore_origin is None ==> after.x == before.x && after.y == before.y
}

/// Whether nothing but its place and size was changed of a toplevel.
pub open spec fn only_moved(before: ToplevelModel, after: ToplevelModel) -> bool {
    after == (ToplevelModel {
        x: after.x,
        y: after.y,
        restore_origin: after.restore_origin,
        normal_x: after.normal_x,
        normal_y: after.normal_y,
        normal_width: after.normal_width,
        normal_height: after.normal_height,
        ..before
    })
}

/// What making a toplevel as large as the work area, or no longer, comes to.
pub(crate) proof fn lemma_maximized(s: ServerModel, owner: WindowOwner, maximize: bool)
    requires
        s.has_toplevel(owner),
        s.clients[owner.client_id].is_object(owner.toplevel_id, Interface::XdgToplevel),
    ensures
        ({
            let before = s.toplevel(owner);
            let after = s.maximized(owner, maximize);
            let toplevel = after.toplevel(owner);
            let client = after.clients[owner.client_id];
            &&& only_shows(s.with_toplevel(owner, toplevel), after)
            &&& after.has_toplevel(owner)
            &&& only_moved(before, toplevel)
            &&& maximize ==> is_stretched(
                before,
                toplevel,
                s.clients[owner.client_id].shown_size(before.surface_id),
            )
            &&& !maximize ==> is_brought_back(before, toplevel)
            &&& !client.overflowed ==> client.events.len() > 0 && asks_size(
                client.events.last(),
                s,
                owner,
                if maximize {
                    s.frame.width as i32
                } else {
                    toplevel.normal_width as i32
                },
                if maximize {
                    s.work_area_height() as i32
                } else {
                    toplevel.normal_height as i32
                },
            )
            &&& after.scene_generation != s.scene_generation ==> !s.deferred && s.frame.is_whole()
                ==> is_up_to_date(after)
            &&& after.scene_generation == s.scene_generation && !s.deferred ==> after.frame
                == s.frame && (s.is_origin_kept(owner) ==> toplevel.x == before.x && toplevel.y
                == before.y)
        }),
{
    broadcast use telling::group_shows;

    reveal(ServerModel::maximized);
    let before = s.toplevel(owner);
    let t = s.maximized_toplevel(owner, maximize);
    let put = s.with_toplevel(owner, t);
    shells::lemma_with_toplevel(s, owner, t);
    let width = if maximize {
        s.frame.width as i32
    } else {
        t.normal_width as i32
    };
    let height = if maximize {
        s.work_area_height() as i32
    } else {
        t.normal_height as i32
    };
    law_configure_event_says_size_and_state(put, owner, width, height);
    let asked = put.configured(owner, width, height);
    assert(only_tells(put, asked));
    telling::lemma_all_told(put, asked);
    let after = s.maximized(owner, maximize);
    assert(only_shows(asked, after));
    assert(only_shows(put, asked));
    telling::lemma_shows_then(put, asked, after);
    telling::lemma_all_told(asked, after);
    assert(after.clients == asked.clients) by {
        reveal(ServerModel::changed);
    }
    if !s.deferred {
        assert(asked.changed(DamageModel::Full).scene_generation != s.scene_generation) by {
            reveal(ServerModel::changed);
            assert(s.scene_generation.wrapping_add(1) != s.scene_generation);
        }
        if s.frame.is_whole() {
            promises::law_picture_is_of_the_scene(asked, DamageModel::Full);
        }
    }
}

impl ServerModel {
    /// Whether a toplevel that remembers where it was remembers its normal
    /// place.
    pub open spec fn is_origin_kept(self, owner: WindowOwner) -> bool {
        self.toplevel(owner).restore_origin is Some ==> self.toplevel(owner).restore_origin == Some(
            (self.toplevel(owner).normal_x, self.toplevel(owner).normal_y),
        )
    }
}


/// What toggling a window comes to.
pub open spec fn is_toggled(a: ServerModel, b: ServerModel, window_id: WindowId) -> bool {
    let owner = a.windows[window_id];
    let before = a.toplevel(owner);
    let toplevel = b.toplevel(owner);
    let client = b.clients[owner.client_id];
    &&& b.has_toplevel(owner)
    &&& toplevel.maximized == !before.maximized
    &&& !toplevel.minimized
    &&& only_moved(
        ToplevelModel { minimized: false, maximized: !before.maximized, ..before },
        toplevel,
    )
    &&& toplevel.maximized ==> is_stretched(
        before,
        toplevel,
        a.clients[owner.client_id].shown_size(before.surface_id),
    )
    &&& !toplevel.maximized ==> is_brought_back(before, toplevel)
    &&& b.focus == Some((owner.client_id, before.surface_id))
    &&& is_lifted(a.z_order, b.z_order, window_id)
    &&& b.windows == a.windows
    &&& b.drag == a.drag
    &&& others_stay(a, b, owner)
    &&& a.clients[owner.client_id].shell_manager_id is None && !client.overflowed
        ==> client.events.len() > 0 && asks_size(
        client.events.last(),
        b,
        owner,
        if toplevel.maximized {
            a.frame.width as i32
        } else {
            toplevel.normal_width as i32
        },
        if toplevel.maximized {
            a.work_area_height() as i32
        } else {
            toplevel.normal_height as i32
        },
    )
    &&& a.clients.dom().finite() && is_up_to_date(a) && !a.deferred && a.is_origin_kept(owner)
        ==> is_up_to_date(b)
}

#[verifier::rlimit(40)]
proof fn lemma_toggled(s: ServerModel, window_id: WindowId)
    requires
        s.is_at_hand(window_id),
        s.z_order.contains(window_id),
        s.clients[s.windows[window_id].client_id].is_object(
            s.windows[window_id].toplevel_id,
            Interface::XdgToplevel,
        ),
    ensures
        is_toggled(s, s.toggled(window_id).0, window_id),
{
    broadcast use telling::group_shows;

    let owner = s.windows[window_id];
    let before = s.toplevel(owner);
    let maximize = !before.maximized;
    let t = ToplevelModel { minimized: false, maximized: maximize, ..before };
    let marked = s.with_toplevel(owner, t);
    shells::lemma_with_toplevel(s, owner, t);
    let target = Some((owner.client_id, before.surface_id));
    let moved = marked.focused(target);
    telling::lemma_focused(marked, target);
    telling::lemma_raised(moved, window_id);
    let (lifted, raised) = moved.raised(window_id);
    let order = focus::lifted(s.z_order, window_id).0;
    shells::lemma_is_lifted(s.z_order, window_id);
    let aimed = ServerModel { focus: target, z_order: order, ..marked };
    assert(only_tells(aimed, ServerModel { z_order: order, ..moved }));
    telling::lemma_tells_then(aimed, ServerModel { z_order: order, ..moved }, lifted);
    telling::lemma_all_told(aimed, lifted);
    assert(aimed.has_toplevel(owner) && aimed.toplevel(owner) == t);
    assert(lifted.has_toplevel(owner) && lifted.toplevel(owner) == t);
    assert(lifted.clients[owner.client_id].objects == s.clients[owner.client_id].objects) by {
        assert(aimed.clients.contains_key(owner.client_id));
    }
    lemma_maximized(lifted, owner, maximize);
    let asked = lifted.maximized(owner, maximize);
    let u = asked.toplevel(owner);
    let put = lifted.with_toplevel(owner, u);
    shells::lemma_with_toplevel(lifted, owner, u);
    let again = (before.minimized || raised) && asked.scene_generation
        == lifted.scene_generation;
    let shown = if again {
        asked.changed(DamageModel::Full)
    } else {
        asked
    };
    assert(only_shows(asked, shown));
    telling::lemma_shows_then(put, asked, shown);
    let focused = shown.announce_focus(Some(window_id));
    let after = s.toggled(window_id).0;
    assert(only_tells(shown, focused) && only_tells(focused, after));
    telling::lemma_tells_then(shown, focused, after);
    telling::lemma_shows_then(put, shown, after);
    telling::lemma_all_told(put, after);
    assert forall|o: WindowOwner| o != owner implies #[trigger] after.has_toplevel(o)
        == s.has_toplevel(o) && (s.has_toplevel(o) ==> after.toplevel(o) == s.toplevel(o)) by {
        assert(put.has_toplevel(o) == lifted.has_toplevel(o));
        assert(lifted.has_toplevel(o) == aimed.has_toplevel(o));
        assert(aimed.has_toplevel(o) == marked.has_toplevel(o));
        assert(marked.has_toplevel(o) == s.has_toplevel(o));
    }
    assert(lifted.clients[owner.client_id].shown_size(before.surface_id)
        == s.clients[owner.client_id].shown_size(before.surface_id)) by {
        assert(aimed.clients.contains_key(owner.client_id));
    }
    if s.clients[owner.client_id].shell_manager_id is None {
        assert(lifted.clients[owner.client_id].shell_manager_id is None) by {
            assert(aimed.clients.contains_key(owner.client_id));
        }
        assert(put.clients.contains_key(owner.client_id));
        assert(asked.clients.dom().contains(owner.client_id));
        assert(asked.clients[owner.client_id].shell_manager_id is None);
        assert(shown.clients == asked.clients) by {
            reveal(ServerModel::changed);
        }
        assert(shown.clients.contains_key(owner.client_id));
        lemma_announce_elsewhere(
            shown,
            NoticeModel::Focused { window_id: window_id.0 },
            owner.client_id,
        );
        assert(focused.clients.dom().contains(owner.client_id));
        assert(focused.clients[owner.client_id] == shown.clients[owner.client_id]);
        lemma_announce_state_elsewhere(focused, window_id, owner.client_id);
    }
    if s.clients.dom().finite() && is_up_to_date(s) && !s.deferred && s.is_origin_kept(owner) {
        lemma_toggled_is_seen(s, lifted, asked, owner, before.minimized || raised);
        telling::lemma_telling_keeps_picture(shown, after);
    }
}

/// The picture follows when a window is toggled.
proof fn lemma_toggled_is_seen(
    s: ServerModel,
    lifted: ServerModel,
    asked: ServerModel,
    owner: WindowOwner,
    again: bool,
)
    requires
        s.clients.dom().finite(),
        is_up_to_date(s),
        !s.deferred,
        s.has_toplevel(owner),
        lifted.has_toplevel(owner),
        asked.has_toplevel(owner),
        lifted.frame == s.frame,
        !lifted.deferred,
        lifted.windows == s.windows,
        !again ==> lifted.z_order == s.z_order && !s.toplevel(owner).minimized,
        telling::all_told(
            s.with_toplevel(
                owner,
                ToplevelModel {
                    minimized: false,
                    maximized: !s.toplevel(owner).maximized,
                    ..s.toplevel(owner)
                },
            ).clients,
            lifted.clients,
        ),
        only_shows(lifted.with_toplevel(owner, asked.toplevel(owner)), asked),
        only_moved(lifted.toplevel(owner), asked.toplevel(owner)),
        asked.scene_generation != lifted.scene_generation ==> is_up_to_date(asked),
        asked.scene_generation == lifted.scene_generation ==> asked.frame == lifted.frame
            && asked.toplevel(owner).x == s.toplevel(owner).x && asked.toplevel(owner).y
            == s.toplevel(owner).y,
    ensures
        is_up_to_date(
            if again && asked.scene_generation == lifted.scene_generation {
                asked.changed(DamageModel::Full)
            } else {
                asked
            },
        ),
{
    if asked.scene_generation == lifted.scene_generation {
        if again {
            promises::law_picture_is_of_the_scene(asked, DamageModel::Full);
        } else {
            let t = ToplevelModel {
                minimized: false,
                maximized: !s.toplevel(owner).maximized,
                ..s.toplevel(owner)
            };
            let marked = s.with_toplevel(owner, t);
            shells::lemma_with_toplevel(s, owner, t);
            telling::lemma_told_look_same(marked.clients, lifted.clients);
            telling::lemma_all_told(marked, lifted);
            let u = asked.toplevel(owner);
            let put = lifted.with_toplevel(owner, u);
            shells::lemma_with_toplevel(lifted, owner, u);
            telling::lemma_told_look_same(put.clients, asked.clients);
            lemma_toplevel_looks_same(s, owner, t);
            assert(lifted.toplevel(owner) == t);
            lemma_toplevel_looks_same(lifted, owner, u);
            telling::lemma_look_then(s.clients, marked.clients, lifted.clients);
            telling::lemma_look_then(s.clients, lifted.clients, put.clients);
            telling::lemma_look_then(s.clients, put.clients, asked.clients);
            telling::lemma_scene_of_same(s, asked);
        }
    }
}

/// A toplevel that stays where it is looks the same.
pub(crate) proof fn lemma_toplevel_looks_same(
    s: ServerModel,
    owner: WindowOwner,
    t: ToplevelModel,
)
    requires
        s.has_toplevel(owner),
        telling::stands_same(s.toplevel(owner), t),
    ensures
        telling::all_look_same(s.clients, s.with_toplevel(owner, t).clients),
{
    let after = s.with_toplevel(owner, t);
    assert(after.clients.dom() =~= s.clients.dom());
    assert(after.clients[owner.client_id].toplevels.dom()
        =~= s.clients[owner.client_id].toplevels.dom());
}

/// A window that the shell asks to maximize, or no longer to, is made as large
/// as the work area, in the corner, and remembers where it was; or is back where
/// it was. It is asked to take the size that goes with that. It is no longer
/// minimized, has the focus and the highest place. No other window is touched.
/// The picture follows at once.
pub proof fn law_toggle_request_toggles_window(
    s: ServerModel,
    client_id: ClientId,
    message: Seq<u8>,
    granted: bool,
)
    requires
        s.is_sound(),
        asks_manager(s, client_id, message, 7, 4),
        s.windows.contains_key(named_window(message)),
        !s.toplevel(s.windows[named_window(message)]).hidden_for_restore,
    ensures
        is_toggled(s, s.dispatched(client_id, message, granted).0, named_window(message)),
        s.dispatched(client_id, message, granted).1 is None,
{
    let window_id = named_window(message);
    let owner = s.windows[window_id];
    let taken = telling::lemma_asks_manager(s, client_id, message, 7, 4, granted);
    telling::lemma_all_told(s, taken);
    reveal(ServerModel::shell_followed);
    assert(bytes::le32_at(message.subrange(10, 14), 0) == bytes::le32_at(message, 10));
    assert(s.window_ids.contains_key(owner));
    assert(s.has_toplevel(owner));
    assert(s.clients[owner.client_id].is_sound());
    assert(is_told(s.clients[owner.client_id], taken.clients[owner.client_id])) by {
        assert(s.clients.contains_key(owner.client_id));
    }
    lemma_toggled(taken, window_id);
    let after = taken.toggled(window_id).0;
    assert(taken.has_toplevel(owner) && taken.toplevel(owner) == s.toplevel(owner));
    assert forall|o: WindowOwner| o != owner implies #[trigger] after.has_toplevel(o)
        == s.has_toplevel(o) && (s.has_toplevel(o) ==> after.toplevel(o) == s.toplevel(o)) by {
        assert(taken.has_toplevel(o) == s.has_toplevel(o));
    }
    if is_up_to_date(s) {
        telling::lemma_telling_keeps_picture(s, taken);
    }
}

} // verus!
