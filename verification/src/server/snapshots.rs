//! What a shell is told when it begins to follow windows.

use vstd::prelude::*;

use crate::bytes;
use crate::client::callbacks::is_word_event;
use crate::client::model;
use crate::client::model::ClientModel;
use crate::events;
use crate::events::WindowStateModel;
use crate::ids::{ClientId, ObjectId, WindowId};
use crate::objects::Interface;
use crate::server::inputs;
use crate::server::inputs::joined_words;
use crate::server::model::ServerModel;
use crate::server::reports;
use crate::server::reports::{carries_state, is_state_of};
use crate::server::shells::word;
use crate::server::telling;
use crate::server::telling::{asks_manager, is_told};
use crate::text;
use crate::wire;
use crate::wire::HEADER_SIZE;

verus! {

/// Whether a message is an event of an object.
pub open spec fn is_event(m: Seq<u8>, object_id: ObjectId, opcode: u16) -> bool {
    &&& wire::header_fault(m) is None
    &&& wire::header_at(m).object_id == object_id
    &&& wire::header_at(m).opcode == opcode
}

pub(crate) proof fn lemma_not_superseded(
    queued: Seq<Seq<u8>>,
    object_id: ObjectId,
    opcode: u16,
    payload: Seq<u8>,
    from: nat,
)
    requires
        opcode != 4,
        opcode != 6,
    ensures
        model::superseded(queued, Interface::ShellManager, object_id, opcode, payload, from)
            is None,
    decreases queued.len() - from,
{
    if from < queued.len() {
        lemma_not_superseded(queued, object_id, opcode, payload, from + 1);
    }
}

/// A manager's event goes to the end of the queue, if that does not overflow.
pub(crate) proof fn lemma_appended(c: ClientModel, manager: ObjectId, opcode: u16, payload: Seq<u8>)
    requires
        c.is_object(manager, Interface::ShellManager),
        opcode == 1 || opcode == 2 || opcode == 3 || opcode == 5 || opcode == 7,
        payload.len() <= 20000,
    ensures
        ({
            let after = c.emit(manager, opcode, payload);
            &&& !after.overflowed ==> {
                &&& !c.overflowed
                &&& after.events == c.events.push(wire::message(manager, opcode, payload))
                &&& is_event(wire::message(manager, opcode, payload), manager, opcode)
            }
        }),
{
    reveal(ClientModel::emit);
    lemma_not_superseded(c.events, manager, opcode, payload, 0);
    reports::lemma_header(manager, opcode, payload);
}

/// An event of one word reads back.
pub(crate) proof fn lemma_word_message(manager: ObjectId, opcode: u16, value: u32)
    ensures
        events::window_word_payload(value).len() == 4,
        is_word_event(
            wire::message(manager, opcode, events::window_word_payload(value)),
            manager,
            opcode,
            value,
        ),
{
    let payload = events::window_word_payload(value);
    let words = seq![value];
    assert(payload =~= joined_words(words)) by {
        reveal_with_fuel(joined_words, 2);
        assert(words.drop_last() =~= Seq::<u32>::empty());
    }
    reports::lemma_header(manager, opcode, payload);
    inputs::lemma_words(manager, opcode, words, 0);
}

proof fn lemma_word_appended(c: ClientModel, manager: ObjectId, opcode: u16, value: u32)
    requires
        c.is_object(manager, Interface::ShellManager),
        opcode == 2 || opcode == 3 || opcode == 7,
    ensures
        ({
            let after = c.emit(manager, opcode, events::window_word_payload(value));
            &&& !after.overflowed ==> {
                &&& !c.overflowed
                &&& after.events.len() == c.events.len() + 1
                &&& after.events.drop_last() == c.events
                &&& is_word_event(after.events.last(), manager, opcode, value)
            }
        }),
{
    let payload = events::window_word_payload(value);
    lemma_word_message(manager, opcode, value);
    lemma_appended(c, manager, opcode, payload);
    let after = c.emit(manager, opcode, payload);
    if !after.overflowed {
        assert(after.events.drop_last() =~= c.events);
    }
}

/// Whether an event reports the state of a window under a number.
pub open spec fn reports_state(
    s: ServerModel,
    m: Seq<u8>,
    manager: ObjectId,
    snapshot_id: u32,
    window_id: WindowId,
) -> bool {
    &&& is_event(m, manager, 5)
    &&& exists|st: WindowStateModel| #[trigger]
        is_state_of(s, st, window_id) && st.snapshot_id == snapshot_id && carries_state(m, st)
}

proof fn lemma_states_listed(
    s: ServerModel,
    t: ServerModel,
    c: ClientModel,
    manager: ObjectId,
    snapshot_id: u32,
    ids: Seq<WindowId>,
)
    requires
        c.is_object(manager, Interface::ShellManager),
        forall|i: int|
            0 <= i < ids.len() ==> {
                let st = t.window_state(#[trigger] ids[i])->0;
                &&& t.window_state(ids[i]) is Some
                &&& is_state_of(s, st, ids[i])
                &&& st.title.len() + st.app_id.len() <= crate::client::MAX_TOPLEVEL_METADATA_BYTES
            },
    ensures
        ({
            let after = t.states_listed(c, manager, snapshot_id, ids);
            let n = c.events.len() as int;
            &&& is_told(c, after)
            &&& !after.overflowed ==> {
                &&& after.events.len() == n + ids.len()
                &&& forall|i: int|
                    0 <= i < ids.len() ==> reports_state(
                        s,
                        #[trigger] after.events[n + i],
                        manager,
                        snapshot_id,
                        ids[i],
                    )
            }
        }),
    decreases ids.len(),
{
    broadcast use crate::client::model::lemma_emit_frame;

    if ids.len() > 0 {
        let front = ids.drop_last();
        let w = ids.last();
        assert(ids[ids.len() - 1] == w);
        assert forall|i: int| 0 <= i < front.len() implies front[i] == #[trigger] ids[i] by {}
        lemma_states_listed(s, t, c, manager, snapshot_id, front);
        let before = t.states_listed(c, manager, snapshot_id, front);
        let st = WindowStateModel { snapshot_id, ..t.window_state(w)->0 };
        let payload = events::window_state_payload(st);
        reports::lemma_state_is_short(st);
        reports::law_state_message_carries_state(manager, 5, st);
        lemma_appended(before, manager, 5, payload);
        let after = t.states_listed(c, manager, snapshot_id, ids);
        let n = c.events.len() as int;
        if !after.overflowed {
            assert(is_state_of(s, st, w));
            assert forall|i: int| 0 <= i < ids.len() implies reports_state(
                s,
                #[trigger] after.events[n + i],
                manager,
                snapshot_id,
                ids[i],
            ) by {
                if i < front.len() {
                    assert(after.events[n + i] == before.events[n + i]);
                    assert(front[i] == ids[i]);
                }
            }
        }
    }
}

/// A shell that asks to follow the states of windows is told the state of every
/// window, from the lowest to the highest, under the number that it gave; then
/// which has the focus, if one has; then that this was all.
pub proof fn law_snapshot_tells_every_window(
    s: ServerModel,
    client_id: ClientId,
    message: Seq<u8>,
    granted: bool,
)
    requires
        s.is_sound(),
        s.z_order.len() <= u32::MAX,
        asks_manager(s, client_id, message, 9, 4),
        word(message, 0) != 0,
        s.clients[client_id].shell_manager_id == Some(wire::header_at(message).object_id),
    ensures
        ({
            let after = s.dispatched(client_id, message, granted).0.clients[client_id];
            let manager = wire::header_at(message).object_id;
            let snapshot_id = word(message, 0);
            let focused = s.window_of_focus(s.focus);
            let count = s.z_order.len() + if focused is Some {
                2int
            } else {
                1
            };
            let n = after.events.len() - count;
            &&& after.shell_manager_state_snapshot_id == Some(snapshot_id)
            &&& !after.overflowed ==> {
                &&& n >= 0
                &&& forall|i: int|
                    0 <= i < s.z_order.len() ==> reports_state(
                        s,
                        #[trigger] after.events[n + i],
                        manager,
                        snapshot_id,
                        s.z_order[i],
                    )
                &&& focused is Some ==> is_word_event(
                    after.events[n + s.z_order.len()],
                    manager,
                    3,
                    (focused->0).0,
                )
                &&& is_word_event(after.events.last(), manager, 7, snapshot_id)
            }
        }),
{
    broadcast use crate::client::model::lemma_emit_frame;

    let taken = telling::lemma_asks_manager(s, client_id, message, 9, 4, granted);
    reveal(ServerModel::shell_followed);
    let payload = message.subrange(10, 14);
    assert(bytes::le32_at(payload, 0) == word(message, 0));
    let manager = wire::header_at(message).object_id;
    let snapshot_id = word(message, 0);
    assert(s.clients.contains_key(client_id));
    assert(taken.clients.dom().contains(client_id));
    assert(is_told(s.clients[client_id], taken.clients[client_id]));
    let c = ClientModel {
        shell_manager_state_snapshot_id: Some(snapshot_id),
        ..taken.clients[client_id]
    };
    let ids = s.z_order;
    assert forall|i: int| 0 <= i < ids.len() implies {
        let st = taken.window_state(#[trigger] ids[i])->0;
        &&& taken.window_state(ids[i]) is Some
        &&& is_state_of(s, st, ids[i])
        &&& st.title.len() + st.app_id.len() <= crate::client::MAX_TOPLEVEL_METADATA_BYTES
    } by {
        lemma_state_of_taken(s, taken, ids[i]);
        assert(s.z_order.contains(ids[i]));
        assert(s.windows.contains_key(ids[i]));
        reports::law_reported_state_is_true(s, ids[i]);
        let owner = s.windows[ids[i]];
        assert(s.window_ids.contains_key(owner));
        assert(s.has_toplevel(owner));
        let holder = s.clients[owner.client_id];
        assert(holder.is_sound());
        assert(holder.toplevels.contains_key(owner.toplevel_id));
    }
    lemma_states_listed(s, taken, c, manager, snapshot_id, ids);
    let listed = taken.states_listed(c, manager, snapshot_id, ids);
    let focused = s.window_of_focus(s.focus);
    assert(taken.window_of_focus(taken.focus) == focused) by {
        lemma_focus_of_taken(s, taken);
    }
    let mid = match focused {
        Some(w) => listed.emit(manager, 3, events::window_word_payload(w.0)),
        None => listed,
    };
    if let Some(w) = focused {
        lemma_word_appended(listed, manager, 3, w.0);
    }
    lemma_word_appended(mid, manager, 7, snapshot_id);
    let after = s.dispatched(client_id, message, granted).0.clients[client_id];
    assert(after == mid.emit(manager, 7, events::window_word_payload(snapshot_id)));
    if !after.overflowed {
        let count = ids.len() + if focused is Some {
            2int
        } else {
            1
        };
        let n = after.events.len() - count;
        assert(n == c.events.len());
        assert forall|i: int| 0 <= i < ids.len() implies reports_state(
            s,
            #[trigger] after.events[n + i],
            manager,
            snapshot_id,
            ids[i],
        ) by {
            assert(after.events[n + i] == after.events.drop_last()[n + i]);
            assert(mid.events[n + i] == listed.events[n + i]) by {
                if focused is Some {
                    assert(mid.events.drop_last()[n + i] == mid.events[n + i]);
                }
            }
        }
        if focused is Some {
            assert(after.events.drop_last()[n + ids.len()] == mid.events.last());
        }
    }
}

proof fn lemma_state_of_taken(s: ServerModel, t: ServerModel, w: WindowId)
    requires
        s.is_sound(),
        telling::is_taken(s, t),
    ensures
        t.window_state(w) == s.window_state(w),
{
    if s.windows.contains_key(w) {
        let owner = s.windows[w];
        assert(s.window_ids.contains_key(owner));
        assert(s.has_toplevel(owner));
        assert(s.clients.contains_key(owner.client_id));
        assert(t.clients.dom().contains(owner.client_id));
        assert(is_told(s.clients[owner.client_id], t.clients[owner.client_id]));
    }
}

proof fn lemma_focus_of_taken(s: ServerModel, t: ServerModel)
    requires
        telling::is_taken(s, t),
    ensures
        t.window_of_focus(t.focus) == s.window_of_focus(s.focus),
{
    if let Some((id, surface_id)) = s.focus {
        assert(t.clients.dom().contains(id) == s.clients.dom().contains(id));
        if s.clients.contains_key(id) {
            assert(is_told(s.clients[id], t.clients[id]));
        }
    }
}

// Following windows.

/// Whether an event names a window, with its texts.
#[verifier::opaque]
pub open spec fn names_window(
    s: ServerModel,
    m: Seq<u8>,
    manager: ObjectId,
    window_id: WindowId,
) -> bool {
    let toplevel = s.toplevel(s.windows[window_id]);
    let at = (HEADER_SIZE + 4) as int;
    &&& is_event(m, manager, 1)
    &&& word(m, 0) == window_id.0
    &&& text::text_at(m, at) == toplevel.title
    &&& text::text_end(m, at) is Some
    &&& text::text_at(m, text::text_end(m, at)->0) == toplevel.app_id
    &&& text::text_end(m, text::text_end(m, at)->0) == Some(m.len() as int)
}

/// Whether a window has the focus.
pub open spec fn has_focus(s: ServerModel, window_id: WindowId) -> bool {
    let owner = s.windows[window_id];
    s.focus == Some((owner.client_id, s.toplevel(owner).surface_id))
}

/// How many of the listed windows have the focus.
pub open spec fn focused_among(s: ServerModel, ids: Seq<WindowId>) -> int
    decreases ids.len(),
{
    if ids.len() == 0 {
        0
    } else if has_focus(s, ids.last()) {
        focused_among(s, ids.drop_last()) + 1
    } else {
        focused_among(s, ids.drop_last())
    }
}

proof fn lemma_focused_among(s: ServerModel, ids: Seq<WindowId>, i: int)
    requires
        0 <= i <= ids.len(),
    ensures
        0 <= focused_among(s, ids.take(i)) <= focused_among(s, ids),
    decreases ids.len(),
{
    if i < ids.len() {
        lemma_focused_among(s, ids.drop_last(), i);
        assert(ids.drop_last().take(i) =~= ids.take(i));
    } else {
        assert(ids.take(i) =~= ids);
        if ids.len() > 0 {
            lemma_focused_among(s, ids.drop_last(), ids.len() - 1);
        }
    }
}

/// Whether the listed windows are told from a place in the queue on: each is
/// named, in turn, and the one that has the focus is told to have it.
pub open spec fn lists_windows(
    s: ServerModel,
    queue: Seq<Seq<u8>>,
    from: int,
    manager: ObjectId,
    ids: Seq<WindowId>,
) -> bool {
    &&& queue.len() == from + ids.len() + focused_among(s, ids)
    &&& forall|i: int|
        #![trigger ids[i]]
        0 <= i < ids.len() ==> {
            let at = from + i + focused_among(s, ids.take(i));
            &&& names_window(s, queue[at], manager, ids[i])
            &&& has_focus(s, ids[i]) ==> is_word_event(queue[at + 1], manager, 3, ids[i].0)
        }
}

pub(crate) proof fn lemma_named(s: ServerModel, manager: ObjectId, window_id: WindowId)
    requires
        s.toplevel(s.windows[window_id]).title.len() + s.toplevel(
            s.windows[window_id],
        ).app_id.len() <= crate::client::MAX_TOPLEVEL_METADATA_BYTES,
    ensures
        ({
            let toplevel = s.toplevel(s.windows[window_id]);
            let payload = events::window_created_payload(
                window_id.0,
                toplevel.title,
                toplevel.app_id,
            );
            &&& payload.len() <= 20000
            &&& names_window(s, wire::message(manager, 1, payload), manager, window_id)
        }),
{
    let toplevel = s.toplevel(s.windows[window_id]);
    reveal(names_window);
    lemma_created_word(manager, window_id.0, toplevel.title, toplevel.app_id);
    lemma_created_texts(manager, window_id.0, toplevel.title, toplevel.app_id);
}

proof fn lemma_created_word(manager: ObjectId, id: u32, title: Seq<u8>, app_id: Seq<u8>)
    requires
        title.len() + app_id.len() <= crate::client::MAX_TOPLEVEL_METADATA_BYTES,
    ensures
        ({
            let payload = events::window_created_payload(id, title, app_id);
            let m = wire::message(manager, 1, payload);
            &&& payload.len() <= 20000
            &&& is_event(m, manager, 1)
            &&& word(m, 0) == id
        }),
{
    let payload = events::window_created_payload(id, title, app_id);
    let front = bytes::le32(id);
    let m = wire::message(manager, 1, payload);
    reports::lemma_header(manager, 1, payload);
    assert(m.subrange(HEADER_SIZE as int, HEADER_SIZE + 4) =~= front);
    inputs::lemma_word(m, HEADER_SIZE as int, id);
}

proof fn lemma_created_texts(manager: ObjectId, id: u32, title: Seq<u8>, app_id: Seq<u8>)
    requires
        title.len() <= u32::MAX,
        app_id.len() <= u32::MAX,
    ensures
        ({
            let m = wire::message(manager, 1, events::window_created_payload(id, title, app_id));
            let at = (HEADER_SIZE + 4) as int;
            &&& text::text_at(m, at) == title
            &&& text::text_end(m, at) is Some
            &&& text::text_at(m, text::text_end(m, at)->0) == app_id
            &&& text::text_end(m, text::text_end(m, at)->0) == Some(m.len() as int)
        }),
{
    let payload = events::window_created_payload(id, title, app_id);
    let front = bytes::le32(id);
    assert(front.len() == 4);
    lemma_regroup(front, text::wire_text(title), text::wire_text(app_id));
    reports::lemma_texts_in_message(manager, 1, payload, front, title, app_id);
}

proof fn lemma_regroup(a: Seq<u8>, b: Seq<u8>, c: Seq<u8>)
    ensures
        a + b + c == a + (b + c),
{
    assert(a + b + c =~= a + (b + c));
}

#[verifier::rlimit(30)]
proof fn lemma_windows_listed(
    s: ServerModel,
    t: ServerModel,
    c: ClientModel,
    manager: ObjectId,
    ids: Seq<WindowId>,
)
    requires
        c.is_object(manager, Interface::ShellManager),
        t.windows == s.windows,
        t.focus == s.focus,
        forall|i: int|
            0 <= i < ids.len() ==> {
                let owner = s.windows[#[trigger] ids[i]];
                &&& s.windows.contains_key(ids[i])
                &&& t.has_toplevel(owner)
                &&& t.toplevel(owner) == s.toplevel(owner)
                &&& s.toplevel(owner).title.len() + s.toplevel(owner).app_id.len()
                    <= crate::client::MAX_TOPLEVEL_METADATA_BYTES
            },
    ensures
        ({
            let after = t.windows_listed(c, manager, ids);
            &&& is_told(c, after)
            &&& !after.overflowed ==> lists_windows(
                s,
                after.events,
                c.events.len() as int,
                manager,
                ids,
            )
        }),
    decreases ids.len(),
{
    broadcast use crate::client::model::lemma_emit_frame;

    if ids.len() > 0 {
        let front = ids.drop_last();
        let w = ids.last();
        assert(ids[ids.len() - 1] == w);
        assert forall|i: int| 0 <= i < front.len() implies front[i] == #[trigger] ids[i] by {}
        lemma_windows_listed(s, t, c, manager, front);
        let before = t.windows_listed(c, manager, front);
        let toplevel = s.toplevel(s.windows[w]);
        let payload = events::window_created_payload(w.0, toplevel.title, toplevel.app_id);
        lemma_named(s, manager, w);
        lemma_appended(before, manager, 1, payload);
        let listed = before.emit(manager, 1, payload);
        lemma_word_appended(listed, manager, 3, w.0);
        let after = t.windows_listed(c, manager, ids);
        let n = c.events.len() as int;
        if !after.overflowed {
            assert(listed.events == before.events.push(wire::message(manager, 1, payload)));
            assert(after == if has_focus(s, w) {
                listed.emit(manager, 3, events::window_word_payload(w.0))
            } else {
                listed
            });
            assert(after.events.take(before.events.len() as int) =~= before.events) by {
                if has_focus(s, w) {
                    assert(after.events.drop_last() == listed.events);
                    assert forall|i: int| 0 <= i < before.events.len() implies after.events[i]
                        == #[trigger] before.events[i] by {
                        assert(after.events.drop_last()[i] == after.events[i]);
                    }
                }
            }
            assert(after.events[before.events.len() as int] == wire::message(
                manager,
                1,
                payload,
            )) by {
                if has_focus(s, w) {
                    assert(after.events.drop_last()[before.events.len() as int]
                        == listed.events[before.events.len() as int]);
                }
            }
            lemma_one_more_listed(s, before.events, after.events, n, manager, ids);
        }
    }
}

proof fn lemma_one_more_listed(
    s: ServerModel,
    before: Seq<Seq<u8>>,
    after: Seq<Seq<u8>>,
    n: int,
    manager: ObjectId,
    ids: Seq<WindowId>,
)
    requires
        ids.len() > 0,
        n >= 0,
        lists_windows(s, before, n, manager, ids.drop_last()),
        after.len() == before.len() + 1 + if has_focus(s, ids.last()) {
            1int
        } else {
            0
        },
        after.take(before.len() as int) == before,
        names_window(s, after[before.len() as int], manager, ids.last()),
        has_focus(s, ids.last()) ==> is_word_event(after.last(), manager, 3, ids.last().0),
    ensures
        lists_windows(s, after, n, manager, ids),
{
    let front = ids.drop_last();
    assert forall|i: int|
        #![trigger ids[i]]
        0 <= i < ids.len() implies {
        let at = n + i + focused_among(s, ids.take(i));
        &&& names_window(s, after[at], manager, ids[i])
        &&& has_focus(s, ids[i]) ==> is_word_event(after[at + 1], manager, 3, ids[i].0)
    } by {
        let at = n + i + focused_among(s, ids.take(i));
        if i < front.len() {
            assert(front[i] == ids[i]);
            assert(front.take(i) =~= ids.take(i));
            lemma_focused_among(s, front, i);
            lemma_focused_among(s, front, i + 1);
            assert(front.take(i + 1).drop_last() =~= front.take(i));
            assert(front.take(i + 1).last() == front[i]);
            assert(0 <= at < before.len());
            assert(after.take(before.len() as int)[at] == after[at]);
            if has_focus(s, ids[i]) {
                assert(at + 1 < before.len());
                assert(after.take(before.len() as int)[at + 1] == after[at + 1]);
            }
        } else {
            assert(ids.take(i) =~= front);
            assert(at == before.len());
        }
    }
}

/// A shell that asks to follow windows is told of every window, from the lowest
/// to the highest, with its texts, and of the one that has the focus.
pub proof fn law_subscription_names_every_window(
    s: ServerModel,
    client_id: ClientId,
    message: Seq<u8>,
    size: int,
    granted: bool,
)
    requires
        s.is_sound(),
        asks_manager(s, client_id, message, 1, size),
        s.clients[client_id].shell_manager_id == Some(wire::header_at(message).object_id),
    ensures
        ({
            let after = s.dispatched(client_id, message, granted).0.clients[client_id];
            let manager = wire::header_at(message).object_id;
            let n = after.events.len() - s.z_order.len() - focused_among(s, s.z_order);
            &&& after.shell_manager_subscribed
            &&& !after.overflowed ==> n >= 0 && lists_windows(
                s,
                after.events,
                n,
                manager,
                s.z_order,
            )
        }),
{
    let taken = telling::lemma_asks_manager(s, client_id, message, 1, size, granted);
    reveal(ServerModel::shell_followed);
    let manager = wire::header_at(message).object_id;
    assert(s.clients.contains_key(client_id));
    assert(taken.clients.dom().contains(client_id));
    assert(is_told(s.clients[client_id], taken.clients[client_id]));
    let c = ClientModel { shell_manager_subscribed: true, ..taken.clients[client_id] };
    let ids = s.z_order;
    assert forall|i: int| 0 <= i < ids.len() implies {
        let owner = s.windows[#[trigger] ids[i]];
        &&& s.windows.contains_key(ids[i])
        &&& taken.has_toplevel(owner)
        &&& taken.toplevel(owner) == s.toplevel(owner)
        &&& s.toplevel(owner).title.len() + s.toplevel(owner).app_id.len()
            <= crate::client::MAX_TOPLEVEL_METADATA_BYTES
    } by {
        assert(s.z_order.contains(ids[i]));
        assert(s.windows.contains_key(ids[i]));
        let owner = s.windows[ids[i]];
        assert(s.window_ids.contains_key(owner));
        assert(s.has_toplevel(owner));
        let holder = s.clients[owner.client_id];
        assert(holder.is_sound());
        assert(holder.toplevels.contains_key(owner.toplevel_id));
        assert(taken.clients.dom().contains(owner.client_id));
        assert(is_told(holder, taken.clients[owner.client_id]));
    }
    lemma_windows_listed(s, taken, c, manager, ids);
    let after = s.dispatched(client_id, message, granted).0.clients[client_id];
    assert(after == taken.windows_listed(c, manager, ids));
}

} // verus!
