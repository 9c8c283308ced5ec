//! What shells are told of windows.

use vstd::prelude::*;

use crate::bytes;
use crate::client::model;
use crate::client::model::ClientModel;
use crate::events;
use crate::events::{
    WindowStateModel, WINDOW_FOCUSED, WINDOW_HIDDEN_FOR_RESTORE, WINDOW_MAPPED, WINDOW_MAXIMIZED,
    WINDOW_MINIMIZED, WINDOW_RESTORE_PLACEMENT_APPLIED, WINDOW_SHELL_OWNED,
};
use crate::ids::{ClientId, ObjectId, WindowId};
use crate::objects::Interface;
use crate::server::inputs;
use crate::server::inputs::joined_words;
use crate::server::model::ServerModel;
use crate::server::shells::word;
use crate::text;
use crate::wire;
use crate::wire::HEADER_SIZE;

verus! {

/// Whether a state is that of a window: who owns it, where it is and how large
/// what it shows, its normal place and size, its place in the order, its texts,
/// and its flags, each of which is set exactly if what it stands for is so.
pub open spec fn is_state_of(s: ServerModel, st: WindowStateModel, window_id: WindowId) -> bool {
    let owner = s.windows[window_id];
    let client = s.clients[owner.client_id];
    let toplevel = s.toplevel(owner);
    let surface = client.surfaces[toplevel.surface_id];
    let shows = client.surfaces.contains_key(toplevel.surface_id) && surface.current_buffer is Some;
    let at = surface.current_buffer->0;
    let buffer = client.buffers[at.buffer_id];
    &&& st.window_id == window_id.0
    &&& st.owner_pid == client.peer_pid
    &&& st.ordinal == toplevel.ordinal
    &&& shows ==> st.current_width == buffer.width && st.current_height == buffer.height
    &&& shows && i32::MIN <= toplevel.x + at.x <= i32::MAX ==> st.current_x == toplevel.x + at.x
    &&& shows && i32::MIN <= toplevel.y + at.y <= i32::MAX ==> st.current_y == toplevel.y + at.y
    &&& !shows ==> st.current_x == toplevel.x && st.current_y == toplevel.y && st.current_width
        == 0 && st.current_height == 0
    &&& st.normal_x == toplevel.normal_x
    &&& st.normal_y == toplevel.normal_y
    &&& st.normal_width == toplevel.normal_width
    &&& st.normal_height == toplevel.normal_height
    &&& st.title == toplevel.title
    &&& st.app_id == toplevel.app_id
    &&& 0 <= st.z_rank < s.z_order.len()
    &&& s.z_order[st.z_rank as int] == window_id
    &&& (st.flags & WINDOW_MAPPED != 0) == shows
    &&& (st.flags & WINDOW_MINIMIZED != 0) == toplevel.minimized
    &&& (st.flags & WINDOW_MAXIMIZED != 0) == toplevel.maximized
    &&& (st.flags & WINDOW_FOCUSED != 0) == (s.focus == Some(
        (owner.client_id, toplevel.surface_id),
    ))
    &&& (st.flags & WINDOW_HIDDEN_FOR_RESTORE != 0) == toplevel.hidden_for_restore
    &&& (st.flags & WINDOW_RESTORE_PLACEMENT_APPLIED != 0) == (s.restore is Some && (
    s.restore->0).placements.contains_key(window_id) && (
    s.restore->0).placements[window_id].settled)
    &&& (st.flags & WINDOW_SHELL_OWNED != 0) == client.is_shell()
    &&& st.flags < 128
}

/// Every window has a state, and it is the window's.
pub proof fn law_reported_state_is_true(s: ServerModel, window_id: WindowId)
    requires
        s.is_sound(),
        s.z_order.len() <= u32::MAX,
    ensures
        s.window_state(window_id) is Some <==> s.windows.contains_key(window_id),
        s.windows.contains_key(window_id) ==> is_state_of(
            s,
            s.window_state(window_id)->0,
            window_id,
        ),
{
    crate::server::model::lemma_rank_of(s.z_order, window_id, 0);
    if s.windows.contains_key(window_id) {
        let owner = s.windows[window_id];
        assert(s.z_order.contains(window_id));
        let i = choose|i: int| 0 <= i < s.z_order.len() && s.z_order[i] == window_id;
        assert(s.z_order[i] == window_id);
        assert(s.window_ids.contains_key(owner));
        assert(s.has_toplevel(owner));
        let client = s.clients[owner.client_id];
        assert(client.is_sound());
        let st = s.window_state(window_id)->0;
        let flags = st.flags;
        let parts = s.window_flags(window_id, owner);
        assert(0 <= parts < 128);
        assert(flags == parts);
        assert(flags < 128 ==> (flags & 1 != 0) == (flags % 2 == 1) && (flags & 2 != 0) == (flags
            / 2 % 2 == 1) && (flags & 4 != 0) == (flags / 4 % 2 == 1) && (flags & 8 != 0) == (
        flags / 8 % 2 == 1) && (flags & 16 != 0) == (flags / 16 % 2 == 1) && (flags & 32 != 0) == (
        flags / 32 % 2 == 1) && (flags & 64 != 0) == (flags / 64 == 1)) by (bit_vector);
        let toplevel = s.toplevel(owner);
        if client.shows(toplevel.surface_id) {
            let at = client.surfaces[toplevel.surface_id].current_buffer->0;
            assert(client.buffers.contains_key(at.buffer_id));
        }
    }
}

/// The words that begin a payload read back from its message.
pub(crate) proof fn lemma_leading_words(
    object_id: ObjectId,
    opcode: u16,
    words: Seq<u32>,
    rest: Seq<u8>,
    index: int,
)
    requires
        0 <= index < words.len(),
    ensures
        word(wire::message(object_id, opcode, joined_words(words) + rest), index)
            == words[index],
        joined_words(words).len() == 4 * words.len(),
{
    let payload = joined_words(words) + rest;
    let m = wire::message(object_id, opcode, payload);
    inputs::lemma_joined_words(words, index);
    let at = HEADER_SIZE + 4 * index;
    assert(m.subrange(at, at + 4) =~= joined_words(words).subrange(4 * index, 4 * index + 4));
    inputs::lemma_word(m, at, words[index]);
}

/// Whether a message carries a state: its words in their places, then the
/// texts.
#[verifier::opaque]
pub open spec fn carries_state(m: Seq<u8>, st: WindowStateModel) -> bool {
    &&& word(m, 0) == st.snapshot_id
    &&& word(m, 1) == st.window_id
    &&& word(m, 2) == st.owner_pid
    &&& word(m, 3) == st.ordinal
    &&& word(m, 4) == st.current_x as u32
    &&& word(m, 5) == st.current_y as u32
    &&& word(m, 6) == st.current_width
    &&& word(m, 7) == st.current_height
    &&& word(m, 8) == st.normal_x as u32
    &&& word(m, 9) == st.normal_y as u32
    &&& word(m, 10) == st.normal_width
    &&& word(m, 11) == st.normal_height
    &&& word(m, 12) == st.flags
    &&& word(m, 13) == st.z_rank
    &&& text::text_at(m, HEADER_SIZE + 56) == st.title
    &&& text::text_end(m, HEADER_SIZE + 56) is Some
    &&& text::text_at(m, text::text_end(m, HEADER_SIZE + 56)->0) == st.app_id
    &&& text::text_end(m, text::text_end(m, HEADER_SIZE + 56)->0) == Some(m.len() as int)
}

/// The words of a state, in their order.
spec fn state_words(st: WindowStateModel) -> Seq<u32> {
    seq![
        st.snapshot_id,
        st.window_id,
        st.owner_pid,
        st.ordinal,
        st.current_x as u32,
        st.current_y as u32,
        st.current_width,
        st.current_height,
        st.normal_x as u32,
        st.normal_y as u32,
        st.normal_width,
        st.normal_height,
        st.flags,
        st.z_rank,
    ]
}

proof fn lemma_state_payload(st: WindowStateModel)
    ensures
        events::window_state_payload(st) == joined_words(state_words(st)) + (text::wire_text(
            st.title,
        ) + text::wire_text(st.app_id)),
        joined_words(state_words(st)).len() == 56,
{
    let words = state_words(st);
    inputs::lemma_joined_words(words, 0);
    lemma_joined_step(words, 14);
    lemma_joined_step(words, 13);
    lemma_joined_step(words, 12);
    lemma_joined_step(words, 11);
    lemma_joined_step(words, 10);
    lemma_joined_step(words, 9);
    lemma_joined_step(words, 8);
    lemma_joined_step(words, 7);
    lemma_joined_step(words, 6);
    lemma_joined_step(words, 5);
    lemma_joined_step(words, 4);
    lemma_joined_step(words, 3);
    lemma_joined_step(words, 2);
    lemma_joined_step(words, 1);
    assert(words.take(14) =~= words);
    assert(joined_words(words.take(1)) == bytes::le32(words[0])) by {
        assert(joined_words(words.take(0)) =~= Seq::<u8>::empty());
        assert(Seq::<u8>::empty() + bytes::le32(words[0]) =~= bytes::le32(words[0]));
    }
    let front = joined_words(words);
    let title = text::wire_text(st.title);
    let app_id = text::wire_text(st.app_id);
    lemma_regroup(front, title, app_id);
}

/// The report of a state fits a message.
pub(crate) proof fn lemma_state_is_short(st: WindowStateModel)
    requires
        st.title.len() + st.app_id.len() <= crate::client::MAX_TOPLEVEL_METADATA_BYTES,
    ensures
        events::window_state_payload(st).len() <= 20000,
{
    lemma_state_payload(st);
}

proof fn lemma_regroup(a: Seq<u8>, b: Seq<u8>, c: Seq<u8>)
    ensures
        a + b + c == a + (b + c),
{
    assert(a + b + c =~= a + (b + c));
}

proof fn lemma_state_words(object_id: ObjectId, opcode: u16, st: WindowStateModel)
    ensures
        ({
            let m = wire::message(object_id, opcode, events::window_state_payload(st));
            forall|i: int| 0 <= i < 14 ==> #[trigger] word(m, i) == state_words(st)[i]
        }),
{
    let words = state_words(st);
    let texts = text::wire_text(st.title) + text::wire_text(st.app_id);
    lemma_state_payload(st);
    let m = wire::message(object_id, opcode, events::window_state_payload(st));
    assert forall|i: int| 0 <= i < 14 implies #[trigger] word(m, i) == words[i] by {
        lemma_leading_words(object_id, opcode, words, texts, i);
    }
}

proof fn lemma_state_texts(object_id: ObjectId, opcode: u16, st: WindowStateModel)
    requires
        st.title.len() <= u32::MAX,
        st.app_id.len() <= u32::MAX,
    ensures
        ({
            let m = wire::message(object_id, opcode, events::window_state_payload(st));
            &&& text::text_at(m, HEADER_SIZE + 56) == st.title
            &&& text::text_end(m, HEADER_SIZE + 56) is Some
            &&& text::text_at(m, text::text_end(m, HEADER_SIZE + 56)->0) == st.app_id
            &&& text::text_end(m, text::text_end(m, HEADER_SIZE + 56)->0) == Some(m.len() as int)
        }),
{
    lemma_state_payload(st);
    let front = joined_words(state_words(st));
    lemma_texts_in_message(
        object_id,
        opcode,
        events::window_state_payload(st),
        front,
        st.title,
        st.app_id,
    );
}

pub(crate) proof fn lemma_texts_in_message(
    object_id: ObjectId,
    opcode: u16,
    payload: Seq<u8>,
    front: Seq<u8>,
    a: Seq<u8>,
    b: Seq<u8>,
)
    requires
        payload == front + (text::wire_text(a) + text::wire_text(b)),
        a.len() <= u32::MAX,
        b.len() <= u32::MAX,
    ensures
        ({
            let m = wire::message(object_id, opcode, payload);
            let at = (HEADER_SIZE + front.len()) as int;
            &&& text::text_at(m, at) == a
            &&& text::text_end(m, at) is Some
            &&& text::text_at(m, text::text_end(m, at)->0) == b
            &&& text::text_end(m, text::text_end(m, at)->0) == Some(m.len() as int)
        }),
{
    let head = lemma_message_parts(object_id, opcode, payload);
    lemma_two_texts(head, front, a, b);
}

proof fn lemma_message_parts(object_id: ObjectId, opcode: u16, payload: Seq<u8>) -> (head: Seq<u8>)
    ensures
        wire::message(object_id, opcode, payload) == head + payload,
        head.len() == HEADER_SIZE,
{
    let m = wire::message(object_id, opcode, payload);
    let head = m.take(HEADER_SIZE as int);
    assert(m =~= head + payload);
    head
}

/// Two texts behind something else read back.
proof fn lemma_two_texts(head: Seq<u8>, front: Seq<u8>, a: Seq<u8>, b: Seq<u8>)
    requires
        a.len() <= u32::MAX,
        b.len() <= u32::MAX,
    ensures
        ({
            let m = head + (front + (text::wire_text(a) + text::wire_text(b)));
            let at = (head.len() + front.len()) as int;
            &&& text::text_at(m, at) == a
            &&& text::text_end(m, at) is Some
            &&& text::text_at(m, text::text_end(m, at)->0) == b
            &&& text::text_end(m, text::text_end(m, at)->0) == Some(m.len() as int)
        }),
{
    let x = text::wire_text(a);
    let y = text::wire_text(b);
    let m = head + (front + (x + y));
    let before = head + front;
    let longer = before + x;
    text::law_text_round_trip(before, a, y);
    text::law_text_round_trip(longer, b, Seq::empty());
    lemma_regroup(front, x, y);
    lemma_regroup(head, front + x, y);
    lemma_regroup(head, front, x);
    assert(longer + y + Seq::<u8>::empty() =~= longer + y);
}

/// A message that reports a state carries it.
pub proof fn law_state_message_carries_state(
    object_id: ObjectId,
    opcode: u16,
    st: WindowStateModel,
)
    requires
        st.title.len() <= u32::MAX,
        st.app_id.len() <= u32::MAX,
    ensures
        carries_state(
            wire::message(object_id, opcode, events::window_state_payload(st)),
            st,
        ),
{
    lemma_state_words(object_id, opcode, st);
    lemma_state_texts(object_id, opcode, st);
    lemma_carried(wire::message(object_id, opcode, events::window_state_payload(st)), st);
}

proof fn lemma_carried(m: Seq<u8>, st: WindowStateModel)
    requires
        forall|i: int| 0 <= i < 14 ==> #[trigger] word(m, i) == state_words(st)[i],
        text::text_at(m, HEADER_SIZE + 56) == st.title,
        text::text_end(m, HEADER_SIZE + 56) is Some,
        text::text_at(m, text::text_end(m, HEADER_SIZE + 56)->0) == st.app_id,
        text::text_end(m, text::text_end(m, HEADER_SIZE + 56)->0) == Some(m.len() as int),
    ensures
        carries_state(m, st),
{
    reveal(carries_state);
    let words = state_words(st);
    assert(word(m, 0) == words[0]);
    assert(word(m, 1) == words[1]);
    assert(word(m, 2) == words[2]);
    assert(word(m, 3) == words[3]);
    assert(word(m, 4) == words[4]);
    assert(word(m, 5) == words[5]);
    assert(word(m, 6) == words[6]);
    assert(word(m, 7) == words[7]);
    assert(word(m, 8) == words[8]);
    assert(word(m, 9) == words[9]);
    assert(word(m, 10) == words[10]);
    assert(word(m, 11) == words[11]);
    assert(word(m, 12) == words[12]);
    assert(word(m, 13) == words[13]);
}

proof fn lemma_joined_step(words: Seq<u32>, n: int)
    requires
        0 < n <= words.len(),
    ensures
        joined_words(words.take(n)) == joined_words(words.take(n - 1)) + bytes::le32(words[n - 1]),
{
    assert(words.take(n).drop_last() =~= words.take(n - 1));
}

/// Whether a queue holds a report of a state, or has overflowed.
pub open spec fn holds_report(c: ClientModel, manager: ObjectId, st: WindowStateModel) -> bool {
    c.overflowed || exists|i: int|
        0 <= i < c.events.len() && wire::header_fault(#[trigger] c.events[i]) is None
            && wire::header_at(c.events[i]).object_id == manager && (wire::header_at(
            c.events[i],
        ).opcode == 5 || wire::header_at(c.events[i]).opcode == 6) && carries_state(
            c.events[i],
            st,
        )
}

/// Whenever a window's state is reported, every shell that follows states has in
/// its queue the state that the window now has, under the number that the shell
/// follows them by. A report that has not left yet is overtaken.
pub proof fn law_followers_hold_current_state(s: ServerModel, window_id: WindowId, id: ClientId)
    requires
        s.is_sound(),
        s.z_order.len() <= u32::MAX,
        s.windows.contains_key(window_id),
        s.clients.contains_key(id),
        s.clients[id].shell_manager_id is Some,
        s.clients[id].is_object(s.clients[id].shell_manager_id->0, Interface::ShellManager),
        s.clients[id].shell_manager_state_snapshot_id is Some,
    ensures
        ({
            let after = s.announce_state(window_id).clients[id];
            let manager = s.clients[id].shell_manager_id->0;
            let snapshot_id = s.clients[id].shell_manager_state_snapshot_id->0;
            exists|st: WindowStateModel| #[trigger]
                is_state_of(s, st, window_id) && st.snapshot_id == snapshot_id && holds_report(
                    after,
                    manager,
                    st,
                )
        }),
{
    law_reported_state_is_true(s, window_id);
    reveal(ServerModel::announce_state);
    reveal(ServerModel::announce);
    let c = s.clients[id];
    let manager = c.shell_manager_id->0;
    let snapshot_id = c.shell_manager_state_snapshot_id->0;
    let st = WindowStateModel { snapshot_id, ..s.window_state(window_id)->0 };
    assert(is_state_of(s, st, window_id));
    let owner = s.windows[window_id];
    assert(s.window_ids.contains_key(owner));
    assert(s.has_toplevel(owner));
    let holder = s.clients[owner.client_id];
    assert(holder.is_sound());
    assert(holder.toplevels.contains_key(owner.toplevel_id));
    let payload = events::window_state_payload(st);
    lemma_report(c, manager, st, payload);
}

proof fn lemma_report(c: ClientModel, manager: ObjectId, st: WindowStateModel, payload: Seq<u8>)
    requires
        c.is_object(manager, Interface::ShellManager),
        payload == events::window_state_payload(st),
        st.title.len() + st.app_id.len() <= crate::client::MAX_TOPLEVEL_METADATA_BYTES,
    ensures
        holds_report(c.emit(manager, 6, payload), manager, st),
{
    law_state_message_carries_state(manager, 5, st);
    law_state_message_carries_state(manager, 6, st);
    lemma_state_is_short(st);
    lemma_report_is_queued(c, manager, st, payload);
}

proof fn lemma_report_is_queued(
    c: ClientModel,
    manager: ObjectId,
    st: WindowStateModel,
    payload: Seq<u8>,
)
    requires
        c.is_object(manager, Interface::ShellManager),
        payload.len() <= 20000,
        carries_state(wire::message(manager, 5, payload), st),
        carries_state(wire::message(manager, 6, payload), st),
    ensures
        holds_report(c.emit(manager, 6, payload), manager, st),
{
    reveal(ClientModel::emit);
    let after = c.emit(manager, 6, payload);
    lemma_header(manager, 5, payload);
    lemma_header(manager, 6, payload);
    if c.emit_fault(manager, 6, payload) is None {
        match model::superseded(
            c.events,
            Interface::ShellManager,
            manager,
            6,
            payload,
            0,
        ) {
            Some(index) => {
                lemma_superseded(c.events, manager, payload, 0);
                let opcode = wire::header_at(c.events[index as int]).opcode;
                assert(after.events[index as int] == wire::message(manager, opcode, payload));
            },
            None => {
                assert(after.events[c.events.len() as int] == wire::message(manager, 6, payload));
            },
        }
    }
}

pub(crate) proof fn lemma_header(object_id: ObjectId, opcode: u16, payload: Seq<u8>)
    requires
        payload.len() <= 20000,
    ensures
        wire::header_fault(wire::message(object_id, opcode, payload)) is None,
        wire::header_at(wire::message(object_id, opcode, payload)).object_id == object_id,
        wire::header_at(wire::message(object_id, opcode, payload)).opcode == opcode,
{
    let header = wire::MessageHeader {
        object_id,
        opcode,
        length: (HEADER_SIZE + payload.len()) as u16,
        fd_passing: 0,
    };
    wire::law_header_round_trip(header, payload);
}

proof fn lemma_superseded(queued: Seq<Seq<u8>>, manager: ObjectId, payload: Seq<u8>, from: nat)
    ensures
        match model::superseded(queued, Interface::ShellManager, manager, 6, payload, from) {
            Some(index) => index < queued.len() && (wire::header_at(queued[index as int]).opcode
                == 5 || wire::header_at(queued[index as int]).opcode == 6),
            None => true,
        },
    decreases queued.len() - from,
{
    if from < queued.len() {
        lemma_superseded(queued, manager, payload, from + 1);
    }
}

} // verus!
