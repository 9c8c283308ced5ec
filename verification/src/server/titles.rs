//! What shells are told when a window comes, goes, or has a new text.

use vstd::prelude::*;

use crate::bytes;
use crate::client::bounds;
use crate::client::callbacks::is_word_event;
use crate::client::effects;
use crate::client::model;
use crate::client::model::ClientModel;
use crate::client::sound;
use crate::events;
use crate::ids::{ClientId, ObjectId};
use crate::objects::Interface;
use crate::server::inputs;
use crate::server::model::{NoticeModel, ServerModel};
use crate::server::reports;
use crate::server::shells::word;
use crate::server::snapshots;
use crate::server::snapshots::{is_event, names_window};
use crate::server::toplevels::{addressed, is_to_toplevel};
use crate::text;
use crate::wire;
use crate::wire::HEADER_SIZE;

verus! {

/// Whether an event says the title of a window.
#[verifier::opaque]
pub open spec fn says_title(m: Seq<u8>, manager: ObjectId, window_id: u32, title: Seq<u8>) -> bool {
    let at = (HEADER_SIZE + 4) as int;
    &&& is_event(m, manager, 4)
    &&& word(m, 0) == window_id
    &&& text::text_at(m, at) == title
    &&& text::text_end(m, at) == Some(m.len() as int)
}

/// Whether a queue holds the title of a window, or has overflowed.
pub open spec fn holds_title(
    c: ClientModel,
    manager: ObjectId,
    window_id: u32,
    title: Seq<u8>,
) -> bool {
    c.overflowed || exists|i: int|
        0 <= i < c.events.len() && says_title(#[trigger] c.events[i], manager, window_id, title)
}

proof fn lemma_says_title(manager: ObjectId, window_id: u32, title: Seq<u8>)
    requires
        title.len() <= crate::client::MAX_TOPLEVEL_METADATA_BYTES,
    ensures
        ({
            let payload = events::window_title_changed_payload(window_id, title);
            &&& payload.len() <= 20000
            &&& says_title(wire::message(manager, 4, payload), manager, window_id, title)
        }),
{
    reveal(says_title);
    let payload = events::window_title_changed_payload(window_id, title);
    let front = bytes::le32(window_id);
    let m = wire::message(manager, 4, payload);
    reports::lemma_header(manager, 4, payload);
    assert(m.subrange(HEADER_SIZE as int, HEADER_SIZE + 4) =~= front);
    inputs::lemma_word(m, HEADER_SIZE as int, window_id);
    let before = m.take(HEADER_SIZE + 4);
    assert(m =~= before + text::wire_text(title) + Seq::<u8>::empty());
    text::law_text_round_trip(before, title, Seq::empty());
}

proof fn lemma_superseded_title(
    queued: Seq<Seq<u8>>,
    manager: ObjectId,
    opcode: u16,
    payload: Seq<u8>,
    from: nat,
)
    requires
        opcode == 4 || opcode == 6,
    ensures
        match model::superseded(queued, Interface::ShellManager, manager, opcode, payload, from) {
            Some(index) => index < queued.len() && (opcode == 4) == (wire::header_at(
                queued[index as int],
            ).opcode == 4),
            None => true,
        },
    decreases queued.len() - from,
{
    if from < queued.len() {
        lemma_superseded_title(queued, manager, opcode, payload, from + 1);
    }
}

/// A title that is told is in the queue.
proof fn lemma_title_told(c: ClientModel, manager: ObjectId, window_id: u32, title: Seq<u8>)
    requires
        c.is_object(manager, Interface::ShellManager),
        title.len() <= crate::client::MAX_TOPLEVEL_METADATA_BYTES,
    ensures
        holds_title(
            c.emit(manager, 4, events::window_title_changed_payload(window_id, title)),
            manager,
            window_id,
            title,
        ),
{
    reveal(ClientModel::emit);
    let payload = events::window_title_changed_payload(window_id, title);
    lemma_says_title(manager, window_id, title);
    lemma_superseded_title(c.events, manager, 4, payload, 0);
    let after = c.emit(manager, 4, payload);
    let m = wire::message(manager, 4, payload);
    if c.emit_fault(manager, 4, payload) is None {
        match model::superseded(c.events, Interface::ShellManager, manager, 4, payload, 0) {
            Some(index) => {
                assert(after.events[index as int] == m);
            },
            None => {
                assert(after.events[c.events.len() as int] == m);
            },
        }
    }
}

/// A state that is told overtakes no title.
proof fn lemma_title_stays(
    c: ClientModel,
    manager: ObjectId,
    window_id: u32,
    title: Seq<u8>,
    payload: Seq<u8>,
)
    requires
        c.is_object(manager, Interface::ShellManager),
        holds_title(c, manager, window_id, title),
    ensures
        holds_title(c.emit(manager, 6, payload), manager, window_id, title),
{
    reveal(ClientModel::emit);
    lemma_superseded_title(c.events, manager, 6, payload, 0);
    let after = c.emit(manager, 6, payload);
    if !c.overflowed {
        let i = choose|i: int|
            0 <= i < c.events.len() && says_title(
                #[trigger] c.events[i],
                manager,
                window_id,
                title,
            );
        assert(wire::header_at(c.events[i]).opcode == 4) by {
            reveal(says_title);
        }
        assert(!after.overflowed ==> after.events[i] == c.events[i]);
    }
}

/// When a window gets a new title, it is the text that was sent, and every shell
/// that follows windows has it in its queue. A title that has not left yet is
/// overtaken.
pub proof fn law_new_title_reaches_followers(
    s: ServerModel,
    client_id: ClientId,
    message: Seq<u8>,
    granted: bool,
    id: ClientId,
)
    requires
        s.is_sound(),
        is_to_toplevel(s, client_id, message, 1),
        s.window_ids.contains_key(addressed(client_id, message)),
        s.clients[client_id].dispatched(
            wire::header_at(message),
            message.subrange(HEADER_SIZE as int, wire::header_at(message).length as int),
            s.budgets(client_id),
            granted,
        ).1 is None,
        s.clients.contains_key(id),
        s.clients[id].shell_manager_subscribed,
        s.clients[id].shell_manager_id is Some,
        s.clients[id].is_object(s.clients[id].shell_manager_id->0, Interface::ShellManager),
    ensures
        ({
            let (after, fault) = s.dispatched(client_id, message, granted);
            let owner = addressed(client_id, message);
            let payload = message.subrange(
                HEADER_SIZE as int,
                wire::header_at(message).length as int,
            );
            let title = text::text_at(payload, 0);
            &&& fault is None
            &&& after.toplevel(owner).title == title
            &&& holds_title(
                after.clients[id],
                s.clients[id].shell_manager_id->0,
                s.window_ids[owner].0,
                title,
            )
        }),
{
    broadcast use crate::client::model::lemma_emit_frame;

    reveal(ServerModel::carried_out);
    reveal(ServerModel::toplevel_followed);
    let header = wire::header_at(message);
    let payload = message.subrange(HEADER_SIZE as int, header.length as int);
    let c = s.clients[client_id];
    let budgets = s.budgets(client_id);
    assert(s.clients.contains_key(client_id));
    assert(c.is_sound() && c.is_reaped());
    effects::law_texts_are_as_sent(c, header, payload, budgets, granted, 1);
    sound::law_dispatch_keeps_sound(c, header, payload, budgets, granted);
    let step = c.dispatched(header, payload, budgets, granted);
    let owner = addressed(client_id, message);
    let title = text::text_at(payload, 0);
    lemma_shell_part(c, header, payload, budgets, granted);
    let taken = s.recounted(client_id, step.0);
    let after = s.dispatched(client_id, message, granted).0;
    assert(s.carried_out(client_id, header, payload, granted) == taken.followed(
        s,
        client_id,
        header.object_id,
        1,
        payload,
    ));
    assert(s.dispatched(client_id, message, granted) == (
        taken.retitled(owner),
        None::<crate::server::model::ServerFault>,
    ));
    assert(taken.has_toplevel(owner));
    assert(taken.toplevel(owner).title == title);
    assert(step.0.toplevels.contains_key(owner.toplevel_id));
    assert(title.len() <= crate::client::MAX_TOPLEVEL_METADATA_BYTES);
    let w = s.window_ids[owner];
    lemma_retitled(taken, owner, w, id, title);
}

proof fn lemma_shell_part(
    c: ClientModel,
    header: wire::MessageHeader,
    payload: Seq<u8>,
    budgets: crate::client::ServerResourceBudgets,
    granted: bool,
)
    requires
        effects::is_accepted(c, header, payload, budgets, granted, Interface::XdgToplevel, 1),
    ensures
        ({
            let after = c.dispatched(header, payload, budgets, granted).0;
            &&& after.shell_manager_id == c.shell_manager_id
            &&& after.shell_manager_subscribed == c.shell_manager_subscribed
            &&& after.objects == c.objects
        }),
{
    broadcast use crate::client::model::lemma_emit_frame;

    reveal(ClientModel::dispatched);
    reveal(ClientModel::mutated);
    bounds::lemma_reaped(c);
}

proof fn lemma_retitled(
    t: ServerModel,
    owner: crate::ids::WindowOwner,
    w: crate::ids::WindowId,
    id: ClientId,
    title: Seq<u8>,
)
    requires
        t.has_toplevel(owner),
        t.toplevel(owner).title == title,
        title.len() <= crate::client::MAX_TOPLEVEL_METADATA_BYTES,
        t.window_ids.contains_key(owner),
        t.window_ids[owner] == w,
        t.clients.contains_key(id),
        t.clients[id].shell_manager_subscribed,
        t.clients[id].shell_manager_id is Some,
        t.clients[id].is_object(t.clients[id].shell_manager_id->0, Interface::ShellManager),
    ensures
        t.retitled(owner).toplevel(owner).title == title,
        holds_title(
            t.retitled(owner).clients[id],
            t.clients[id].shell_manager_id->0,
            w.0,
            title,
        ),
{
    broadcast use crate::client::model::lemma_emit_frame;

    reveal(ServerModel::announce);
    reveal(ServerModel::announce_state);
    let manager = t.clients[id].shell_manager_id->0;
    let told = t.announce(NoticeModel::TitleChanged { window_id: w.0, title });
    lemma_title_told(t.clients[id], manager, w.0, title);
    let c = told.clients[id];
    assert(holds_title(c, manager, w.0, title));
    if let Some(state) = told.window_state(w) {
        if let Some(snapshot_id) = c.shell_manager_state_snapshot_id {
            lemma_title_stays(
                c,
                manager,
                w.0,
                title,
                events::window_state_payload(
                    events::WindowStateModel { snapshot_id, ..state },
                ),
            );
        }
    }
}

// Windows that come and go.

/// Whether a queue holds a message, or has overflowed.
pub open spec fn holds_message(c: ClientModel, m: Seq<u8>) -> bool {
    c.overflowed || exists|i: int| 0 <= i < c.events.len() && #[trigger] c.events[i] == m
}

/// A state that is told overtakes states only.
proof fn lemma_message_stays(c: ClientModel, manager: ObjectId, payload: Seq<u8>, m: Seq<u8>)
    requires
        c.is_object(manager, Interface::ShellManager),
        holds_message(c, m),
        wire::header_at(m).opcode != 5,
        wire::header_at(m).opcode != 6,
    ensures
        holds_message(c.emit(manager, 6, payload), m),
{
    reveal(ClientModel::emit);
    lemma_superseded_state(c.events, manager, payload, 0);
    let after = c.emit(manager, 6, payload);
    if !c.overflowed {
        let i = choose|i: int| 0 <= i < c.events.len() && #[trigger] c.events[i] == m;
        assert(!after.overflowed ==> after.events[i] == m);
    }
}

proof fn lemma_superseded_state(
    queued: Seq<Seq<u8>>,
    manager: ObjectId,
    payload: Seq<u8>,
    from: nat,
)
    ensures
        match model::superseded(queued, Interface::ShellManager, manager, 6, payload, from) {
            Some(index) => index < queued.len() && (wire::header_at(queued[index as int]).opcode
                == 5 || wire::header_at(queued[index as int]).opcode == 6),
            None => true,
        },
    decreases queued.len() - from,
{
    if from < queued.len() {
        lemma_superseded_state(queued, manager, payload, from + 1);
    }
}

/// Whether a connection follows windows as another does.
spec fn follows_same(a: ClientModel, b: ClientModel) -> bool {
    &&& b.shell_manager_id == a.shell_manager_id
    &&& b.shell_manager_subscribed == a.shell_manager_subscribed
    &&& b.shell_manager_state_snapshot_id == a.shell_manager_state_snapshot_id
    &&& b.objects == a.objects
}

proof fn lemma_states_keep_message(
    s: ServerModel,
    ids: Seq<crate::ids::WindowId>,
    id: ClientId,
    m: Seq<u8>,
)
    requires
        s.clients.contains_key(id),
        s.clients[id].shell_manager_id is Some,
        s.clients[id].is_object(s.clients[id].shell_manager_id->0, Interface::ShellManager),
        holds_message(s.clients[id], m),
        wire::header_at(m).opcode != 5,
        wire::header_at(m).opcode != 6,
    ensures
        s.announce_states(ids).clients.contains_key(id),
        follows_same(s.clients[id], s.announce_states(ids).clients[id]),
        holds_message(s.announce_states(ids).clients[id], m),
    decreases ids.len(),
{
    broadcast use crate::client::model::lemma_emit_frame;

    if ids.len() > 0 {
        lemma_states_keep_message(s, ids.drop_last(), id, m);
        reveal(ServerModel::announce);
        reveal(ServerModel::announce_state);
        let before = s.announce_states(ids.drop_last());
        let c = before.clients[id];
        if let Some(state) = before.window_state(ids.last()) {
            if let Some(snapshot_id) = c.shell_manager_state_snapshot_id {
                lemma_message_stays(
                    c,
                    c.shell_manager_id->0,
                    events::window_state_payload(
                        events::WindowStateModel { snapshot_id, ..state },
                    ),
                    m,
                );
            }
        }
    }
}

/// Every shell that follows windows is told of a new one, by its number and its
/// texts.
pub proof fn law_new_window_reaches_followers(
    s: ServerModel,
    owner: crate::ids::WindowOwner,
    id: ClientId,
)
    requires
        s.has_toplevel(owner),
        !s.window_ids.contains_key(owner),
        s.next_window_id < u32::MAX,
        s.toplevel(owner).title.len() + s.toplevel(owner).app_id.len()
            <= crate::client::MAX_TOPLEVEL_METADATA_BYTES,
        s.clients.contains_key(id),
        s.clients[id].shell_manager_subscribed,
        s.clients[id].shell_manager_id is Some,
        s.clients[id].is_object(s.clients[id].shell_manager_id->0, Interface::ShellManager),
    ensures
        ({
            let after = s.created(owner);
            let window_id = crate::ids::WindowId(s.next_window_id);
            let manager = s.clients[id].shell_manager_id->0;
            &&& after.window_ids.contains_key(owner)
            &&& after.window_ids[owner] == window_id
            &&& after.clients[id].overflowed || exists|i: int|
                0 <= i < after.clients[id].events.len() && names_window(
                    after,
                    #[trigger] after.clients[id].events[i],
                    manager,
                    window_id,
                )
        }),
{
    broadcast use crate::client::model::lemma_emit_frame;
    broadcast use crate::server::telling::group_shows;

    reveal(ServerModel::created);
    let window_id = crate::ids::WindowId(s.next_window_id);
    let manager = s.clients[id].shell_manager_id->0;
    let (named, w, shifted) = s.registered(owner);
    let toplevel = s.toplevel(owner);
    let payload = events::window_created_payload(w.0, toplevel.title, toplevel.app_id);
    let m = wire::message(manager, 1, payload);
    let notice = NoticeModel::Created {
        window_id: w.0,
        title: toplevel.title,
        app_id: toplevel.app_id,
        state: named.window_state(w),
    };
    let told = named.announce(notice);
    let after = s.created(owner);
    assert(named.toplevel(named.windows[w]) == toplevel);
    snapshots::lemma_named(named, manager, w);
    assert(wire::header_at(m).opcode == 1) by {
        reveal(names_window);
    }
    assert(told.clients.contains_key(id) && follows_same(named.clients[id], told.clients[id])
        && holds_message(told.clients[id], m)) by {
        reveal(ServerModel::announce);
        let c = named.clients[id];
        let listed = c.emit(manager, 1, payload);
        lemma_held(c, manager, 1, payload);
        if let Some(snapshot_id) = c.shell_manager_state_snapshot_id {
            if let Some(state) = named.window_state(w) {
                lemma_added(
                    listed,
                    manager,
                    5,
                    events::window_state_payload(
                        events::WindowStateModel { snapshot_id, ..state },
                    ),
                    m,
                );
            }
        }
    }
    lemma_states_keep_message(told, shifted, id, m);
    assert(crate::server::telling::only_tells(named, told));
    assert(crate::server::telling::only_tells(told, after));
    crate::server::telling::lemma_tells_then(named, told, after);
    crate::server::telling::lemma_all_told(named, after);
    let c = after.clients[id];
    if !c.overflowed {
        let i = choose|i: int| 0 <= i < c.events.len() && #[trigger] c.events[i] == m;
        assert(after.toplevel(after.windows[window_id]) == named.toplevel(named.windows[w]));
        assert(names_window(after, c.events[i], manager, window_id)) by {
            reveal(names_window);
        }
    }
}

/// An event that is queued is held.
proof fn lemma_held(c: ClientModel, manager: ObjectId, opcode: u16, payload: Seq<u8>)
    requires
        c.is_object(manager, Interface::ShellManager),
        opcode == 1 || opcode == 2,
        payload.len() <= 20000,
    ensures
        holds_message(
            c.emit(manager, opcode, payload),
            wire::message(manager, opcode, payload),
        ),
{
    snapshots::lemma_appended(c, manager, opcode, payload);
    let after = c.emit(manager, opcode, payload);
    if !after.overflowed {
        assert(after.events[c.events.len() as int] == wire::message(manager, opcode, payload));
    }
}

/// What is held stays when an event that overtakes nothing is queued.
proof fn lemma_added(
    c: ClientModel,
    manager: ObjectId,
    opcode: u16,
    payload: Seq<u8>,
    m: Seq<u8>,
)
    requires
        c.is_object(manager, Interface::ShellManager),
        opcode == 5,
        holds_message(c, m),
    ensures
        holds_message(c.emit(manager, opcode, payload), m),
{
    reveal(ClientModel::emit);
    snapshots::lemma_not_superseded(c.events, manager, opcode, payload, 0);
    let after = c.emit(manager, opcode, payload);
    if !c.overflowed {
        let i = choose|i: int| 0 <= i < c.events.len() && #[trigger] c.events[i] == m;
        assert(!after.overflowed ==> after.events[i] == m);
    }
}

/// Every shell that follows windows, or their states, is told of one that is no
/// more.
pub proof fn law_lost_window_reaches_followers(
    s: ServerModel,
    owner: crate::ids::WindowOwner,
    id: ClientId,
)
    requires
        s.window_ids.contains_key(owner),
        s.clients.contains_key(id),
        s.clients[id].shell_manager_subscribed
            || s.clients[id].shell_manager_state_snapshot_id is Some,
        s.clients[id].shell_manager_id is Some,
        s.clients[id].is_object(s.clients[id].shell_manager_id->0, Interface::ShellManager),
    ensures
        ({
            let after = s.unregistered(owner);
            let window_id = s.window_ids[owner];
            let manager = s.clients[id].shell_manager_id->0;
            &&& !after.window_ids.contains_key(owner)
            &&& !after.windows.contains_key(window_id)
            &&& after.clients[id].overflowed || exists|i: int|
                0 <= i < after.clients[id].events.len() && is_word_event(
                    #[trigger] after.clients[id].events[i],
                    manager,
                    2,
                    window_id.0,
                )
        }),
{
    broadcast use crate::client::model::lemma_emit_frame;
    broadcast use crate::server::telling::group_shows;

    reveal(ServerModel::unregistered);
    let w = s.window_ids[owner];
    let manager = s.clients[id].shell_manager_id->0;
    let gone = Set::empty().insert(w);
    let bare = ServerModel {
        window_ids: s.window_ids.remove(owner),
        windows: s.windows.remove(w),
        z_order: crate::server::focus::without(s.z_order, gone),
        restore: crate::server::windows::restore_without(s.restore, w),
        ..s
    };
    let told = bare.announce(NoticeModel::Destroyed { window_id: w.0 });
    let payload = events::window_word_payload(w.0);
    let m = wire::message(manager, 2, payload);
    snapshots::lemma_word_message(manager, 2, w.0);
    assert(told.clients.contains_key(id) && follows_same(s.clients[id], told.clients[id])
        && holds_message(told.clients[id], m)) by {
        reveal(ServerModel::announce);
        lemma_held(s.clients[id], manager, 2, payload);
    }
    let dropped = crate::server::focus::dropped_by(s.z_order, gone);
    lemma_states_keep_message(told, dropped, id, m);
    let after = s.unregistered(owner);
    assert(crate::server::telling::only_tells(bare, told));
    assert(crate::server::telling::only_tells(told, after));
    let c = after.clients[id];
    if !c.overflowed {
        let i = choose|i: int| 0 <= i < c.events.len() && #[trigger] c.events[i] == m;
        assert(is_word_event(c.events[i], manager, 2, w.0));
    }
}

} // verus!
