//! What input comes to: who is told of it, and what it changes.

use vstd::prelude::*;

use crate::bytes;
use crate::client::model;
use crate::client::model::ClientModel;
use crate::events;
use crate::events::{STATE_PRESSED, STATE_RELEASED};
use crate::ids::{ClientId, ObjectId, WindowId, WindowOwner};
use crate::layout::KeyboardLayout;
use crate::objects::Interface;
use crate::protocol::keymap::{KeymapModel, Scancode};
use crate::server::damage::DamageModel;
use crate::server::focus;
use crate::server::keyboard::{KEY_F4, KEY_SHIFT_LEFT, KEY_SHIFT_RIGHT};
use crate::server::model::ServerModel;
use crate::server::promises;
use crate::server::shells;
use crate::server::shells::{is_lifted, word};
use crate::server::telling;
use crate::server::telling::{is_told, is_up_to_date, only_shows, only_tells};
use crate::server::HitResult;
use crate::wire;
use crate::wire::HEADER_SIZE;

verus! {

// What an event says.

/// A word that stands somewhere reads back.
pub(crate) proof fn lemma_word(m: Seq<u8>, at: int, value: u32)
    requires
        0 <= at,
        at + 4 <= m.len(),
        m.subrange(at, at + 4) == bytes::le32(value),
    ensures
        bytes::le32_at(m, at) == value,
{
    bytes::law_le32_round_trip(value, 0);
    let part = m.subrange(at, at + 4);
    assert(part[0] == m[at] && part[1] == m[at + 1] && part[2] == m[at + 2] && part[3] == m[at
        + 3]);
}

/// The words of a payload read back from its message.
pub(crate) proof fn lemma_words(object_id: ObjectId, opcode: u16, words: Seq<u32>, index: int)
    requires
        0 <= index < words.len() <= 6,
    ensures
        ({
            let m = wire::message(object_id, opcode, joined_words(words));
            &&& m.len() == HEADER_SIZE + 4 * words.len()
            &&& word(m, index) == words[index]
        }),
{
    let payload = joined_words(words);
    let m = wire::message(object_id, opcode, payload);
    lemma_joined_words(words, index);
    let at = HEADER_SIZE + 4 * index;
    assert(m.subrange(at, at + 4) =~= payload.subrange(4 * index, 4 * index + 4));
    lemma_word(m, at, words[index]);
}

pub open spec fn joined_words(words: Seq<u32>) -> Seq<u8>
    decreases words.len(),
{
    if words.len() == 0 {
        Seq::empty()
    } else {
        joined_words(words.drop_last()) + bytes::le32(words.last())
    }
}

pub(crate) proof fn lemma_joined_words(words: Seq<u32>, index: int)
    ensures
        joined_words(words).len() == 4 * words.len(),
        0 <= index < words.len() ==> joined_words(words).subrange(4 * index, 4 * index + 4)
            == bytes::le32(words[index]),
    decreases words.len(),
{
    if words.len() > 0 {
        let front = words.drop_last();
        lemma_joined_words(front, index);
        let all = joined_words(words);
        if index == words.len() - 1 {
            assert(all.subrange(4 * index, 4 * index + 4) =~= bytes::le32(words[index]));
        } else if 0 <= index < words.len() {
            assert(all.subrange(4 * index, 4 * index + 4) =~= joined_words(front).subrange(
                4 * index,
                4 * index + 4,
            ));
        }
    }
}

/// Whether a queue has been given one more message, from an object and of a
/// number.
pub open spec fn is_queued(
    before: ClientModel,
    after: ClientModel,
    object_id: ObjectId,
    opcode: u16,
    size: int,
) -> bool {
    let m = after.events.last();
    &&& after.events.len() == before.events.len() + 1
    &&& after.events.drop_last() == before.events
    &&& wire::header_fault(m) is None
    &&& wire::header_at(m).object_id == object_id
    &&& wire::header_at(m).opcode == opcode
    &&& wire::header_at(m).length == HEADER_SIZE + size
    &&& m.len() == HEADER_SIZE + size
}

/// An event that is not of a manager, and for which there is room, is queued
/// behind the others.
pub(crate) proof fn lemma_emitted(
    c: ClientModel,
    object_id: ObjectId,
    opcode: u16,
    payload: Seq<u8>,
)
    requires
        c.emit_fault(object_id, opcode, payload) is None,
        c.objects[object_id] != Interface::ShellManager,
    ensures
        is_queued(c, c.emit(object_id, opcode, payload), object_id, opcode, payload.len() as int),
        c.emit(object_id, opcode, payload).events.last() == wire::message(
            object_id,
            opcode,
            payload,
        ),
{
    reveal(ClientModel::emit);
    lemma_not_superseded(c.events, c.objects[object_id], object_id, opcode, payload, 0);
    let header = wire::MessageHeader {
        object_id,
        opcode,
        length: (HEADER_SIZE + payload.len()) as u16,
        fd_passing: 0,
    };
    wire::law_header_round_trip(header, payload);
    let after = c.emit(object_id, opcode, payload);
    assert(after.events.drop_last() =~= c.events);
}

pub(crate) proof fn lemma_not_superseded(
    queued: Seq<Seq<u8>>,
    interface: Interface,
    object_id: ObjectId,
    opcode: u16,
    payload: Seq<u8>,
    from: nat,
)
    requires
        interface != Interface::ShellManager,
    ensures
        model::superseded(queued, interface, object_id, opcode, payload, from) is None,
    decreases queued.len() - from,
{
    if from < queued.len() {
        lemma_not_superseded(queued, interface, object_id, opcode, payload, from + 1);
    }
}

/// Whether a connection's queue has room for one more event of a size from an
/// object.
pub open spec fn has_room(c: ClientModel, object_id: ObjectId, opcode: u16, size: int) -> bool {
    forall|payload: Seq<u8>|
        payload.len() == size ==> (#[trigger] c.emit_fault(object_id, opcode, payload)) is None
}

// Keys.

/// The keyboard that is told of keys, if there is one.
pub open spec fn keyboard_of_focus(s: ServerModel) -> Option<ObjectId> {
    match s.focus {
        Some((client_id, _)) => if s.clients.contains_key(client_id) {
            s.clients[client_id].keyboard_id
        } else {
            None
        },
        None => None,
    }
}

/// Whether a key is neither the one of the close shortcut nor one that changes
/// what other keys mean.
pub open spec fn is_plain_key(key: u32) -> bool {
    key != KEY_F4 && key != KEY_SHIFT_LEFT && key != KEY_SHIFT_RIGHT
}

/// A key goes to the focused window's connection and to nobody else. The event
/// names the window and says what the key's state is now.
pub proof fn law_key_goes_to_the_focus(s: ServerModel, key: u32, state: u32)
    requires
        is_plain_key(key),
        s.focus is Some,
        s.clients.contains_key((s.focus->0).0),
        s.clients[(s.focus->0).0].keyboard_id is Some,
        s.clients[(s.focus->0).0].is_object(
            s.clients[(s.focus->0).0].keyboard_id->0,
            Interface::Keyboard,
        ),
        has_room(
            s.clients[(s.focus->0).0],
            s.clients[(s.focus->0).0].keyboard_id->0,
            1,
            12,
        ),
    ensures
        ({
            let (client_id, surface_id) = s.focus->0;
            let before = s.clients[client_id];
            let (after, told) = s.key_changed(key, state);
            let m = after.clients[client_id].events.last();
            &&& told == s.focus
            &&& after.focus == s.focus
            &&& is_queued(before, after.clients[client_id], before.keyboard_id->0, 1, 12)
            &&& word(m, 0) == surface_id.0
            &&& word(m, 2) == state
            &&& after.clients.dom() == s.clients.dom()
            &&& forall|id: ClientId|
                id != client_id && s.clients.contains_key(id) ==> #[trigger] after.clients[id]
                    == s.clients[id]
        }),
{
    lemma_key_event(s, key, state);
}

/// Which key a window is told of does not depend on whether it is pressed or
/// let go: a key that is let go is the one that was pressed.
pub proof fn law_key_is_let_go_as_it_was_pressed(s: ServerModel, key: u32, a: u32, b: u32)
    requires
        is_plain_key(key),
        s.focus is Some,
        s.clients.contains_key((s.focus->0).0),
        s.clients[(s.focus->0).0].keyboard_id is Some,
        s.clients[(s.focus->0).0].is_object(
            s.clients[(s.focus->0).0].keyboard_id->0,
            Interface::Keyboard,
        ),
        has_room(
            s.clients[(s.focus->0).0],
            s.clients[(s.focus->0).0].keyboard_id->0,
            1,
            12,
        ),
    ensures
        ({
            let id = (s.focus->0).0;
            word(s.key_changed(key, a).0.clients[id].events.last(), 1) == word(
                s.key_changed(key, b).0.clients[id].events.last(),
                1,
            )
        }),
{
    lemma_key_event(s, key, a);
    lemma_key_event(s, key, b);
}

/// The same over time: whatever else happens, as long as the focus, the layout
/// and the held shift keys are the same when a key is let go as they were when
/// it was pressed, the same key is let go that was pressed.
pub proof fn law_pressed_key_is_let_go(pressed: ServerModel, released: ServerModel, key: u32)
    requires
        is_plain_key(key),
        pressed.focus is Some,
        released.focus is Some,
        keyboard_of_focus(pressed) is Some,
        keyboard_of_focus(released) is Some,
        pressed.clients[(pressed.focus->0).0].is_object(
            keyboard_of_focus(pressed)->0,
            Interface::Keyboard,
        ),
        released.clients[(released.focus->0).0].is_object(
            keyboard_of_focus(released)->0,
            Interface::Keyboard,
        ),
        has_room(
            pressed.clients[(pressed.focus->0).0],
            keyboard_of_focus(pressed)->0,
            1,
            12,
        ),
        has_room(
            released.clients[(released.focus->0).0],
            keyboard_of_focus(released)->0,
            1,
            12,
        ),
        pressed.layout == released.layout,
        pressed.active_keymap == released.active_keymap,
        pressed.logical_keymap == released.logical_keymap,
        (pressed.shift_mask == 0) == (released.shift_mask == 0),
    ensures
        ({
            let down = pressed.key_changed(key, STATE_PRESSED).0;
            let up = released.key_changed(key, STATE_RELEASED).0;
            word(down.clients[(pressed.focus->0).0].events.last(), 1) == word(
                up.clients[(released.focus->0).0].events.last(),
                1,
            )
        }),
{
    lemma_key_event(pressed, key, STATE_PRESSED);
    lemma_key_event(released, key, STATE_RELEASED);
}

proof fn lemma_key_event(s: ServerModel, key: u32, state: u32)
    requires
        is_plain_key(key),
        s.focus is Some,
        s.clients.contains_key((s.focus->0).0),
        s.clients[(s.focus->0).0].keyboard_id is Some,
        s.clients[(s.focus->0).0].is_object(
            s.clients[(s.focus->0).0].keyboard_id->0,
            Interface::Keyboard,
        ),
        has_room(
            s.clients[(s.focus->0).0],
            s.clients[(s.focus->0).0].keyboard_id->0,
            1,
            12,
        ),
    ensures
        ({
            let (client_id, surface_id) = s.focus->0;
            let before = s.clients[client_id];
            let (after, told) = s.key_changed(key, state);
            let m = after.clients[client_id].events.last();
            &&& told == s.focus
            &&& after.focus == s.focus
            &&& is_queued(before, after.clients[client_id], before.keyboard_id->0, 1, 12)
            &&& word(m, 0) == surface_id.0
            &&& word(m, 1) == s.mapped_key(key)
            &&& word(m, 2) == state
            &&& after.clients.dom() == s.clients.dom()
            &&& forall|id: ClientId|
                id != client_id && s.clients.contains_key(id) ==> #[trigger] after.clients[id]
                    == s.clients[id]
        }),
{
    let (client_id, surface_id) = s.focus->0;
    let before = s.clients[client_id];
    let device = before.keyboard_id->0;
    let held = s.modifier_changed(key, state);
    assert(held.mapped_key(key) == s.mapped_key(key));
    let words = seq![surface_id.0, s.mapped_key(key), state];
    let payload = events::keyboard_key_payload(surface_id, s.mapped_key(key), state);
    assert(payload =~= joined_words(words)) by {
        reveal_with_fuel(joined_words, 4);
        assert(words.drop_last() =~= seq![surface_id.0, s.mapped_key(key)]);
        assert(words.drop_last().drop_last() =~= seq![surface_id.0]);
        assert(words.drop_last().drop_last().drop_last() =~= Seq::<u32>::empty());
    }
    assert(payload.len() == 12) by {
        lemma_joined_words(words, 0);
    }
    assert(before.emit_fault(device, 1, payload) is None);
    lemma_emitted(before, device, 1, payload);
    lemma_words(device, 1, words, 0);
    lemma_words(device, 1, words, 1);
    lemma_words(device, 1, words, 2);
    assert(s.key_changed(key, state).0.clients.dom() =~= s.clients.dom());
}

/// What a key means under a layout, with or without a shift key: a codepoint,
/// or zero for nothing.
pub open spec fn meaning(keymap: KeymapModel, code: u32, shifted: bool) -> u32 {
    if code > u8::MAX {
        0
    } else {
        match Scancode::of_code(code as u8) {
            Some(key) => if keymap.entries.contains_key(key) {
                if shifted {
                    keymap.entries[key].codepoint_shifted
                } else {
                    keymap.entries[key].codepoint_unshifted
                }
            } else {
                0
            },
            None => 0,
        }
    }
}

/// Whether a layout finds a codepoint on a key that means it.
pub open spec fn finds_meanings(keymap: KeymapModel) -> bool {
    &&& forall|c: u32| #[trigger]
        keymap.unshifted.contains_key(c) ==> meaning(
            keymap,
            keymap.unshifted[c].spec_code() as u32,
            false,
        ) == c
    &&& forall|c: u32| #[trigger]
        keymap.shifted.contains_key(c) ==> meaning(
            keymap,
            keymap.shifted[c].spec_code() as u32,
            true,
        ) == c
}

/// Under another layout than the default, a window is told of the key that
/// means, on the layout that windows know, what the pressed key means on the
/// chosen one. Where no key means that, it is told of the pressed key itself.
/// Under the default layout every key stands for itself.
pub proof fn law_key_keeps_its_meaning(s: ServerModel, key: u32, state: u32)
    requires
        is_plain_key(key),
        s.focus is Some,
        s.clients.contains_key((s.focus->0).0),
        s.clients[(s.focus->0).0].keyboard_id is Some,
        s.clients[(s.focus->0).0].is_object(
            s.clients[(s.focus->0).0].keyboard_id->0,
            Interface::Keyboard,
        ),
        has_room(
            s.clients[(s.focus->0).0],
            s.clients[(s.focus->0).0].keyboard_id->0,
            1,
            12,
        ),
        finds_meanings(s.logical_keymap),
    ensures
        ({
            let shifted = s.shift_mask != 0;
            let told = word(
                s.key_changed(key, state).0.clients[(s.focus->0).0].events.last(),
                1,
            );
            let meant = meaning(s.active_keymap, key, shifted);
            let known = if shifted {
                s.logical_keymap.shifted.contains_key(meant)
            } else {
                s.logical_keymap.unshifted.contains_key(meant)
            };
            &&& s.layout == KeyboardLayout::UsQwerty ==> told == key
            &&& s.layout != KeyboardLayout::UsQwerty && meant != 0 && known ==> meaning(
                s.logical_keymap,
                told,
                shifted,
            ) == meant
            &&& s.layout != KeyboardLayout::UsQwerty && (meant == 0 || !known) ==> told == key
        }),
{
    lemma_key_event(s, key, state);
}

/// A shift key that is held, either of them, is held until it is let go, and
/// only pressing or letting go of it changes that. The same for the alt keys.
pub proof fn law_shift_is_held_until_let_go(s: ServerModel, key: u32, state: u32)
    requires
        key != KEY_F4,
    ensures
        ({
            let after = s.key_changed(key, state).0;
            &&& key == KEY_SHIFT_LEFT && state == STATE_PRESSED ==> after.shift_mask & 1 != 0
            &&& key == KEY_SHIFT_LEFT && state == STATE_RELEASED ==> after.shift_mask & 1 == 0
            &&& key == KEY_SHIFT_RIGHT && state == STATE_PRESSED ==> after.shift_mask & 2 != 0
            &&& key == KEY_SHIFT_RIGHT && state == STATE_RELEASED ==> after.shift_mask & 2 == 0
            &&& key != KEY_SHIFT_LEFT ==> after.shift_mask & 1 == s.shift_mask & 1
            &&& key != KEY_SHIFT_RIGHT ==> after.shift_mask & 2 == s.shift_mask & 2
            &&& key == crate::server::keyboard::KEY_ALT_LEFT && state == STATE_PRESSED
                ==> after.alt_mask & 1 != 0
            &&& key == crate::server::keyboard::KEY_ALT_LEFT && state == STATE_RELEASED
                ==> after.alt_mask & 1 == 0
            &&& key == crate::server::keyboard::KEY_ALT_RIGHT && state == STATE_PRESSED
                ==> after.alt_mask & 2 != 0
            &&& key == crate::server::keyboard::KEY_ALT_RIGHT && state == STATE_RELEASED
                ==> after.alt_mask & 2 == 0
            &&& key != crate::server::keyboard::KEY_ALT_LEFT ==> after.alt_mask & 1 == s.alt_mask
                & 1
            &&& key != crate::server::keyboard::KEY_ALT_RIGHT ==> after.alt_mask & 2 == s.alt_mask
                & 2
        }),
{
    let m = s.shift_mask;
    let n = s.alt_mask;
    assert((m | 1) & 1 != 0 && (m & 0xfe) & 1 == 0 && (m | 2) & 2 != 0 && (m & 0xfd) & 2 == 0
        && (m | 2) & 1 == m & 1 && (m & 0xfd) & 1 == m & 1 && (m | 1) & 2 == m & 2 && (m & 0xfe)
        & 2 == m & 2) by (bit_vector);
    assert((n | 1) & 1 != 0 && (n & 0xfe) & 1 == 0 && (n | 2) & 2 != 0 && (n & 0xfd) & 2 == 0
        && (n | 2) & 1 == n & 1 && (n & 0xfd) & 1 == n & 1 && (n | 1) & 2 == n & 2 && (n & 0xfe)
        & 2 == n & 2) by (bit_vector);
}


// Pointer events.

/// An event that is not of a manager is queued, or the queue has overflowed.
pub(crate) proof fn lemma_emitted_unless_full(
    c: ClientModel,
    object_id: ObjectId,
    opcode: u16,
    payload: Seq<u8>,
)
    requires
        c.objects.contains_key(object_id),
        model::event_fault(c.objects[object_id], opcode) is None,
        c.objects[object_id] != Interface::ShellManager,
        payload.len() <= 1024,
        !c.emit(object_id, opcode, payload).overflowed,
    ensures
        is_queued(c, c.emit(object_id, opcode, payload), object_id, opcode, payload.len() as int),
        c.emit(object_id, opcode, payload).events.last() == wire::message(
            object_id,
            opcode,
            payload,
        ),
{
    reveal(ClientModel::emit);
    lemma_not_superseded(c.events, c.objects[object_id], object_id, opcode, payload, 0);
    lemma_emitted(c, object_id, opcode, payload);
}

/// Whether a point lies on a window that can be seen: a window is where its
/// toplevel is, and as large as what it shows.
pub open spec fn lies_on(s: ServerModel, window_id: WindowId, x: int, y: int) -> bool {
    &&& s.windows.contains_key(window_id)
    &&& {
        let owner = s.windows[window_id];
        let toplevel = s.toplevel(owner);
        let client = s.clients[owner.client_id];
        let buffer = client.buffers[(
        client.surfaces[toplevel.surface_id].current_buffer->0).buffer_id];
        &&& !toplevel.minimized
        &&& !toplevel.hidden_for_restore
        &&& client.surfaces.contains_key(toplevel.surface_id)
        &&& client.surfaces[toplevel.surface_id].current_buffer is Some
        &&& toplevel.x <= x < toplevel.x + buffer.width
        &&& toplevel.y <= y < toplevel.y + buffer.height
    }
}

/// Whether no window shows a picture too large for coordinates.
pub open spec fn sizes_are_moderate(s: ServerModel) -> bool {
    forall|id: ClientId, b: ObjectId|
        s.clients.contains_key(id) && #[trigger] s.clients[id].buffers.contains_key(b)
            ==> s.clients[id].buffers[b].width <= i32::MAX && s.clients[id].buffers[b].height
            <= i32::MAX
}

/// Whether something hit is what a point is of a window.
pub open spec fn is_hit_of(s: ServerModel, hit: HitResult, window_id: WindowId, x: int, y: int) -> bool {
    let owner = s.windows[window_id];
    let toplevel = s.toplevel(owner);
    &&& lies_on(s, window_id, x, y)
    &&& hit.client_id == owner.client_id
    &&& hit.surface_id == toplevel.surface_id
    &&& hit.local_x == x - toplevel.x
    &&& hit.local_y == y - toplevel.y
}

/// A point hits the highest window that it lies on, if there is one, and is
/// given in that window's own coordinates. (The largest coordinate there is lies
/// on no window.)
pub proof fn law_point_hits_highest_window(s: ServerModel, x: i32, y: i32)
    requires
        s.is_sound(),
        sizes_are_moderate(s),
        x < i32::MAX,
        y < i32::MAX,
    ensures
        match s.hit(x, y) {
            Some(hit) => exists|i: int|
                0 <= i < s.z_order.len() && is_hit_of(
                    s,
                    hit,
                    #[trigger] s.z_order[i],
                    x as int,
                    y as int,
                ) && forall|j: int|
                    i < j < s.z_order.len() ==> !lies_on(
                        s,
                        #[trigger] s.z_order[j],
                        x as int,
                        y as int,
                    ),
            None => forall|j: int|
                0 <= j < s.z_order.len() ==> !lies_on(
                    s,
                    #[trigger] s.z_order[j],
                    x as int,
                    y as int,
                ),
        },
{
    promises::law_hit_is_topmost(s, x, y);
    assert forall|i: int| 0 <= i < s.z_order.len() implies (match s.hit_window(
        #[trigger] s.z_order[i],
        x,
        y,
    ) {
        Some(hit) => is_hit_of(s, hit, s.z_order[i], x as int, y as int),
        None => !lies_on(s, s.z_order[i], x as int, y as int),
    }) by {
        lemma_hit_window(s, s.z_order[i], x, y);
    }
}

proof fn lemma_hit_window(s: ServerModel, window_id: WindowId, x: i32, y: i32)
    requires
        s.is_sound(),
        sizes_are_moderate(s),
        x < i32::MAX,
        y < i32::MAX,
    ensures
        match s.hit_window(window_id, x, y) {
            Some(hit) => is_hit_of(s, hit, window_id, x as int, y as int),
            None => !lies_on(s, window_id, x as int, y as int),
        },
{
    if s.windows.contains_key(window_id) {
        let owner = s.windows[window_id];
        assert(s.window_ids.contains_key(owner));
        assert(s.has_toplevel(owner));
        let client = s.clients[owner.client_id];
        assert(client.is_sound());
        let toplevel = s.toplevel(owner);
        if client.surfaces.contains_key(toplevel.surface_id)
            && client.surfaces[toplevel.surface_id].current_buffer is Some {
            let buffer_id = (client.surfaces[toplevel.surface_id].current_buffer->0).buffer_id;
            assert(client.buffers.contains_key(buffer_id));
        }
    }
}

/// Whether all toplevels are as they were.
pub open spec fn toplevels_stay(a: ServerModel, b: ServerModel) -> bool {
    forall|o: WindowOwner| #[trigger]
        b.has_toplevel(o) == a.has_toplevel(o) && (a.has_toplevel(o) ==> b.toplevel(o)
            == a.toplevel(o))
}

/// The window of something hit.
proof fn lemma_window_of_hit(s: ServerModel, x: i32, y: i32) -> (window_id: WindowId)
    requires
        s.is_sound(),
        s.hit(x, y) is Some,
    ensures
        s.window_of_surface((s.hit(x, y)->0).client_id, (s.hit(x, y)->0).surface_id) == Some(
            window_id,
        ),
        s.z_order.contains(window_id),
        s.is_focusable(window_id),
        s.windows[window_id].client_id == (s.hit(x, y)->0).client_id,
        s.toplevel(s.windows[window_id]).surface_id == (s.hit(x, y)->0).surface_id,
{
    promises::law_hit_is_topmost(s, x, y);
    let hit = s.hit(x, y)->0;
    let i = choose|i: int|
        0 <= i < s.z_order.len() && s.is_focusable(#[trigger] s.z_order[i]) && s.hit_window(
            s.z_order[i],
            x,
            y,
        ) == Some(hit) && forall|j: int|
            i < j < s.z_order.len() ==> s.hit_window(#[trigger] s.z_order[j], x, y) is None;
    let window_id = s.z_order[i];
    let owner = s.windows[window_id];
    assert(s.windows.contains_key(window_id));
    assert(s.window_ids.contains_key(owner));
    assert(s.has_toplevel(owner));
    let client = s.clients[owner.client_id];
    assert(client.is_sound());
    assert(client.toplevels.contains_key(owner.toplevel_id));
    window_id
}

/// What a click comes to.
proof fn lemma_clicked(s: ServerModel, hit: HitResult, window_id: WindowId)
    requires
        s.window_of_surface(hit.client_id, hit.surface_id) == Some(window_id),
        s.z_order.contains(window_id),
        s.clients.dom().finite(),
    ensures
        only_shows(
            ServerModel {
                focus: Some((hit.client_id, hit.surface_id)),
                z_order: focus::lifted(s.z_order, window_id).0,
                ..s
            },
            s.clicked(hit),
        ),
        is_up_to_date(s) && !s.deferred ==> is_up_to_date(s.clicked(hit)),
{
    reveal(ServerModel::clicked);
    broadcast use telling::group_shows;

    let target = Some((hit.client_id, hit.surface_id));
    let moved = s.focused(target);
    telling::lemma_focused(s, target);
    telling::lemma_all_told(ServerModel { focus: target, ..s }, moved);
    assert(moved.window_of_surface(hit.client_id, hit.surface_id) == Some(window_id)) by {
        assert(s.clients.contains_key(hit.client_id));
        assert(moved.clients.dom().contains(hit.client_id));
    }
    telling::lemma_raised(moved, window_id);
    let (lifted, raised) = moved.raised(window_id);
    let order = focus::lifted(s.z_order, window_id).0;
    let meant = ServerModel { focus: target, z_order: order, ..s };
    assert(only_tells(meant, ServerModel { z_order: order, ..moved }));
    telling::lemma_tells_then(meant, ServerModel { z_order: order, ..moved }, lifted);
    let shown = if raised {
        lifted.changed(DamageModel::Full)
    } else {
        lifted
    };
    assert(only_shows(meant, lifted));
    assert(only_shows(lifted, shown));
    telling::lemma_shows_then(meant, lifted, shown);
    let after = s.clicked(hit);
    assert(only_shows(shown, after));
    telling::lemma_shows_then(meant, shown, after);
    if is_up_to_date(s) && !s.deferred {
        shells::lemma_is_lifted(s.z_order, window_id);
        if raised {
            promises::law_picture_is_of_the_scene(lifted, DamageModel::Full);
        } else {
            telling::lemma_telling_keeps_picture(s, lifted);
        }
        telling::lemma_telling_keeps_picture(shown, after);
    }
}

/// A press on a window, outside the rows that a shell keeps, gives the window
/// the keyboard focus and the highest place. Windows stay where they are. The
/// picture follows at once, even where a shell had it wait.
pub proof fn law_press_focuses_what_it_hits(s: ServerModel, button: u32)
    requires
        s.is_sound(),
        s.hit(s.pointer_x, s.pointer_y) is Some,
        s.work_area_owner != Some((s.hit(s.pointer_x, s.pointer_y)->0).client_id) || s.pointer_y
            < s.work_area_height() as i32,
    ensures
        ({
            let hit = s.hit(s.pointer_x, s.pointer_y)->0;
            let (after, told) = s.button_changed(button, STATE_PRESSED);
            let window_id = s.window_of_surface(hit.client_id, hit.surface_id)->0;
            &&& told == Some(hit)
            &&& after.focus == Some((hit.client_id, hit.surface_id))
            &&& s.window_of_surface(hit.client_id, hit.surface_id) is Some
            &&& is_lifted(s.z_order, after.z_order, window_id)
            &&& after.is_focusable(window_id)
            &&& after.windows == s.windows
            &&& after.window_ids == s.window_ids
            &&& toplevels_stay(s, after)
            &&& after.drag == s.drag
            &&& after.command_owner is None
            &&& after.commit_owner is None
            &&& !s.deferred && s.frame.is_whole() && (s.commit_owner is Some || is_up_to_date(s))
                ==> is_up_to_date(after)
        }),
{
    broadcast use telling::group_shows;

    reveal(ServerModel::pressed);
    let hit = s.hit(s.pointer_x, s.pointer_y)->0;
    let window_id = lemma_window_of_hit(s, s.pointer_x, s.pointer_y);
    let serial = s.next_pointer_serial;
    let counted = ServerModel {
        next_pointer_serial: if serial == u32::MAX {
            1
        } else {
            (serial + 1) as u32
        },
        ..s
    };
    let idle = ServerModel { command_owner: None, commit_owner: None, ..counted };
    let awake = if s.commit_owner is Some {
        idle.changed(DamageModel::Full)
    } else {
        idle
    };
    assert(only_shows(idle, awake));
    telling::lemma_all_told(idle, awake);
    assert(awake.window_of_surface(hit.client_id, hit.surface_id) == Some(window_id)) by {
        assert(s.clients.contains_key(hit.client_id));
        assert(awake.clients.dom().contains(hit.client_id));
    }
    lemma_clicked(awake, hit, window_id);
    let clicked = awake.clicked(hit);
    let order = focus::lifted(s.z_order, window_id).0;
    let target = Some((hit.client_id, hit.surface_id));
    let meant = ServerModel { focus: target, z_order: order, ..idle };
    assert(only_shows(meant, ServerModel { focus: target, z_order: order, ..awake }));
    telling::lemma_shows_then(
        meant,
        ServerModel { focus: target, z_order: order, ..awake },
        clicked,
    );
    assert(clicked == counted.pressed(hit));
    assert(clicked.clients.dom().contains(hit.client_id)) by {
        assert(s.clients.contains_key(hit.client_id));
    }
    let after = s.button_changed(button, STATE_PRESSED).0;
    lemma_button_told(clicked, hit, serial, button, STATE_PRESSED);
    telling::lemma_all_told(meant, clicked);
    telling::lemma_all_told(clicked, after);
    shells::lemma_is_lifted(s.z_order, window_id);
    assert forall|o: WindowOwner| #[trigger]
        after.has_toplevel(o) == s.has_toplevel(o) && (s.has_toplevel(o) ==> after.toplevel(o)
            == s.toplevel(o)) by {
        assert(clicked.has_toplevel(o) == meant.has_toplevel(o));
        assert(meant.has_toplevel(o) == s.has_toplevel(o));
    }
    assert(meant.is_focusable(window_id) == s.is_focusable(window_id));
    assert(clicked.is_focusable(window_id) == meant.is_focusable(window_id));
    if !s.deferred && s.frame.is_whole() && (s.commit_owner is Some || is_up_to_date(s)) {
        if s.commit_owner is Some {
            promises::law_picture_is_of_the_scene(idle, DamageModel::Full);
        } else {
            telling::lemma_telling_keeps_picture(s, idle);
        }
        telling::lemma_telling_keeps_picture(clicked, after);
    }
}

proof fn lemma_button_told(s: ServerModel, hit: HitResult, serial: u32, button: u32, state: u32)
    requires
        s.clients.contains_key(hit.client_id),
    ensures
        only_tells(s, s.button_told(hit, serial, button, state).0),
        s.button_told(hit, serial, button, state).1 == Some(hit),
{
    broadcast use crate::client::model::lemma_emit_frame;

    let client = s.clients[hit.client_id];
    if let Some(device) = client.pointer_id {
        let payload = events::pointer_button_payload(
            serial,
            hit.surface_id,
            hit.local_x,
            hit.local_y,
            button,
            state,
        );
        telling::lemma_with_told_client(s, hit.client_id, client.emit(device, 2, payload));
    } else {
        assert(only_tells(s, s));
    }
}

/// A press in the rows that the hit shell keeps moves nothing: it is a command
/// to the shell, whose next request to focus a window may have the picture wait.
pub proof fn law_press_on_the_shell_moves_nothing(s: ServerModel, button: u32)
    requires
        s.is_sound(),
        s.hit(s.pointer_x, s.pointer_y) is Some,
        s.work_area_owner == Some((s.hit(s.pointer_x, s.pointer_y)->0).client_id),
        s.pointer_y >= s.work_area_height() as i32,
    ensures
        ({
            let hit = s.hit(s.pointer_x, s.pointer_y)->0;
            let (after, told) = s.button_changed(button, STATE_PRESSED);
            &&& told == Some(hit)
            &&& after.command_owner == Some(hit.client_id)
            &&& after.commit_owner == s.commit_owner
            &&& after.focus == s.focus
            &&& after.z_order == s.z_order
            &&& after.windows == s.windows
            &&& after.frame == s.frame
            &&& after.damage == s.damage
            &&& toplevels_stay(s, after)
        }),
{
    reveal(ServerModel::pressed);
    let hit = s.hit(s.pointer_x, s.pointer_y)->0;
    let window_id = lemma_window_of_hit(s, s.pointer_x, s.pointer_y);
    let serial = s.next_pointer_serial;
    let counted = ServerModel {
        next_pointer_serial: if serial == u32::MAX {
            1
        } else {
            (serial + 1) as u32
        },
        ..s
    };
    let marked = ServerModel { command_owner: Some(hit.client_id), ..counted };
    lemma_button_told(marked, hit, serial, button, STATE_PRESSED);
    telling::lemma_all_told(s, s.button_changed(button, STATE_PRESSED).0);
}

/// A button, pressed or let go, is told to the window that the pointer is on,
/// and to no other: the event names the window, where on it the pointer is, the
/// button and its state, and is numbered. A queue that has no room for it is
/// marked so.
pub proof fn law_button_is_told_to_what_it_hits(s: ServerModel, button: u32, state: u32)
    requires
        s.is_sound(),
        s.hit(s.pointer_x, s.pointer_y) is Some,
        state == STATE_PRESSED || s.drag is None,
    ensures
        ({
            let hit = s.hit(s.pointer_x, s.pointer_y)->0;
            let after = s.button_changed(button, state).0;
            let before = s.clients[hit.client_id];
            let client = after.clients[hit.client_id];
            let m = client.events.last();
            &&& s.clients.contains_key(hit.client_id)
            &&& before.pointer_id is Some && before.is_object(
                before.pointer_id->0,
                Interface::Pointer,
            ) && !client.overflowed ==> {
                &&& client.events.len() > 0
                &&& wire::header_fault(m) is None
                &&& wire::header_at(m).object_id == before.pointer_id->0
                &&& wire::header_at(m).opcode == 2
                &&& m.len() == HEADER_SIZE + 24
                &&& word(m, 0) == s.next_pointer_serial
                &&& word(m, 1) == hit.surface_id.0
                &&& word(m, 2) == hit.local_x as u32
                &&& word(m, 3) == hit.local_y as u32
                &&& word(m, 4) == button
                &&& word(m, 5) == state
            }
            &&& after.next_pointer_serial != 0
            &&& s.next_pointer_serial < u32::MAX ==> after.next_pointer_serial
                == s.next_pointer_serial + 1
        }),
{
    let hit = s.hit(s.pointer_x, s.pointer_y)->0;
    let window_id = lemma_window_of_hit(s, s.pointer_x, s.pointer_y);
    let serial = s.next_pointer_serial;
    let counted = ServerModel {
        next_pointer_serial: if serial == u32::MAX {
            1
        } else {
            (serial + 1) as u32
        },
        ..s
    };
    let acted = if state == STATE_PRESSED {
        counted.pressed(hit)
    } else {
        counted
    };
    if state == STATE_PRESSED {
        lemma_pressed_tells(counted, hit);
    }
    let client = acted.clients[hit.client_id];
    if client.pointer_id is Some && client.is_object(client.pointer_id->0, Interface::Pointer) {
        let device = client.pointer_id->0;
        let payload = events::pointer_button_payload(
            serial,
            hit.surface_id,
            hit.local_x,
            hit.local_y,
            button,
            state,
        );
        let words = seq![
            serial,
            hit.surface_id.0,
            hit.local_x as u32,
            hit.local_y as u32,
            button,
            state,
        ];
        assert(payload =~= joined_words(words)) by {
            reveal_with_fuel(joined_words, 7);
            let w5 = words.drop_last();
            let w4 = w5.drop_last();
            let w3 = w4.drop_last();
            let w2 = w3.drop_last();
            let w1 = w2.drop_last();
            assert(w1.drop_last() =~= Seq::<u32>::empty());
            assert(w5.len() == 5 && w4.len() == 4 && w3.len() == 3 && w2.len() == 2 && w1.len()
                == 1);
            assert(words.last() == state && w5.last() == button && w4.last() == hit.local_y as u32
                && w3.last() == hit.local_x as u32 && w2.last() == hit.surface_id.0 && w1.last()
                == serial);
        }
        lemma_joined_words(words, 0);
        if !client.emit(device, 2, payload).overflowed {
            lemma_emitted_unless_full(client, device, 2, payload);
            lemma_words(device, 2, words, 0);
            lemma_words(device, 2, words, 1);
            lemma_words(device, 2, words, 2);
            lemma_words(device, 2, words, 3);
            lemma_words(device, 2, words, 4);
            lemma_words(device, 2, words, 5);
        }
    }
}

/// A press changes of a connection only what it is told.
proof fn lemma_pressed_tells(s: ServerModel, hit: HitResult)
    ensures
        telling::all_told(s.clients, s.pressed(hit).clients),
        s.pressed(hit).next_pointer_serial == s.next_pointer_serial,
{
    reveal(ServerModel::pressed);
    reveal(ServerModel::clicked);
    broadcast use telling::group_shows;

    if !s.is_command(hit) {
        let target = Some((hit.client_id, hit.surface_id));
        let idle = ServerModel { command_owner: None, commit_owner: None, ..s };
        let awake = if s.commit_owner is Some {
            idle.changed(DamageModel::Full)
        } else {
            idle
        };
        assert(only_shows(idle, awake));
        let moved = awake.focused(target);
        telling::lemma_focused(awake, target);
        lemma_told_then(s, awake, moved);
        if let Some(window_id) = moved.window_of_surface(hit.client_id, hit.surface_id) {
            telling::lemma_raised(moved, window_id);
            let (lifted, raised) = moved.raised(window_id);
            lemma_told_then(s, moved, lifted);
            let shown = if raised {
                lifted.changed(DamageModel::Full)
            } else {
                lifted
            };
            assert(only_shows(lifted, shown));
            lemma_told_then(s, lifted, shown);
            let after = awake.clicked(hit);
            assert(only_shows(shown, after));
            lemma_told_then(s, shown, after);
        }
    }
}

pub(crate) proof fn lemma_told_then(a: ServerModel, b: ServerModel, c: ServerModel)
    requires
        telling::all_told(a.clients, b.clients),
        telling::all_told(b.clients, c.clients),
    ensures
        telling::all_told(a.clients, c.clients),
{
    assert forall|id: ClientId| #[trigger] a.clients.contains_key(id) implies is_told(
        a.clients[id],
        c.clients[id],
    ) by {
        assert(b.clients.dom().contains(id));
        assert(b.clients.contains_key(id));
    }
}

/// A pointer that moves, while nothing is dragged, is told to the window that it
/// is on: the event names the window and where on it the pointer is. Nothing
/// else changes but where the pointer is.
pub proof fn law_motion_is_told_to_what_it_hits(s: ServerModel, x: i32, y: i32)
    requires
        s.is_sound(),
        s.drag is None,
    ensures
        ({
            let (after, told) = s.pointer_moved(x, y);
            &&& after.pointer_x == x
            &&& after.pointer_y == y
            &&& after == (ServerModel {
                pointer_x: x,
                pointer_y: y,
                clients: after.clients,
                ..s
            })
            &&& told == s.hit(x, y)
            &&& s.hit(x, y) is None ==> after.clients == s.clients
            &&& s.hit(x, y) is Some ==> {
                let hit = s.hit(x, y)->0;
                let before = s.clients[hit.client_id];
                let client = after.clients[hit.client_id];
                let m = client.events.last();
                &&& is_told(before, client)
                &&& forall|id: ClientId|
                    id != hit.client_id && s.clients.contains_key(id)
                        ==> #[trigger] after.clients[id] == s.clients[id]
                &&& before.pointer_id is Some && before.is_object(
                    before.pointer_id->0,
                    Interface::Pointer,
                ) && !client.overflowed ==> {
                    &&& is_queued(before, client, before.pointer_id->0, 1, 12)
                    &&& word(m, 0) == hit.surface_id.0
                    &&& word(m, 1) == hit.local_x as u32
                    &&& word(m, 2) == hit.local_y as u32
                }
            }
        }),
{
    broadcast use crate::client::model::lemma_emit_frame;

    let moved = ServerModel { pointer_x: x, pointer_y: y, ..s };
    lemma_hit_of_moved(s, moved, s.z_order, x, y);
    if s.hit(x, y) is Some {
        let hit = s.hit(x, y)->0;
        let window_id = lemma_window_of_hit(s, x, y);
        let client = s.clients[hit.client_id];
        if client.pointer_id is Some && client.is_object(
            client.pointer_id->0,
            Interface::Pointer,
        ) {
            let device = client.pointer_id->0;
            let payload = events::pointer_motion_payload(
                hit.surface_id,
                hit.local_x,
                hit.local_y,
            );
            let words = seq![hit.surface_id.0, hit.local_x as u32, hit.local_y as u32];
            assert(payload =~= joined_words(words)) by {
                reveal_with_fuel(joined_words, 4);
                let w2 = words.drop_last();
                let w1 = w2.drop_last();
                assert(w1.drop_last() =~= Seq::<u32>::empty());
                assert(words.last() == hit.local_y as u32 && w2.last() == hit.local_x as u32
                    && w1.last() == hit.surface_id.0);
            }
            lemma_joined_words(words, 0);
            if !client.emit(device, 1, payload).overflowed {
                lemma_emitted_unless_full(client, device, 1, payload);
                lemma_words(device, 1, words, 0);
                lemma_words(device, 1, words, 1);
                lemma_words(device, 1, words, 2);
            }
        }
    }
}

/// What lies under a point does not depend on where the pointer is.
proof fn lemma_hit_of_moved(a: ServerModel, b: ServerModel, order: Seq<WindowId>, x: i32, y: i32)
    requires
        a.windows == b.windows,
        a.clients == b.clients,
    ensures
        a.hit_among(order, x, y) == b.hit_among(order, x, y),
    decreases order.len(),
{
    if order.len() > 0 {
        lemma_hit_of_moved(a, b, order.drop_last(), x, y);
        assert(a.is_focusable(order.last()) == b.is_focusable(order.last()));
    }
}


// The close shortcut.

/// Alt and F4, pressed while an ordinary window has the focus, ask the shell
/// that keeps the work area to close that window, if it knows the request. The
/// window itself is not told of the key. Nobody else is told anything.
pub proof fn law_close_shortcut_reaches_the_shell(
    s: ServerModel,
    shell: ClientId,
    window_id: WindowId,
)
    requires
        s.alt_mask != 0,
        !s.f4_down,
        s.focus is Some,
        s.window_of_surface((s.focus->0).0, (s.focus->0).1) == Some(window_id),
        s.is_focusable(window_id),
        !s.is_shell((s.focus->0).0),
        s.work_area_owner == Some(shell),
        s.is_shell(shell),
        s.clients[shell].shell_manager_id is Some,
        s.clients[shell].shell_manager_version is Some,
        s.clients[shell].shell_manager_version->0 >= 2,
        s.clients[shell].is_object(
            s.clients[shell].shell_manager_id->0,
            Interface::ShellManager,
        ),
        !s.clients[shell].overflowed,
        s.clients[shell].has_room(1, 14),
    ensures
        ({
            let (after, told) = s.key_changed(KEY_F4, STATE_PRESSED);
            let before = s.clients[shell];
            let client = after.clients[shell];
            let m = client.events.last();
            &&& told == s.focus
            &&& after.focus == s.focus
            &&& is_queued(before, client, before.shell_manager_id->0, 9, 4)
            &&& word(m, 0) == window_id.0
            &&& forall|id: ClientId|
                id != shell && s.clients.contains_key(id) ==> #[trigger] after.clients[id]
                    == s.clients[id]
            &&& after.f4_down
            &&& after.f4_consumed
        }),
{
    let c = s.clients[shell];
    let manager = c.shell_manager_id->0;
    let payload = events::window_word_payload(window_id.0);
    let words = seq![window_id.0];
    assert(payload =~= joined_words(words)) by {
        reveal_with_fuel(joined_words, 2);
        assert(words.drop_last() =~= Seq::<u32>::empty());
    }
    lemma_joined_words(words, 0);
    lemma_shortcut_is_not_overtaken(c.events, manager, payload, 0);
    assert(c.emit_fault(manager, 9, payload) is None);
    reveal(ClientModel::emit);
    let header = wire::MessageHeader {
        object_id: manager,
        opcode: 9,
        length: (HEADER_SIZE + payload.len()) as u16,
        fd_passing: 0,
    };
    wire::law_header_round_trip(header, payload);
    lemma_words(manager, 9, words, 0);
    let after = c.emit(manager, 9, payload);
    assert(after.events.drop_last() =~= c.events);
    let held = ServerModel { f4_down: true, ..s };
    assert(held.is_focusable(window_id));
    assert(held.closable() == Some(window_id));
    assert(held.shortcut_shell() == Some((shell, manager)));
}

proof fn lemma_shortcut_is_not_overtaken(
    queued: Seq<Seq<u8>>,
    manager: ObjectId,
    payload: Seq<u8>,
    from: nat,
)
    ensures
        model::superseded(queued, Interface::ShellManager, manager, 9, payload, from) is None,
    decreases queued.len() - from,
{
    if from < queued.len() {
        lemma_shortcut_is_not_overtaken(queued, manager, payload, from + 1);
    }
}

/// Without Alt, F4 is a key like any other: the focused window is told of it.
pub proof fn law_plain_f4_is_a_key(s: ServerModel, state: u32)
    requires
        s.alt_mask == 0,
        !s.f4_consumed,
        s.layout == KeyboardLayout::UsQwerty,
        s.focus is Some,
        s.clients.contains_key((s.focus->0).0),
        s.clients[(s.focus->0).0].keyboard_id is Some,
        s.clients[(s.focus->0).0].is_object(
            s.clients[(s.focus->0).0].keyboard_id->0,
            Interface::Keyboard,
        ),
        has_room(
            s.clients[(s.focus->0).0],
            s.clients[(s.focus->0).0].keyboard_id->0,
            1,
            12,
        ),
    ensures
        ({
            let (client_id, surface_id) = s.focus->0;
            let before = s.clients[client_id];
            let (after, told) = s.key_changed(KEY_F4, state);
            let m = after.clients[client_id].events.last();
            &&& told == s.focus
            &&& is_queued(before, after.clients[client_id], before.keyboard_id->0, 1, 12)
            &&& word(m, 0) == surface_id.0
            &&& word(m, 1) == KEY_F4
            &&& word(m, 2) == state
        }),
{
    let (client_id, surface_id) = s.focus->0;
    let before = s.clients[client_id];
    let device = before.keyboard_id->0;
    let words = seq![surface_id.0, KEY_F4, state];
    let payload = events::keyboard_key_payload(surface_id, KEY_F4, state);
    assert(payload =~= joined_words(words)) by {
        reveal_with_fuel(joined_words, 4);
        let w2 = words.drop_last();
        let w1 = w2.drop_last();
        assert(w1.drop_last() =~= Seq::<u32>::empty());
        assert(words.last() == state && w2.last() == KEY_F4 && w1.last() == surface_id.0);
    }
    lemma_joined_words(words, 0);
    assert(before.emit_fault(device, 1, payload) is None);
    lemma_emitted(before, device, 1, payload);
    lemma_words(device, 1, words, 0);
    lemma_words(device, 1, words, 1);
    lemma_words(device, 1, words, 2);
}

} // verus!
