//! Events of the pointer and keyboard devices.

use vstd::prelude::*;

use crate::bytes;
use crate::bytes::{read_i32, read_u32};
use crate::server::model::ServerModel;
use crate::server::Server;

verus! {

/// Bytes of a pointer event.
pub const MOUSE_EVENT_SIZE: usize = 20;

/// Bytes of a keyboard event.
pub const KBD_EVENT_SIZE: usize = 8;

/// Kinds of pointer events.
pub const MOUSE_MOTION: u32 = 0;

pub const MOUSE_BUTTON: u32 = 1;

pub const MOUSE_WHEEL: u32 = 2;

/// States of a button or a key.
pub const RELEASED: u32 = 0;

pub const PRESSED: u32 = 1;

#[derive(Copy, Clone, Debug, PartialEq, Eq, Structural)]
pub enum DecodedMouseEvent {
    Motion { x: i32, y: i32 },
    Button { x: i32, y: i32, button: u32, state: u32 },
    Wheel { x: i32, y: i32, delta_x: i32, delta_y: i32 },
}

#[derive(Copy, Clone, Debug, PartialEq, Eq, Structural)]
pub struct DecodedKbdEvent {
    pub key: u32,
    pub state: u32,
}

/// The signed integer stored at `at`, low byte first.
pub open spec fn signed_at(bytes: Seq<u8>, at: int) -> i32 {
    bytes::le32_at(bytes, at) as i32
}

/// The pointer event that is stored at `at`: its kind, the position, and two
/// words that depend on the kind.
pub open spec fn mouse_event_at(bytes: Seq<u8>, at: int) -> Option<DecodedMouseEvent> {
    let kind = bytes::le32_at(bytes, at);
    let x = signed_at(bytes, at + 4);
    let y = signed_at(bytes, at + 8);
    let state = bytes::le32_at(bytes, at + 16);
    if at + MOUSE_EVENT_SIZE > bytes.len() {
        None
    } else if kind == MOUSE_MOTION {
        Some(DecodedMouseEvent::Motion { x, y })
    } else if kind == MOUSE_BUTTON && (state == RELEASED || state == PRESSED) {
        Some(
            DecodedMouseEvent::Button { x, y, button: bytes::le32_at(bytes, at + 12), state },
        )
    } else if kind == MOUSE_WHEEL {
        Some(
            DecodedMouseEvent::Wheel {
                x,
                y,
                delta_x: signed_at(bytes, at + 12),
                delta_y: signed_at(bytes, at + 16),
            },
        )
    } else {
        None
    }
}

/// The keyboard event that is stored at `at`: the key, then its state.
pub open spec fn kbd_event_at(bytes: Seq<u8>, at: int) -> Option<DecodedKbdEvent> {
    let state = bytes::le32_at(bytes, at + 4);
    if at + KBD_EVENT_SIZE > bytes.len() || (state != RELEASED && state != PRESSED) {
        None
    } else {
        Some(DecodedKbdEvent { key: bytes::le32_at(bytes, at), state })
    }
}

fn mouse_event(bytes: &[u8], at: usize) -> (r: Option<DecodedMouseEvent>)
    requires
        at + MOUSE_EVENT_SIZE <= bytes@.len(),
    ensures
        r == mouse_event_at(bytes@, at as int),
{
    assert(at + MOUSE_EVENT_SIZE <= bytes.len());
    let kind: u32 = read_u32(bytes, at);
    let x: i32 = read_i32(bytes, at + 4);
    let y: i32 = read_i32(bytes, at + 8);
    if kind == MOUSE_MOTION {
        return Some(DecodedMouseEvent::Motion { x, y });
    }
    if kind == MOUSE_BUTTON {
        let state: u32 = read_u32(bytes, at + 16);
        if state != RELEASED && state != PRESSED {
            return None;
        }
        return Some(DecodedMouseEvent::Button { x, y, button: read_u32(bytes, at + 12), state });
    }
    if kind == MOUSE_WHEEL {
        return Some(
            DecodedMouseEvent::Wheel {
                x,
                y,
                delta_x: read_i32(bytes, at + 12),
                delta_y: read_i32(bytes, at + 16),
            },
        );
    }
    None
}

fn kbd_event(bytes: &[u8], at: usize) -> (r: Option<DecodedKbdEvent>)
    requires
        at + KBD_EVENT_SIZE <= bytes@.len(),
    ensures
        r == kbd_event_at(bytes@, at as int),
{
    assert(at + KBD_EVENT_SIZE <= bytes.len());
    let state: u32 = read_u32(bytes, at + 4);
    if state != RELEASED && state != PRESSED {
        return None;
    }
    Some(DecodedKbdEvent { key: read_u32(bytes, at), state })
}

/// Reads the pointer event that `bytes` starts with, and gives its size.
pub fn decode_mouse_event(bytes: &[u8]) -> (r: Option<(DecodedMouseEvent, usize)>)
    ensures
        match r {
            Some((event, used)) => mouse_event_at(bytes@, 0) == Some(event) && used
                == MOUSE_EVENT_SIZE,
            None => mouse_event_at(bytes@, 0) is None,
        },
{
    if bytes.len() < MOUSE_EVENT_SIZE {
        return None;
    }
    match mouse_event(bytes, 0) {
        Some(event) => Some((event, MOUSE_EVENT_SIZE)),
        None => None,
    }
}

/// Reads the keyboard event that `bytes` starts with, and gives its size.
pub fn decode_kbd_event(bytes: &[u8]) -> (r: Option<(DecodedKbdEvent, usize)>)
    ensures
        match r {
            Some((event, used)) => kbd_event_at(bytes@, 0) == Some(event) && used
                == KBD_EVENT_SIZE,
            None => kbd_event_at(bytes@, 0) is None,
        },
{
    if bytes.len() < KBD_EVENT_SIZE {
        return None;
    }
    match kbd_event(bytes, 0) {
        Some(event) => Some((event, KBD_EVENT_SIZE)),
        None => None,
    }
}

/// A server that is told of pointer events, and how far it has come.
#[verifier::ext_equal]
pub struct MouseDrain {
    pub server: ServerModel,
    /// The last position that nothing has been told of yet.
    pub motion: Option<(i32, i32)>,
    pub count: nat,
}

impl MouseDrain {
    /// After a motion that was kept back has been passed on.
    pub open spec fn flushed(self) -> MouseDrain {
        match self.motion {
            Some((x, y)) => MouseDrain {
                server: self.server.pointer_moved(x, y).0,
                motion: None,
                ..self
            },
            None => self,
        }
    }

    /// After one event. Of motions in a row only the last counts; a button
    /// comes with its own position.
    pub open spec fn after(self, event: DecodedMouseEvent) -> MouseDrain {
        let counted = MouseDrain { count: self.count + 1, ..self };
        match event {
            DecodedMouseEvent::Motion { x, y } => MouseDrain { motion: Some((x, y)), ..counted },
            DecodedMouseEvent::Button { x, y, button, state } => MouseDrain {
                server: self.server.pointer_moved(x, y).0.button_changed(button, state).0,
                motion: None,
                ..counted
            },
            DecodedMouseEvent::Wheel { x, y, delta_x, delta_y } => counted.flushed(),
        }
    }

    /// After the events that are stored from `at` on, up to the first that is
    /// malformed or cut short.
    pub open spec fn after_all(self, bytes: Seq<u8>, at: int) -> MouseDrain
        decreases bytes.len() - at,
    {
        match mouse_event_at(bytes, at) {
            Some(event) => if at + MOUSE_EVENT_SIZE <= bytes.len() {
                self.after(event).after_all(bytes, at + MOUSE_EVENT_SIZE)
            } else {
                self
            },
            None => self,
        }
    }
}

/// A server told of the keyboard events that are stored from `at` on, up to
/// the first that is malformed or cut short, and their number.
pub open spec fn keys_drained(s: ServerModel, bytes: Seq<u8>, at: int, count: nat) -> (
    ServerModel,
    nat,
)
    decreases bytes.len() - at,
{
    match kbd_event_at(bytes, at) {
        Some(event) => if at + KBD_EVENT_SIZE <= bytes.len() {
            keys_drained(
                s.key_changed(event.key, event.state).0,
                bytes,
                at + KBD_EVENT_SIZE,
                count + 1,
            )
        } else {
            (s, count)
        },
        None => (s, count),
    }
}

/// Passes pointer events on to the server. Gives their number.
pub fn drain_mouse_events_into(bytes: &[u8], server: &mut Server) -> (count: usize)
    ensures
        ({
            let after = MouseDrain { server: old(server)@, motion: None, count: 0 }.after_all(
                bytes@,
                0,
            ).flushed();
            final(server)@ == after.server && count == after.count
        }),
{
    let mut at: usize = 0;
    let mut count: usize = 0;
    let mut motion: Option<(i32, i32)> = None;
    let ghost start = MouseDrain { server: server@, motion: None, count: 0 };
    while bytes.len() - at >= MOUSE_EVENT_SIZE
        invariant_except_break
            start.after_all(bytes@, 0) == (MouseDrain {
                server: server@,
                motion,
                count: count as nat,
            }).after_all(bytes@, at as int),
        invariant
            at <= bytes@.len(),
            count <= at,
        ensures
            start.after_all(bytes@, 0) == (MouseDrain {
                server: server@,
                motion,
                count: count as nat,
            }),
        decreases bytes@.len() - at,
    {
        let event = match mouse_event(bytes, at) {
            Some(event) => event,
            None => {
                break;
            },
        };
        match event {
            DecodedMouseEvent::Motion { x, y } => {
                motion = Some((x, y));
            },
            DecodedMouseEvent::Button { x, y, button, state } => {
                motion = None;
                let _ = server.inject_pointer_motion(x, y);
                let _ = server.inject_pointer_button(button, state);
            },
            DecodedMouseEvent::Wheel { x, y, delta_x, delta_y } => {
                if let Some((kept_x, kept_y)) = motion {
                    motion = None;
                    let _ = server.inject_pointer_motion(kept_x, kept_y);
                }
            },
        }
        assert(at + MOUSE_EVENT_SIZE <= bytes.len());
        at += MOUSE_EVENT_SIZE;
        count += 1;
    }
    if let Some((x, y)) = motion {
        let _ = server.inject_pointer_motion(x, y);
    }
    count
}

/// Passes keyboard events on to the server. Gives their number.
pub fn drain_kbd_events_into(bytes: &[u8], server: &mut Server) -> (count: usize)
    ensures
        (final(server)@, count as nat) == keys_drained(old(server)@, bytes@, 0, 0),
{
    let mut at: usize = 0;
    let mut count: usize = 0;
    while bytes.len() - at >= KBD_EVENT_SIZE
        invariant_except_break
            keys_drained(old(server)@, bytes@, 0, 0) == keys_drained(
                server@,
                bytes@,
                at as int,
                count as nat,
            ),
        invariant
            at <= bytes@.len(),
            count <= at,
        ensures
            keys_drained(old(server)@, bytes@, 0, 0) == (server@, count as nat),
        decreases bytes@.len() - at,
    {
        let event = match kbd_event(bytes, at) {
            Some(event) => event,
            None => {
                break;
            },
        };
        let _ = server.inject_keyboard_key(event.key, event.state);
        assert(at + KBD_EVENT_SIZE <= bytes.len());
        at += KBD_EVENT_SIZE;
        count += 1;
    }
    count
}


/// The words of an event, one after the other.
pub open spec fn words_of(a: u32, b: u32, c: u32, d: u32, e: u32) -> Seq<u8> {
    bytes::le32(a) + bytes::le32(b) + bytes::le32(c) + bytes::le32(d) + bytes::le32(e)
}

/// A pointer event is read from five words: the kind, where the pointer is, and
/// the button with its state, or how far the wheel was turned each way. Whatever
/// follows them does not matter.
pub proof fn law_pointer_event_is_read_back(x: i32, y: i32, d: u32, e: u32, rest: Seq<u8>)
    ensures
        mouse_event_at(words_of(MOUSE_MOTION, x as u32, y as u32, d, e) + rest, 0) == Some(
            DecodedMouseEvent::Motion { x, y },
        ),
        e == PRESSED || e == RELEASED ==> mouse_event_at(
            words_of(MOUSE_BUTTON, x as u32, y as u32, d, e) + rest,
            0,
        ) == Some(DecodedMouseEvent::Button { x, y, button: d, state: e }),
        e != PRESSED && e != RELEASED ==> mouse_event_at(
            words_of(MOUSE_BUTTON, x as u32, y as u32, d, e) + rest,
            0,
        ) is None,
        mouse_event_at(words_of(MOUSE_WHEEL, x as u32, y as u32, d, e) + rest, 0) == Some(
            DecodedMouseEvent::Wheel { x, y, delta_x: d as i32, delta_y: e as i32 },
        ),
{
    lemma_five_words(MOUSE_MOTION, x as u32, y as u32, d, e, rest);
    lemma_five_words(MOUSE_BUTTON, x as u32, y as u32, d, e, rest);
    lemma_five_words(MOUSE_WHEEL, x as u32, y as u32, d, e, rest);
    assert((x as u32) as i32 == x) by (bit_vector);
    assert((y as u32) as i32 == y) by (bit_vector);
}

proof fn lemma_five_words(a: u32, b: u32, c: u32, d: u32, e: u32, rest: Seq<u8>)
    ensures
        ({
            let all = words_of(a, b, c, d, e) + rest;
            &&& all.len() >= 20
            &&& bytes::le32_at(all, 0) == a
            &&& bytes::le32_at(all, 4) == b
            &&& bytes::le32_at(all, 8) == c
            &&& bytes::le32_at(all, 12) == d
            &&& bytes::le32_at(all, 16) == e
        }),
{
    let all = words_of(a, b, c, d, e) + rest;
    lemma_word_at(all, 0, a);
    lemma_word_at(all, 4, b);
    lemma_word_at(all, 8, c);
    lemma_word_at(all, 12, d);
    lemma_word_at(all, 16, e);
}

proof fn lemma_word_at(all: Seq<u8>, at: int, value: u32)
    requires
        0 <= at,
        at + 4 <= all.len(),
        all[at] == bytes::le32(value)[0],
        all[at + 1] == bytes::le32(value)[1],
        all[at + 2] == bytes::le32(value)[2],
        all[at + 3] == bytes::le32(value)[3],
    ensures
        bytes::le32_at(all, at) == value,
{
    bytes::law_le32_round_trip(value, 0);
}

/// A keyboard event is read from two words: the key and its state.
pub proof fn law_keyboard_event_is_read_back(key: u32, state: u32, rest: Seq<u8>)
    ensures
        state == PRESSED || state == RELEASED ==> kbd_event_at(
            bytes::le32(key) + bytes::le32(state) + rest,
            0,
        ) == Some(DecodedKbdEvent { key, state }),
        state != PRESSED && state != RELEASED ==> kbd_event_at(
            bytes::le32(key) + bytes::le32(state) + rest,
            0,
        ) is None,
{
    let all = bytes::le32(key) + bytes::le32(state) + rest;
    lemma_word_at(all, 0, key);
    lemma_word_at(all, 4, state);
}

/// Once all is passed on, the pointer is where the last event that moved it or
/// came with a button says. A motion that another follows is passed over; one
/// that a button follows too, for a button brings its own position.
pub proof fn law_last_position_counts(d: MouseDrain, first: DecodedMouseEvent, x: i32, y: i32)
    requires
        first is Motion,
    ensures
        ({
            let after = d.after(first).after(DecodedMouseEvent::Motion { x, y });
            &&& after.server == d.server
            &&& after.count == d.count + 2
            &&& after.flushed().server == d.server.pointer_moved(x, y).0
        }),
        forall|button: u32, state: u32|
            #[trigger] d.after(first).after(
                DecodedMouseEvent::Button { x, y, button, state },
            ).server == d.after(DecodedMouseEvent::Button { x, y, button, state }).server,
        d.after(DecodedMouseEvent::Motion { x, y }).flushed().server.pointer_x == x,
        d.after(DecodedMouseEvent::Motion { x, y }).flushed().server.pointer_y == y,
{
    reveal(ServerModel::drag_advanced);
    broadcast use crate::server::telling::group_shows;

}

} // verus!
