//! Keymaps: what each key means under a layout.
//!
//! A keymap comes as a compact image:
//!
//! ```text
//! offset  size  field
//!      0     4  magic: "PMKM"
//!      4     2  version, little-endian, 1
//!      6     2  number of entries, little-endian
//!      8     -  entries of eleven bytes each
//!
//! offset  size  field of an entry
//!      0     1  scancode
//!      1     4  codepoint without shift, little-endian; zero for none
//!      5     4  codepoint with shift, little-endian; zero for none
//!      9     2  modifier mask, little-endian
//! ```

use vstd::prelude::*;

use crate::bytes;
use crate::bytes::{read_u16, read_u32};
use crate::layout::KeyboardLayout;
use crate::ordered::{OrderedMap, SortKey};

verus! {

/// The version of the image format that is understood.
pub const SUPPORTED_VERSION: u16 = 1;

/// Bytes of an image before its entries.
pub const HEADER_BYTES: usize = 8;

/// Bytes of an entry.
pub const ENTRY_SIZE: usize = 11;

/// The first four bytes of every image.
pub open spec fn magic() -> Seq<u8> {
    seq![0x50u8, 0x4du8, 0x4bu8, 0x4du8]
}

/// Why an image is not a keymap.
#[derive(Clone, Copy, Debug, PartialEq, Eq, Structural)]
pub enum KeymapError {
    WrongMagic,
    UnsupportedVersion,
    Truncated,
    UnknownScancode(u8),
}

/// A key that keymaps know, by its place on the keyboard.
#[derive(Clone, Copy, Debug, PartialEq, Eq, Structural, PartialOrd, Ord)]
pub enum Scancode {
    KeyA,
    KeyB,
    KeyC,
    KeyD,
    KeyE,
    KeyF,
    KeyG,
    KeyH,
    KeyI,
    KeyJ,
    KeyK,
    KeyL,
    KeyM,
    KeyN,
    KeyO,
    KeyP,
    KeyQ,
    KeyR,
    KeyS,
    KeyT,
    KeyU,
    KeyV,
    KeyW,
    KeyX,
    KeyY,
    KeyZ,
    Digit1,
    Digit2,
    Digit3,
    Digit4,
    Digit5,
    Digit6,
    Digit7,
    Digit8,
    Digit9,
    Digit0,
    Enter,
    Backspace,
    Tab,
    Space,
    Minus,
    Equal,
    BracketLeft,
    BracketRight,
    Backslash,
    Semicolon,
    Quote,
    Backquote,
    Comma,
    Period,
    Slash,
    F4,
    ControlLeft,
    ShiftLeft,
    AltLeft,
    ControlRight,
    ShiftRight,
    AltRight,
}

impl Scancode {
    /// The key's number.
    pub open spec fn spec_code(self) -> u8 {
        match self {
            Scancode::KeyA => 0x04,
            Scancode::KeyB => 0x05,
            Scancode::KeyC => 0x06,
            Scancode::KeyD => 0x07,
            Scancode::KeyE => 0x08,
            Scancode::KeyF => 0x09,
            Scancode::KeyG => 0x0a,
            Scancode::KeyH => 0x0b,
            Scancode::KeyI => 0x0c,
            Scancode::KeyJ => 0x0d,
            Scancode::KeyK => 0x0e,
            Scancode::KeyL => 0x0f,
            Scancode::KeyM => 0x10,
            Scancode::KeyN => 0x11,
            Scancode::KeyO => 0x12,
            Scancode::KeyP => 0x13,
            Scancode::KeyQ => 0x14,
            Scancode::KeyR => 0x15,
            Scancode::KeyS => 0x16,
            Scancode::KeyT => 0x17,
            Scancode::KeyU => 0x18,
            Scancode::KeyV => 0x19,
            Scancode::KeyW => 0x1a,
            Scancode::KeyX => 0x1b,
            Scancode::KeyY => 0x1c,
            Scancode::KeyZ => 0x1d,
            Scancode::Digit1 => 0x1e,
            Scancode::Digit2 => 0x1f,
            Scancode::Digit3 => 0x20,
            Scancode::Digit4 => 0x21,
            Scancode::Digit5 => 0x22,
            Scancode::Digit6 => 0x23,
            Scancode::Digit7 => 0x24,
            Scancode::Digit8 => 0x25,
            Scancode::Digit9 => 0x26,
            Scancode::Digit0 => 0x27,
            Scancode::Enter => 0x28,
            Scancode::Backspace => 0x2a,
            Scancode::Tab => 0x2b,
            Scancode::Space => 0x2c,
            Scancode::Minus => 0x2d,
            Scancode::Equal => 0x2e,
            Scancode::BracketLeft => 0x2f,
            Scancode::BracketRight => 0x30,
            Scancode::Backslash => 0x31,
            Scancode::Semicolon => 0x33,
            Scancode::Quote => 0x34,
            Scancode::Backquote => 0x35,
            Scancode::Comma => 0x36,
            Scancode::Period => 0x37,
            Scancode::Slash => 0x38,
            Scancode::F4 => 0x3d,
            Scancode::ControlLeft => 0xe0,
            Scancode::ShiftLeft => 0xe1,
            Scancode::AltLeft => 0xe2,
            Scancode::ControlRight => 0xe4,
            Scancode::ShiftRight => 0xe5,
            Scancode::AltRight => 0xe6,
        }
    }

    /// The key's number.
    pub fn code(self) -> (code: u8)
        ensures
            code == self.spec_code(),
    {
        match self {
            Scancode::KeyA => 0x04,
            Scancode::KeyB => 0x05,
            Scancode::KeyC => 0x06,
            Scancode::KeyD => 0x07,
            Scancode::KeyE => 0x08,
            Scancode::KeyF => 0x09,
            Scancode::KeyG => 0x0a,
            Scancode::KeyH => 0x0b,
            Scancode::KeyI => 0x0c,
            Scancode::KeyJ => 0x0d,
            Scancode::KeyK => 0x0e,
            Scancode::KeyL => 0x0f,
            Scancode::KeyM => 0x10,
            Scancode::KeyN => 0x11,
            Scancode::KeyO => 0x12,
            Scancode::KeyP => 0x13,
            Scancode::KeyQ => 0x14,
            Scancode::KeyR => 0x15,
            Scancode::KeyS => 0x16,
            Scancode::KeyT => 0x17,
            Scancode::KeyU => 0x18,
            Scancode::KeyV => 0x19,
            Scancode::KeyW => 0x1a,
            Scancode::KeyX => 0x1b,
            Scancode::KeyY => 0x1c,
            Scancode::KeyZ => 0x1d,
            Scancode::Digit1 => 0x1e,
            Scancode::Digit2 => 0x1f,
            Scancode::Digit3 => 0x20,
            Scancode::Digit4 => 0x21,
            Scancode::Digit5 => 0x22,
            Scancode::Digit6 => 0x23,
            Scancode::Digit7 => 0x24,
            Scancode::Digit8 => 0x25,
            Scancode::Digit9 => 0x26,
            Scancode::Digit0 => 0x27,
            Scancode::Enter => 0x28,
            Scancode::Backspace => 0x2a,
            Scancode::Tab => 0x2b,
            Scancode::Space => 0x2c,
            Scancode::Minus => 0x2d,
            Scancode::Equal => 0x2e,
            Scancode::BracketLeft => 0x2f,
            Scancode::BracketRight => 0x30,
            Scancode::Backslash => 0x31,
            Scancode::Semicolon => 0x33,
            Scancode::Quote => 0x34,
            Scancode::Backquote => 0x35,
            Scancode::Comma => 0x36,
            Scancode::Period => 0x37,
            Scancode::Slash => 0x38,
            Scancode::F4 => 0x3d,
            Scancode::ControlLeft => 0xe0,
            Scancode::ShiftLeft => 0xe1,
            Scancode::AltLeft => 0xe2,
            Scancode::ControlRight => 0xe4,
            Scancode::ShiftRight => 0xe5,
            Scancode::AltRight => 0xe6,
        }
    }

    /// The key with the given number.
    pub open spec fn of_code(code: u8) -> Option<Scancode> {
        match code {
            0x04 => Some(Scancode::KeyA),
            0x05 => Some(Scancode::KeyB),
            0x06 => Some(Scancode::KeyC),
            0x07 => Some(Scancode::KeyD),
            0x08 => Some(Scancode::KeyE),
            0x09 => Some(Scancode::KeyF),
            0x0a => Some(Scancode::KeyG),
            0x0b => Some(Scancode::KeyH),
            0x0c => Some(Scancode::KeyI),
            0x0d => Some(Scancode::KeyJ),
            0x0e => Some(Scancode::KeyK),
            0x0f => Some(Scancode::KeyL),
            0x10 => Some(Scancode::KeyM),
            0x11 => Some(Scancode::KeyN),
            0x12 => Some(Scancode::KeyO),
            0x13 => Some(Scancode::KeyP),
            0x14 => Some(Scancode::KeyQ),
            0x15 => Some(Scancode::KeyR),
            0x16 => Some(Scancode::KeyS),
            0x17 => Some(Scancode::KeyT),
            0x18 => Some(Scancode::KeyU),
            0x19 => Some(Scancode::KeyV),
            0x1a => Some(Scancode::KeyW),
            0x1b => Some(Scancode::KeyX),
            0x1c => Some(Scancode::KeyY),
            0x1d => Some(Scancode::KeyZ),
            0x1e => Some(Scancode::Digit1),
            0x1f => Some(Scancode::Digit2),
            0x20 => Some(Scancode::Digit3),
            0x21 => Some(Scancode::Digit4),
            0x22 => Some(Scancode::Digit5),
            0x23 => Some(Scancode::Digit6),
            0x24 => Some(Scancode::Digit7),
            0x25 => Some(Scancode::Digit8),
            0x26 => Some(Scancode::Digit9),
            0x27 => Some(Scancode::Digit0),
            0x28 => Some(Scancode::Enter),
            0x2a => Some(Scancode::Backspace),
            0x2b => Some(Scancode::Tab),
            0x2c => Some(Scancode::Space),
            0x2d => Some(Scancode::Minus),
            0x2e => Some(Scancode::Equal),
            0x2f => Some(Scancode::BracketLeft),
            0x30 => Some(Scancode::BracketRight),
            0x31 => Some(Scancode::Backslash),
            0x33 => Some(Scancode::Semicolon),
            0x34 => Some(Scancode::Quote),
            0x35 => Some(Scancode::Backquote),
            0x36 => Some(Scancode::Comma),
            0x37 => Some(Scancode::Period),
            0x38 => Some(Scancode::Slash),
            0x3d => Some(Scancode::F4),
            0xe0 => Some(Scancode::ControlLeft),
            0xe1 => Some(Scancode::ShiftLeft),
            0xe2 => Some(Scancode::AltLeft),
            0xe4 => Some(Scancode::ControlRight),
            0xe5 => Some(Scancode::ShiftRight),
            0xe6 => Some(Scancode::AltRight),
            _ => None,
        }
    }

    /// The key with the given number.
    pub fn try_from(code: u8) -> (r: Result<Scancode, KeymapError>)
        ensures
            match r {
                Ok(key) => Scancode::of_code(code) == Some(key),
                Err(e) => Scancode::of_code(code) is None && e == KeymapError::UnknownScancode(
                    code,
                ),
            },
    {
        match code {
            0x04 => Ok(Scancode::KeyA),
            0x05 => Ok(Scancode::KeyB),
            0x06 => Ok(Scancode::KeyC),
            0x07 => Ok(Scancode::KeyD),
            0x08 => Ok(Scancode::KeyE),
            0x09 => Ok(Scancode::KeyF),
            0x0a => Ok(Scancode::KeyG),
            0x0b => Ok(Scancode::KeyH),
            0x0c => Ok(Scancode::KeyI),
            0x0d => Ok(Scancode::KeyJ),
            0x0e => Ok(Scancode::KeyK),
            0x0f => Ok(Scancode::KeyL),
            0x10 => Ok(Scancode::KeyM),
            0x11 => Ok(Scancode::KeyN),
            0x12 => Ok(Scancode::KeyO),
            0x13 => Ok(Scancode::KeyP),
            0x14 => Ok(Scancode::KeyQ),
            0x15 => Ok(Scancode::KeyR),
            0x16 => Ok(Scancode::KeyS),
            0x17 => Ok(Scancode::KeyT),
            0x18 => Ok(Scancode::KeyU),
            0x19 => Ok(Scancode::KeyV),
            0x1a => Ok(Scancode::KeyW),
            0x1b => Ok(Scancode::KeyX),
            0x1c => Ok(Scancode::KeyY),
            0x1d => Ok(Scancode::KeyZ),
            0x1e => Ok(Scancode::Digit1),
            0x1f => Ok(Scancode::Digit2),
            0x20 => Ok(Scancode::Digit3),
            0x21 => Ok(Scancode::Digit4),
            0x22 => Ok(Scancode::Digit5),
            0x23 => Ok(Scancode::Digit6),
            0x24 => Ok(Scancode::Digit7),
            0x25 => Ok(Scancode::Digit8),
            0x26 => Ok(Scancode::Digit9),
            0x27 => Ok(Scancode::Digit0),
            0x28 => Ok(Scancode::Enter),
            0x2a => Ok(Scancode::Backspace),
            0x2b => Ok(Scancode::Tab),
            0x2c => Ok(Scancode::Space),
            0x2d => Ok(Scancode::Minus),
            0x2e => Ok(Scancode::Equal),
            0x2f => Ok(Scancode::BracketLeft),
            0x30 => Ok(Scancode::BracketRight),
            0x31 => Ok(Scancode::Backslash),
            0x33 => Ok(Scancode::Semicolon),
            0x34 => Ok(Scancode::Quote),
            0x35 => Ok(Scancode::Backquote),
            0x36 => Ok(Scancode::Comma),
            0x37 => Ok(Scancode::Period),
            0x38 => Ok(Scancode::Slash),
            0x3d => Ok(Scancode::F4),
            0xe0 => Ok(Scancode::ControlLeft),
            0xe1 => Ok(Scancode::ShiftLeft),
            0xe2 => Ok(Scancode::AltLeft),
            0xe4 => Ok(Scancode::ControlRight),
            0xe5 => Ok(Scancode::ShiftRight),
            0xe6 => Ok(Scancode::AltRight),
            other => Err(KeymapError::UnknownScancode(other)),
        }
    }
}

/// A key's number names the key, and nothing else does.
pub proof fn law_scancode_round_trip(key: Scancode, code: u8)
    ensures
        Scancode::of_code(key.spec_code()) == Some(key),
        Scancode::of_code(code) == Some(key) <==> code == key.spec_code(),
{
}

impl SortKey for Scancode {
    open spec fn rank(self) -> nat {
        self.spec_code() as nat
    }

    proof fn rank_is_injective(a: Self, b: Self) {
        law_scancode_round_trip(a, 0);
        law_scancode_round_trip(b, 0);
    }

    fn precedes(self, other: Self) -> (r: bool) {
        self.code() < other.code()
    }
}

impl View for Scancode {
    type V = Scancode;

    open spec fn view(&self) -> Scancode {
        *self
    }
}

/// What a key means.
#[derive(Clone, Copy, Debug, PartialEq, Eq, Structural)]
pub struct KeymapEntry {
    pub codepoint_unshifted: u32,
    pub codepoint_shifted: u32,
    pub modifier_mask: u16,
}

impl View for KeymapEntry {
    type V = KeymapEntry;

    open spec fn view(&self) -> KeymapEntry {
        *self
    }
}

/// What every key means, and the other way round which key means what.
#[derive(Debug)]
pub struct Keymap {
    entries: OrderedMap<Scancode, KeymapEntry>,
    unshifted_scancodes: OrderedMap<u32, Scancode>,
    shifted_scancodes: OrderedMap<u32, Scancode>,
}

#[verifier::ext_equal]
pub struct KeymapModel {
    pub entries: Map<Scancode, KeymapEntry>,
    pub unshifted: Map<u32, Scancode>,
    pub shifted: Map<u32, Scancode>,
}

impl View for Keymap {
    type V = KeymapModel;

    closed spec fn view(&self) -> KeymapModel {
        KeymapModel {
            entries: self.entries@,
            unshifted: self.unshifted_scancodes@,
            shifted: self.shifted_scancodes@,
        }
    }
}

/// The entry with the given number in an image.
pub open spec fn entry_at(image: Seq<u8>, i: int) -> KeymapEntry {
    let at = HEADER_BYTES + i * ENTRY_SIZE;
    KeymapEntry {
        codepoint_unshifted: bytes::le32_at(image, at + 1),
        codepoint_shifted: bytes::le32_at(image, at + 5),
        modifier_mask: bytes::le16_at(image, at + 9),
    }
}

/// The key that the entry with the given number is about.
pub open spec fn key_at(image: Seq<u8>, i: int) -> Option<Scancode> {
    Scancode::of_code(image[HEADER_BYTES + i * ENTRY_SIZE])
}

/// The number of entries that an image declares.
pub open spec fn entry_count(image: Seq<u8>) -> nat {
    bytes::le16_at(image, 6) as nat
}

/// The first entry, from `from` on, that is about no known key.
pub open spec fn first_unknown(image: Seq<u8>, count: nat, from: nat) -> Option<KeymapError>
    decreases count - from,
{
    if from >= count {
        None
    } else if key_at(image, from as int) is None {
        Some(KeymapError::UnknownScancode(image[HEADER_BYTES + from * ENTRY_SIZE]))
    } else {
        first_unknown(image, count, from + 1)
    }
}

/// Why an image is not a keymap, if it is not.
pub open spec fn image_fault(image: Seq<u8>) -> Option<KeymapError> {
    if image.len() < 4 || image.subrange(0, 4) != magic() {
        Some(KeymapError::WrongMagic)
    } else if image.len() < 6 {
        Some(KeymapError::Truncated)
    } else if bytes::le16_at(image, 4) != SUPPORTED_VERSION {
        Some(KeymapError::UnsupportedVersion)
    } else if image.len() < 8 || image.len() < HEADER_BYTES + entry_count(image) * ENTRY_SIZE {
        Some(KeymapError::Truncated)
    } else {
        first_unknown(image, entry_count(image), 0)
    }
}

/// A map with a key added, unless it is there already.
pub open spec fn with_absent(
    map: Map<u32, Scancode>,
    codepoint: u32,
    key: Scancode,
) -> Map<u32, Scancode> {
    if codepoint == 0 || map.contains_key(codepoint) {
        map
    } else {
        map.insert(codepoint, key)
    }
}

/// The keymap that the first `n` entries of an image make: of several entries
/// about one key the last counts, and of several keys for one codepoint the
/// first.
pub open spec fn keymap_of(image: Seq<u8>, n: nat) -> KeymapModel
    decreases n,
{
    if n == 0 {
        KeymapModel { entries: Map::empty(), unshifted: Map::empty(), shifted: Map::empty() }
    } else {
        let before = keymap_of(image, (n - 1) as nat);
        let key = key_at(image, n - 1)->0;
        let entry = entry_at(image, n - 1);
        KeymapModel {
            entries: before.entries.insert(key, entry),
            unshifted: with_absent(before.unshifted, entry.codepoint_unshifted, key),
            shifted: with_absent(before.shifted, entry.codepoint_shifted, key),
        }
    }
}

/// Of several entries about one key the last one counts.
pub proof fn law_last_entry_of_a_key_counts(image: Seq<u8>, n: nat, i: int)
    requires
        0 <= i < n,
        forall|j: int| 0 <= j < n ==> (#[trigger] key_at(image, j)) is Some,
        forall|j: int| i < j < n ==> #[trigger] key_at(image, j) != key_at(image, i),
    ensures
        keymap_of(image, n).entries.contains_key(key_at(image, i)->0),
        keymap_of(image, n).entries[key_at(image, i)->0] == entry_at(image, i),
    decreases n,
{
    if i < n - 1 {
        law_last_entry_of_a_key_counts(image, (n - 1) as nat, i);
        assert(key_at(image, n - 1) is Some);
        assert(key_at(image, i) is Some);
        assert(key_at(image, n - 1) != key_at(image, i));
    }
}

/// Of several keys for one codepoint the first one counts, with and without
/// shift.
pub proof fn law_first_key_of_a_codepoint_counts(image: Seq<u8>, n: nat, i: int)
    requires
        0 <= i < n,
    ensures
        entry_at(image, i).codepoint_unshifted != 0 && (forall|j: int|
            0 <= j < i ==> (#[trigger] entry_at(image, j)).codepoint_unshifted != entry_at(
                image,
                i,
            ).codepoint_unshifted) ==> keymap_of(image, n).unshifted.contains_key(
            entry_at(image, i).codepoint_unshifted,
        ) && keymap_of(image, n).unshifted[entry_at(image, i).codepoint_unshifted] == key_at(
            image,
            i,
        )->0,
        entry_at(image, i).codepoint_shifted != 0 && (forall|j: int|
            0 <= j < i ==> (#[trigger] entry_at(image, j)).codepoint_shifted != entry_at(
                image,
                i,
            ).codepoint_shifted) ==> keymap_of(image, n).shifted.contains_key(
            entry_at(image, i).codepoint_shifted,
        ) && keymap_of(image, n).shifted[entry_at(image, i).codepoint_shifted] == key_at(
            image,
            i,
        )->0,
    decreases n,
{
    if i < n - 1 {
        law_first_key_of_a_codepoint_counts(image, (n - 1) as nat, i);
    } else {
        lemma_codepoints_come_from_entries(image, i as nat, entry_at(image, i).codepoint_unshifted);
        lemma_codepoints_come_from_entries(image, i as nat, entry_at(image, i).codepoint_shifted);
    }
}

/// A codepoint that is mapped occurs in an entry.
proof fn lemma_codepoints_come_from_entries(image: Seq<u8>, n: nat, codepoint: u32)
    ensures
        keymap_of(image, n).unshifted.contains_key(codepoint) ==> exists|j: int|
            0 <= j < n && (#[trigger] entry_at(image, j)).codepoint_unshifted == codepoint,
        keymap_of(image, n).shifted.contains_key(codepoint) ==> exists|j: int|
            0 <= j < n && (#[trigger] entry_at(image, j)).codepoint_shifted == codepoint,
    decreases n,
{
    if n > 0 {
        lemma_codepoints_come_from_entries(image, (n - 1) as nat, codepoint);
        assert(entry_at(image, n - 1) == entry_at(image, n - 1));
    }
}

impl KeymapModel {
    /// The key whose meaning under the logical layout is what the pressed key
    /// means under this one; the pressed key itself where there is none.
    pub open spec fn logical(self, physical: u32, shifted: bool, logical: KeymapModel) -> u32 {
        let key = if physical <= u8::MAX {
            Scancode::of_code(physical as u8)
        } else {
            None
        };
        if key is None || !self.entries.contains_key(key->0) {
            physical
        } else {
            let entry = self.entries[key->0];
            let codepoint = if shifted {
                entry.codepoint_shifted
            } else {
                entry.codepoint_unshifted
            };
            let keys = if shifted {
                logical.shifted
            } else {
                logical.unshifted
            };
            if codepoint == 0 || !keys.contains_key(codepoint) {
                physical
            } else {
                keys[codepoint].spec_code() as u32
            }
        }
    }
}

impl Keymap {
    /// A keymap that knows no key.
    pub fn empty() -> (keymap: Keymap)
        ensures
            keymap@ == keymap_of(Seq::empty(), 0),
    {
        Keymap {
            entries: OrderedMap::new(),
            unshifted_scancodes: OrderedMap::new(),
            shifted_scancodes: OrderedMap::new(),
        }
    }

    pub fn get(&self, scancode: Scancode) -> (r: Option<&KeymapEntry>)
        ensures
            match r {
                Some(entry) => self@.entries.contains_key(scancode) && *entry
                    == self@.entries[scancode],
                None => !self@.entries.contains_key(scancode),
            },
    {
        self.entries.get(scancode)
    }

    /// The number of keys that the keymap knows.
    pub fn len(&self) -> (n: usize)
        ensures
            n == self@.entries.dom().len(),
    {
        self.entries.len()
    }

    pub fn is_empty(&self) -> (r: bool)
        ensures
            r == (self@.entries.dom().len() == 0),
    {
        self.entries.is_empty()
    }

    /// The key whose meaning under the logical layout is what the pressed key
    /// means under this one; the pressed key itself where there is none.
    pub fn map_to_logical_scancode(
        &self,
        physical: u32,
        shifted: bool,
        logical_layout: &Keymap,
    ) -> (mapped: u32)
        ensures
            mapped == self@.logical(physical, shifted, logical_layout@),
    {
        if physical > u8::MAX as u32 {
            return physical;
        }
        let scancode = match Scancode::try_from(physical as u8) {
            Ok(scancode) => scancode,
            Err(_) => {
                return physical;
            },
        };
        let entry = match self.get(scancode) {
            Some(entry) => *entry,
            None => {
                return physical;
            },
        };
        let codepoint: u32 = if shifted {
            entry.codepoint_shifted
        } else {
            entry.codepoint_unshifted
        };
        if codepoint == 0 {
            return physical;
        }
        match logical_layout.scancode_for_codepoint(codepoint, shifted) {
            Some(mapped) => mapped.code() as u32,
            None => physical,
        }
    }

    fn scancode_for_codepoint(&self, codepoint: u32, shifted: bool) -> (r: Option<Scancode>)
        ensures
            ({
                let keys = if shifted {
                    self@.shifted
                } else {
                    self@.unshifted
                };
                match r {
                    Some(key) => keys.contains_key(codepoint) && key == keys[codepoint],
                    None => !keys.contains_key(codepoint),
                }
            }),
    {
        let found = if shifted {
            self.shifted_scancodes.get(codepoint)
        } else {
            self.unshifted_scancodes.get(codepoint)
        };
        match found {
            Some(key) => Some(*key),
            None => None,
        }
    }
}

/// Reads a keymap from its image.
pub fn parse(image: &[u8]) -> (r: Result<Keymap, KeymapError>)
    ensures
        match r {
            Ok(keymap) => image_fault(image@) is None && keymap@ == image_model(image@),
            Err(e) => image_fault(image@) == Some(e),
        },
{
    if image.len() < 4 {
        return Err(KeymapError::WrongMagic);
    }
    proof {
        let head = image@.subrange(0, 4);
        assert(head[0] == image@[0] && head[1] == image@[1] && head[2] == image@[2] && head[3]
            == image@[3]);
    }
    if image[0] != 0x50 || image[1] != 0x4d || image[2] != 0x4b || image[3] != 0x4d {
        return Err(KeymapError::WrongMagic);
    }
    proof {
        assert(image@.subrange(0, 4) =~= magic());
    }
    if image.len() < 6 {
        return Err(KeymapError::Truncated);
    }
    if read_u16(image, 4) != SUPPORTED_VERSION {
        return Err(KeymapError::UnsupportedVersion);
    }
    if image.len() < 8 {
        return Err(KeymapError::Truncated);
    }
    let count: usize = read_u16(image, 6) as usize;
    if image.len() < HEADER_BYTES + count * ENTRY_SIZE {
        return Err(KeymapError::Truncated);
    }
    let mut keymap = Keymap::empty();
    let mut i: usize = 0;
    while i < count
        invariant
            i <= count,
            count == entry_count(image@),
            HEADER_BYTES + count * ENTRY_SIZE <= image@.len(),
            count <= 0xffff,
            image_fault(image@) == first_unknown(image@, count as nat, i as nat),
            keymap@ == keymap_of(image@, i as nat),
        decreases count - i,
    {
        let at: usize = HEADER_BYTES + i * ENTRY_SIZE;
        let scancode = match Scancode::try_from(image[at]) {
            Ok(scancode) => scancode,
            Err(e) => {
                return Err(e);
            },
        };
        let entry = KeymapEntry {
            codepoint_unshifted: read_u32(image, at + 1),
            codepoint_shifted: read_u32(image, at + 5),
            modifier_mask: read_u16(image, at + 9),
        };
        let _ = keymap.entries.insert(scancode, entry);
        if entry.codepoint_unshifted != 0 && !keymap.unshifted_scancodes.contains_key(
            entry.codepoint_unshifted,
        ) {
            let _ = keymap.unshifted_scancodes.insert(entry.codepoint_unshifted, scancode);
        }
        if entry.codepoint_shifted != 0 && !keymap.shifted_scancodes.contains_key(
            entry.codepoint_shifted,
        ) {
            let _ = keymap.shifted_scancodes.insert(entry.codepoint_shifted, scancode);
        }
        i += 1;
    }
    Ok(keymap)
}

/// The images of the layouts that come with the server.
pub struct KeymapBundle {
    pub us_qwerty: Vec<u8>,
    pub uk_qwerty: Vec<u8>,
    pub dvorak: Vec<u8>,
}

impl KeymapBundle {
    pub open spec fn image(self, layout: KeyboardLayout) -> Seq<u8> {
        match layout {
            KeyboardLayout::UsQwerty => self.us_qwerty@,
            KeyboardLayout::UkQwerty => self.uk_qwerty@,
            KeyboardLayout::Dvorak => self.dvorak@,
        }
    }
}

/// What an image means as a keymap.
pub open spec fn image_model(image: Seq<u8>) -> KeymapModel {
    keymap_of(image, entry_count(image))
}

/// Reads the keymap of a layout that comes with the server.
pub fn load_bundled(bundle: &KeymapBundle, layout: KeyboardLayout) -> (r: Result<
    Keymap,
    KeymapError,
>)
    ensures
        match r {
            Ok(keymap) => image_fault(bundle.image(layout)) is None && keymap@ == image_model(
                bundle.image(layout),
            ),
            Err(e) => image_fault(bundle.image(layout)) == Some(e),
        },
{
    match layout {
        KeyboardLayout::UsQwerty => parse(bundle.us_qwerty.as_slice()),
        KeyboardLayout::UkQwerty => parse(bundle.uk_qwerty.as_slice()),
        KeyboardLayout::Dvorak => parse(bundle.dvorak.as_slice()),
    }
}

/// Reads the keymap of the layout that counts where the user chose none.
pub fn load_default(bundle: &KeymapBundle) -> (keymap: Keymap)
    requires
        image_fault(bundle.us_qwerty@) is None,
    ensures
        keymap@ == image_model(bundle.us_qwerty@),
{
    match load_bundled(bundle, KeyboardLayout::UsQwerty) {
        Ok(keymap) => keymap,
        Err(_) => vstd::pervasive::unreached(),
    }
}

/// How long to wait between two looks at the preferences.
pub const PREFERENCE_POLL_INTERVAL_MS: u64 = 100;

/// How many polls share one look at the clock.
pub const PREFERENCE_CLOCK_CHECK_EVERY_ITERATIONS: u32 = 16;

/// The preferences could not be read.
#[derive(Clone, Copy, Debug, PartialEq, Eq, Structural)]
pub enum KeymapPreferenceReadError {
    Unavailable,
}

/// Where the user's preferences come from.
pub trait KeymapPreferenceSource {
    /// The bytes of the preferences, if there are any.
    fn read(&mut self) -> Result<Option<Vec<u8>>, KeymapPreferenceReadError>;

    /// The name of the layout that the preferences choose, if they choose one;
    /// an error where they are malformed.
    fn keyboard_layout(&mut self, preferences: &Vec<u8>) -> Result<
        Option<String>,
        KeymapPreferenceReadError,
    >;
}

/// A clock that never goes back.
pub trait KeymapPreferenceClock {
    fn monotonic_ms(&mut self) -> u64;
}

/// What a look at the preferences gave: that they could not be read, that there
/// are none, or what they say of the layout.
pub type PreferenceRead = Result<
    Option<Result<Option<String>, KeymapPreferenceReadError>>,
    KeymapPreferenceReadError,
>;

/// The layout that a name in the preferences chooses: the default where there
/// is no name, and none where the name is unknown or the layout's image is not
/// a keymap.
pub open spec fn choice(name: Option<String>, bundle: KeymapBundle) -> Option<KeyboardLayout> {
    let layout = match name {
        Some(text) => KeyboardLayout::named(vstd::utf8::encode_utf8(text@)),
        None => Some(KeyboardLayout::UsQwerty),
    };
    if layout is Some && image_fault(bundle.image(layout->0)) is None {
        layout
    } else {
        None
    }
}

/// The layout that a name in the preferences chooses.
pub fn choose_layout(name: Option<String>, bundle: &KeymapBundle) -> (r: Option<KeyboardLayout>)
    ensures
        r == choice(name, *bundle),
{
    let layout = match name {
        Some(text) => match KeyboardLayout::from_name(text.as_str()) {
            Some(layout) => layout,
            None => {
                return None;
            },
        },
        None => KeyboardLayout::UsQwerty,
    };
    match load_bundled(bundle, layout) {
        Ok(_) => Some(layout),
        Err(_) => None,
    }
}

/// The layout that a look at the preferences chooses: none where they could not
/// be read or are malformed.
pub open spec fn choice_of(read: PreferenceRead, bundle: KeymapBundle) -> Option<KeyboardLayout> {
    match read {
        Ok(None) => choice(None, bundle),
        Ok(Some(Ok(name))) => choice(name, bundle),
        Ok(Some(Err(_))) => None,
        Err(_) => None,
    }
}

/// The layout that a look at the preferences chooses.
pub fn layout_of(read: PreferenceRead, bundle: &KeymapBundle) -> (r: Option<KeyboardLayout>)
    ensures
        r == choice_of(read, *bundle),
{
    match read {
        Ok(None) => choose_layout(None, bundle),
        Ok(Some(Ok(name))) => choose_layout(name, bundle),
        Ok(Some(Err(_))) => None,
        Err(_) => None,
    }
}

/// Whether a look at the preferences gave `read`: the source was read, and if
/// that gave preferences, it was then asked what just these say. `first` and
/// `second` are the source in the two calls.
pub open spec fn was_read<S: KeymapPreferenceSource>(
    first: &mut S,
    second: &mut S,
    read: PreferenceRead,
) -> bool {
    match read {
        Err(e) => call_ensures(S::read, (first,), Err(e)),
        Ok(None) => call_ensures(S::read, (first,), Ok(None)),
        Ok(Some(name)) => exists|preferences: Vec<u8>| #[trigger]
            call_ensures(S::read, (first,), Ok(Some(preferences))) && call_ensures(
                S::keyboard_layout,
                (second, &preferences),
                name,
            ),
    }
}

/// Looks at the preferences.
fn read_preferences<S: KeymapPreferenceSource>(source: &mut S) -> (read: PreferenceRead)
    ensures
        exists|first: &mut S, second: &mut S|
            {
                &&& #[trigger] was_read(first, second, read)
                &&& *first == *old(source)
                &&& if read matches Ok(Some(_)) {
                    *final(first) == *second && *final(second) == *final(source)
                } else {
                    *final(first) == *final(source)
                }
            },
{
    proof {
        assert forall|first: &mut S, second: &mut S, preferences: Vec<u8>, name| #[trigger]
            call_ensures(S::read, (first,), Ok(Some(preferences))) && #[trigger] call_ensures(
                S::keyboard_layout,
                (second, &preferences),
                name,
            ) implies was_read(first, second, Ok(Some(name))) by {}
        assert forall|first: &mut S, e| #[trigger]
            call_ensures(S::read, (first,), Err(e)) implies was_read(first, first, Err(e)) by {}
        assert forall|first: &mut S| #[trigger]
            call_ensures(S::read, (first,), Ok(None)) implies was_read(first, first, Ok(None)) by {}
    }
    match source.read() {
        Ok(Some(preferences)) => {
            let name = source.keyboard_layout(&preferences);
            Ok(Some(name))
        },
        Ok(None) => Ok(None),
        Err(e) => Err(e),
    }
}

/// Follows the layout that the preferences choose.
pub struct KeymapPreferenceMonitor<S> {
    pub source: S,
    pub bundle: KeymapBundle,
    pub current: KeyboardLayout,
}

impl<S: KeymapPreferenceSource> KeymapPreferenceMonitor<S> {
    /// The monitor after a choice: where nothing was chosen the layout stays.
    pub open spec fn following(self, next: Option<KeyboardLayout>) -> Self {
        KeymapPreferenceMonitor {
            current: match next {
                Some(layout) => layout,
                None => self.current,
            },
            ..self
        }
    }

    /// The monitor after a look at the preferences that left its source as
    /// `after`.
    pub open spec fn after_look(self, after: S, read: PreferenceRead) -> Self {
        KeymapPreferenceMonitor { source: after, ..self }.following(
            choice_of(read, self.bundle),
        )
    }

    /// Starts with the layout that the preferences choose, or with the default.
    pub fn new(source: S, bundle: KeymapBundle) -> (monitor: Self)
        ensures
            exists|first: &mut S, second: &mut S, read: PreferenceRead|
                {
                    &&& #[trigger] was_read(first, second, read)
                    &&& *first == source
                    &&& if read matches Ok(Some(_)) {
                        *final(first) == *second && *final(second) == monitor.source
                    } else {
                        *final(first) == monitor.source
                    }
                    &&& monitor == (KeymapPreferenceMonitor {
                        source,
                        bundle,
                        current: KeyboardLayout::UsQwerty,
                    }).after_look(monitor.source, read)
                },
    {
        let mut source = source;
        let read = read_preferences(&mut source);
        let mut monitor = KeymapPreferenceMonitor {
            source,
            bundle,
            current: KeyboardLayout::UsQwerty,
        };
        let next = layout_of(read, &monitor.bundle);
        let _ = monitor.follow(next);
        monitor
    }

    pub fn current(&self) -> (layout: KeyboardLayout)
        ensures
            layout == self.current,
    {
        self.current
    }

    /// Follows a choice, and says whether it changes the layout. Where nothing
    /// was chosen the layout stays.
    pub fn follow(&mut self, next: Option<KeyboardLayout>) -> (changed: bool)
        ensures
            *final(self) == old(self).following(next),
            changed == (final(self).current != old(self).current),
    {
        match next {
            Some(layout) => {
                let changed: bool = layout != self.current;
                self.current = layout;
                changed
            },
            None => false,
        }
    }

    /// Looks at the preferences, and says whether the layout changed. It stays
    /// where they cannot be read, are malformed, or choose a layout that cannot
    /// be had.
    pub fn poll(&mut self) -> (changed: bool)
        ensures
            exists|first: &mut S, second: &mut S, read: PreferenceRead|
                {
                    &&& #[trigger] was_read(first, second, read)
                    &&& *first == old(self).source
                    &&& if read matches Ok(Some(_)) {
                        *final(first) == *second && *final(second) == final(self).source
                    } else {
                        *final(first) == final(self).source
                    }
                    &&& *final(self) == old(self).after_look(final(self).source, read)
                },
            changed == (final(self).current != old(self).current),
    {
        let read = read_preferences(&mut self.source);
        let next = layout_of(read, &self.bundle);
        self.follow(next)
    }
}

pub open spec fn is_due(now: u64, last: u64) -> bool {
    now - last >= PREFERENCE_POLL_INTERVAL_MS
}

/// Whether a poll at `now` is due after one at `last`.
pub fn poll_is_due(now: u64, last: u64) -> (due: bool)
    ensures
        due == is_due(now, last),
{
    now.saturating_sub(last) >= PREFERENCE_POLL_INTERVAL_MS
}

/// Looks at the clock.
fn time_of<C: KeymapPreferenceClock>(clock: &mut C) -> (now: u64)
    ensures
        exists|looked: &mut C|
            *looked == *old(clock) && *final(looked) == *final(clock) && #[trigger] call_ensures(
                C::monotonic_ms,
                (looked,),
                now,
            ),
{
    clock.monotonic_ms()
}

/// Follows the layout without looking at the clock or at the preferences too
/// often.
pub struct KeymapPreferenceRuntime<S, C> {
    pub monitor: KeymapPreferenceMonitor<S>,
    pub clock: C,
    pub last_poll_ms: u64,
    pub clock_check_every_iterations: u32,
    pub iterations_until_clock_check: u32,
}

impl<S: KeymapPreferenceSource, C: KeymapPreferenceClock> KeymapPreferenceRuntime<S, C> {
    /// At least one iteration passes between two looks at the clock.
    pub open spec fn well_formed(self) -> bool {
        self.clock_check_every_iterations >= 1
    }

    /// The runtime after a poll at `now` that chose `next`.
    pub open spec fn polled(self, now: u64, next: Option<KeyboardLayout>) -> Self {
        KeymapPreferenceRuntime {
            last_poll_ms: now,
            monitor: self.monitor.following(next),
            ..self
        }
    }

    /// The runtime with its clock and its source as they are after looks at
    /// them.
    pub open spec fn having_looked(self, clock: C, source: S) -> Self {
        KeymapPreferenceRuntime {
            clock,
            monitor: KeymapPreferenceMonitor { source, ..self.monitor },
            ..self
        }
    }

    pub fn new(source: S, clock: C, bundle: KeymapBundle) -> (runtime: Self)
        ensures
            runtime.well_formed(),
            exists|first: &mut S, second: &mut S, read: PreferenceRead|
                {
                    &&& #[trigger] was_read(first, second, read)
                    &&& *first == source
                    &&& if read matches Ok(Some(_)) {
                        *final(first) == *second && *final(second) == runtime.monitor.source
                    } else {
                        *final(first) == runtime.monitor.source
                    }
                    &&& runtime.monitor == (KeymapPreferenceMonitor {
                        source,
                        bundle,
                        current: KeyboardLayout::UsQwerty,
                    }).after_look(runtime.monitor.source, read)
                },
            exists|looked: &mut C, now: u64|
                *looked == clock && *final(looked) == runtime.clock && #[trigger] call_ensures(
                    C::monotonic_ms,
                    (looked,),
                    now,
                ) && runtime.last_poll_ms == now,
            runtime.clock_check_every_iterations == PREFERENCE_CLOCK_CHECK_EVERY_ITERATIONS,
            runtime.iterations_until_clock_check == 0,
    {
        let monitor = KeymapPreferenceMonitor::new(source, bundle);
        let mut clock = clock;
        let last_poll_ms: u64 = time_of(&mut clock);
        KeymapPreferenceRuntime {
            monitor,
            clock,
            last_poll_ms,
            clock_check_every_iterations: PREFERENCE_CLOCK_CHECK_EVERY_ITERATIONS,
            iterations_until_clock_check: 0,
        }
    }

    pub fn current(&self) -> (layout: KeyboardLayout)
        ensures
            layout == self.monitor.current,
    {
        self.monitor.current()
    }

    pub fn with_clock_check_every_iterations(self, iterations: u32) -> (runtime: Self)
        ensures
            runtime == (KeymapPreferenceRuntime {
                clock_check_every_iterations: if iterations == 0 {
                    1
                } else {
                    iterations
                },
                iterations_until_clock_check: 0,
                ..self
            }),
            runtime.well_formed(),
    {
        let mut runtime = self;
        runtime.clock_check_every_iterations = if iterations == 0 {
            1
        } else {
            iterations
        };
        runtime.iterations_until_clock_check = 0;
        runtime
    }

    /// The runtime after an iteration.
    pub open spec fn counted(self) -> Self {
        KeymapPreferenceRuntime {
            iterations_until_clock_check: if self.iterations_until_clock_check == 0 {
                (self.clock_check_every_iterations - 1) as u32
            } else {
                (self.iterations_until_clock_check - 1) as u32
            },
            ..self
        }
    }

    /// Counts an iteration, and says whether the clock is to be looked at.
    pub fn count_iteration(&mut self) -> (look: bool)
        requires
            old(self).well_formed(),
        ensures
            look == (old(self).iterations_until_clock_check == 0),
            *final(self) == old(self).counted(),
    {
        if self.iterations_until_clock_check > 0 {
            self.iterations_until_clock_check = self.iterations_until_clock_check - 1;
            return false;
        }
        self.iterations_until_clock_check = self.clock_check_every_iterations - 1;
        true
    }

    /// Takes the slot of a poll at `now`, if one is due, and follows what it
    /// chose. A poll that chose nothing takes its slot too.
    pub fn note_poll(&mut self, now: u64, next: Option<KeyboardLayout>) -> (changed: bool)
        ensures
            *final(self) == (if is_due(now, old(self).last_poll_ms) {
                old(self).polled(now, next)
            } else {
                *old(self)
            }),
            changed == (final(self).monitor.current != old(self).monitor.current),
    {
        if !poll_is_due(now, self.last_poll_ms) {
            return false;
        }
        self.note_refresh(now, next)
    }

    /// Takes the slot of a poll at `now`, due or not, and follows what it
    /// chose.
    pub fn note_refresh(&mut self, now: u64, next: Option<KeyboardLayout>) -> (changed: bool)
        ensures
            *final(self) == old(self).polled(now, next),
            changed == (final(self).monitor.current != old(self).monitor.current),
    {
        self.last_poll_ms = now;
        self.monitor.follow(next)
    }

    /// Looks at the preferences if enough iterations and time have passed, and
    /// says whether the layout changed.
    pub fn poll(&mut self) -> (changed: bool)
        requires
            old(self).well_formed(),
        ensures
            final(self).well_formed(),
            changed == (final(self).monitor.current != old(self).monitor.current),
            old(self).iterations_until_clock_check > 0 ==> *final(self) == old(self).counted(),
            old(self).iterations_until_clock_check == 0 ==> exists|looked: &mut C, now: u64|
                {
                    &&& #[trigger] call_ensures(C::monotonic_ms, (looked,), now)
                    &&& *looked == old(self).clock
                    &&& *final(looked) == final(self).clock
                    &&& if is_due(now, old(self).last_poll_ms) {
                        exists|first: &mut S, second: &mut S, read: PreferenceRead|
                            {
                                &&& #[trigger] was_read(first, second, read)
                                &&& *first == old(self).monitor.source
                                &&& if read matches Ok(Some(_)) {
                                    *final(first) == *second && *final(second)
                                        == final(self).monitor.source
                                } else {
                                    *final(first) == final(self).monitor.source
                                }
                                &&& *final(self) == old(self).counted().having_looked(
                                    final(self).clock,
                                    final(self).monitor.source,
                                ).polled(now, choice_of(read, old(self).monitor.bundle))
                            }
                    } else {
                        *final(self) == old(self).counted().having_looked(
                            final(self).clock,
                            old(self).monitor.source,
                        )
                    }
                },
    {
        if !self.count_iteration() {
            return false;
        }
        let now: u64 = time_of(&mut self.clock);
        if !poll_is_due(now, self.last_poll_ms) {
            return self.note_poll(now, None);
        }
        let read = read_preferences(&mut self.monitor.source);
        let next = layout_of(read, &self.monitor.bundle);
        self.note_poll(now, next)
    }

    /// Looks at the preferences now, and says whether the layout changed.
    pub fn refresh(&mut self) -> (changed: bool)
        requires
            old(self).well_formed(),
        ensures
            final(self).well_formed(),
            changed == (final(self).monitor.current != old(self).monitor.current),
            exists|looked: &mut C, now: u64, first: &mut S, second: &mut S, read: PreferenceRead|
                {
                    &&& #[trigger] call_ensures(C::monotonic_ms, (looked,), now)
                    &&& *looked == old(self).clock
                    &&& *final(looked) == final(self).clock
                    &&& #[trigger] was_read(first, second, read)
                    &&& *first == old(self).monitor.source
                    &&& if read matches Ok(Some(_)) {
                        *final(first) == *second && *final(second) == final(self).monitor.source
                    } else {
                        *final(first) == final(self).monitor.source
                    }
                    &&& *final(self) == old(self).having_looked(
                        final(self).clock,
                        final(self).monitor.source,
                    ).polled(now, choice_of(read, old(self).monitor.bundle))
                },
    {
        let now: u64 = time_of(&mut self.clock);
        let read = read_preferences(&mut self.monitor.source);
        let next = layout_of(read, &self.monitor.bundle);
        self.note_refresh(now, next)
    }
}

} // verus!
