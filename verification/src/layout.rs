//! The keyboard layouts that a user can choose.

use vstd::prelude::*;
use vstd::utf8;

use crate::bytes::same_bytes;

verus! {

#[derive(Copy, Clone, Debug, PartialEq, Eq, Structural)]
pub enum KeyboardLayout {
    UsQwerty,
    UkQwerty,
    Dvorak,
}

impl Default for KeyboardLayout {
    fn default() -> (layout: Self)
        ensures
            layout == KeyboardLayout::UsQwerty,
    {
        KeyboardLayout::UsQwerty
    }
}

impl KeyboardLayout {
    pub open spec fn spec_name(self) -> &'static str {
        match self {
            KeyboardLayout::UsQwerty => "us-qwerty",
            KeyboardLayout::UkQwerty => "uk-qwerty",
            KeyboardLayout::Dvorak => "dvorak",
        }
    }

    /// The layout's name in the preferences.
    pub fn as_str(self) -> (name: &'static str)
        ensures
            name == self.spec_name(),
    {
        match self {
            KeyboardLayout::UsQwerty => "us-qwerty",
            KeyboardLayout::UkQwerty => "uk-qwerty",
            KeyboardLayout::Dvorak => "dvorak",
        }
    }

    /// The UTF-8 bytes of the layout's name.
    pub open spec fn name_bytes(self) -> Seq<u8> {
        utf8::encode_utf8(self.spec_name()@)
    }

    /// The layout whose name has the given bytes.
    pub open spec fn named(name: Seq<u8>) -> Option<KeyboardLayout> {
        if name == KeyboardLayout::UsQwerty.name_bytes() {
            Some(KeyboardLayout::UsQwerty)
        } else if name == KeyboardLayout::UkQwerty.name_bytes() {
            Some(KeyboardLayout::UkQwerty)
        } else if name == KeyboardLayout::Dvorak.name_bytes() {
            Some(KeyboardLayout::Dvorak)
        } else {
            None
        }
    }

    /// The layout with the given name.
    pub fn from_name(name: &str) -> (r: Option<KeyboardLayout>)
        ensures
            r == KeyboardLayout::named(utf8::encode_utf8(name@)),
    {
        if same_bytes(name.as_bytes(), "us-qwerty".as_bytes()) {
            Some(KeyboardLayout::UsQwerty)
        } else if same_bytes(name.as_bytes(), "uk-qwerty".as_bytes()) {
            Some(KeyboardLayout::UkQwerty)
        } else if same_bytes(name.as_bytes(), "dvorak".as_bytes()) {
            Some(KeyboardLayout::Dvorak)
        } else {
            None
        }
    }
}

/// No two layouts share a name.
pub proof fn law_layout_names_are_distinct(a: KeyboardLayout, b: KeyboardLayout)
    requires
        a.name_bytes() == b.name_bytes(),
    ensures
        a == b,
{
    reveal_strlit("us-qwerty");
    reveal_strlit("uk-qwerty");
    reveal_strlit("dvorak");
    vstd::string::is_ascii_spec_bytes(a.spec_name());
    vstd::string::is_ascii_spec_bytes(b.spec_name());
    assert(a.spec_name().is_ascii());
    assert(b.spec_name().is_ascii());
    let x = a.name_bytes();
    let y = b.name_bytes();
    assert(x.len() == y.len());
    assert(x[1] == y[1]);
}

/// A layout is found by its name.
pub proof fn law_layout_is_found_by_name(layout: KeyboardLayout)
    ensures
        KeyboardLayout::named(layout.name_bytes()) == Some(layout),
{
    let found = KeyboardLayout::named(layout.name_bytes());
    law_layout_names_are_distinct(found->0, layout);
}

} // verus!
