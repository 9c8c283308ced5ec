//! Parts of the protocol beyond its messages.

pub mod keymap;
