//! Event payloads.
//!
//! Each function gives the payload of one event; the spec function beside it
//! lists the fields in the order in which they are written.

use vstd::prelude::*;
use vstd::utf8;

use crate::bytes;
use crate::bytes::{push_i32, push_u32};
use crate::ids::ObjectId;
use crate::text;
use crate::text::{push_text, utf8_bytes};

verus! {

/// The error code of a request for which the client lacks a capability.
pub const ERROR_CODE_PERMISSION_DENIED: u32 = 3;

/// The error code of a request that a resource limit refuses.
pub const ERROR_CODE_NO_MEMORY: u32 = 4;

/// States of a pointer button and of a key.
pub const STATE_RELEASED: u32 = 0;

pub const STATE_PRESSED: u32 = 1;

/// State bits of a configured toplevel.
pub const TOPLEVEL_STATE_MAXIMIZED: u32 = 1;

pub const TOPLEVEL_STATE_ACTIVATED: u32 = 2;

pub const TOPLEVEL_STATE_RESIZING: u32 = 4;

/// State bits of a window as the shell sees it.
pub const WINDOW_MAPPED: u32 = 1;

pub const WINDOW_MINIMIZED: u32 = 2;

pub const WINDOW_MAXIMIZED: u32 = 4;

pub const WINDOW_FOCUSED: u32 = 8;

pub const WINDOW_HIDDEN_FOR_RESTORE: u32 = 16;

pub const WINDOW_RESTORE_PLACEMENT_APPLIED: u32 = 32;

pub const WINDOW_SHELL_OWNED: u32 = 64;

/// How a restore ended.
pub const RESTORE_COMPLETED: u32 = 0;

pub const RESTORE_ABORTED: u32 = 1;

pub const RESTORE_TIMED_OUT: u32 = 2;

pub const RESTORE_BUSY: u32 = 3;

/// A protocol error about an object.
pub open spec fn display_error_payload(object_id: ObjectId, code: u32, message: Seq<u8>) -> Seq<u8> {
    bytes::le32(object_id.0) + bytes::le32(code) + text::wire_text(message)
}

pub fn display_error(object_id: ObjectId, code: u32, message: &[u8]) -> (payload: Vec<u8>)
    ensures
        payload@ == display_error_payload(object_id, code, message@),
{
    let mut payload: Vec<u8> = Vec::new();
    push_u32(&mut payload, object_id.0);
    push_u32(&mut payload, code);
    push_text(&mut payload, message);
    proof {
        assert(payload@ =~= display_error_payload(object_id, code, message@));
    }
    payload
}

/// An object id may be used again.
pub open spec fn display_delete_id_payload(id: ObjectId) -> Seq<u8> {
    bytes::le32(id.0)
}

pub fn display_delete_id(id: ObjectId) -> (payload: Vec<u8>)
    ensures
        payload@ == display_delete_id_payload(id),
{
    let mut payload: Vec<u8> = Vec::new();
    push_u32(&mut payload, id.0);
    proof {
        assert(payload@ =~= display_delete_id_payload(id));
    }
    payload
}

/// A callback has fired.
pub open spec fn callback_done_payload(callback_data: u32) -> Seq<u8> {
    bytes::le32(callback_data)
}

pub fn callback_done(callback_data: u32) -> (payload: Vec<u8>)
    ensures
        payload@ == callback_done_payload(callback_data),
{
    let mut payload: Vec<u8> = Vec::new();
    push_u32(&mut payload, callback_data);
    proof {
        assert(payload@ =~= callback_done_payload(callback_data));
    }
    payload
}

/// A global is offered.
pub open spec fn registry_global_payload(name: u32, interface: Seq<u8>, version: u32) -> Seq<u8> {
    bytes::le32(name) + text::wire_text(interface) + bytes::le32(version)
}

pub fn registry_global(name: u32, interface: &[u8], version: u32) -> (payload: Vec<u8>)
    ensures
        payload@ == registry_global_payload(name, interface@, version),
{
    let mut payload: Vec<u8> = Vec::new();
    push_u32(&mut payload, name);
    push_text(&mut payload, interface);
    push_u32(&mut payload, version);
    proof {
        assert(payload@ =~= registry_global_payload(name, interface@, version));
    }
    payload
}

/// A global is withdrawn.
pub open spec fn registry_global_remove_payload(name: u32) -> Seq<u8> {
    bytes::le32(name)
}

pub fn registry_global_remove(name: u32) -> (payload: Vec<u8>)
    ensures
        payload@ == registry_global_remove_payload(name),
{
    let mut payload: Vec<u8> = Vec::new();
    push_u32(&mut payload, name);
    proof {
        assert(payload@ =~= registry_global_remove_payload(name));
    }
    payload
}

/// A toplevel is asked to take a size and states.
pub open spec fn toplevel_configure_payload(
    serial: u32,
    width: i32,
    height: i32,
    states: u32,
) -> Seq<u8> {
    bytes::le32(serial) + bytes::le32_signed(width) + bytes::le32_signed(height) + bytes::le32(states)
}

pub fn toplevel_configure(serial: u32, width: i32, height: i32, states: u32) -> (payload: Vec<u8>)
    ensures
        payload@ == toplevel_configure_payload(serial, width, height, states),
{
    let mut payload: Vec<u8> = Vec::new();
    push_u32(&mut payload, serial);
    push_i32(&mut payload, width);
    push_i32(&mut payload, height);
    push_u32(&mut payload, states);
    proof {
        assert(payload@ =~= toplevel_configure_payload(serial, width, height, states));
    }
    payload
}

/// The pointer moved over a surface.
pub open spec fn pointer_motion_payload(surface_id: ObjectId, x: i32, y: i32) -> Seq<u8> {
    bytes::le32(surface_id.0) + bytes::le32_signed(x) + bytes::le32_signed(y)
}

pub fn pointer_motion(surface_id: ObjectId, x: i32, y: i32) -> (payload: Vec<u8>)
    ensures
        payload@ == pointer_motion_payload(surface_id, x, y),
{
    let mut payload: Vec<u8> = Vec::new();
    push_u32(&mut payload, surface_id.0);
    push_i32(&mut payload, x);
    push_i32(&mut payload, y);
    proof {
        assert(payload@ =~= pointer_motion_payload(surface_id, x, y));
    }
    payload
}

/// A pointer button changed over a surface.
pub open spec fn pointer_button_payload(
    serial: u32,
    surface_id: ObjectId,
    x: i32,
    y: i32,
    button: u32,
    state: u32,
) -> Seq<u8> {
    bytes::le32(serial) + bytes::le32(surface_id.0) + bytes::le32_signed(x) + bytes::le32_signed(y)
        + bytes::le32(button) + bytes::le32(state)
}

pub fn pointer_button(
    serial: u32,
    surface_id: ObjectId,
    x: i32,
    y: i32,
    button: u32,
    state: u32,
) -> (payload: Vec<u8>)
    ensures
        payload@ == pointer_button_payload(serial, surface_id, x, y, button, state),
{
    let mut payload: Vec<u8> = Vec::new();
    push_u32(&mut payload, serial);
    push_u32(&mut payload, surface_id.0);
    push_i32(&mut payload, x);
    push_i32(&mut payload, y);
    push_u32(&mut payload, button);
    push_u32(&mut payload, state);
    proof {
        assert(payload@ =~= pointer_button_payload(serial, surface_id, x, y, button, state));
    }
    payload
}

/// A key changed while a surface has the focus.
pub open spec fn keyboard_key_payload(surface_id: ObjectId, key: u32, state: u32) -> Seq<u8> {
    bytes::le32(surface_id.0) + bytes::le32(key) + bytes::le32(state)
}

pub fn keyboard_key(surface_id: ObjectId, key: u32, state: u32) -> (payload: Vec<u8>)
    ensures
        payload@ == keyboard_key_payload(surface_id, key, state),
{
    let mut payload: Vec<u8> = Vec::new();
    push_u32(&mut payload, surface_id.0);
    push_u32(&mut payload, key);
    push_u32(&mut payload, state);
    proof {
        assert(payload@ =~= keyboard_key_payload(surface_id, key, state));
    }
    payload
}

/// A window exists.
pub open spec fn window_created_payload(window_id: u32, title: Seq<u8>, app_id: Seq<u8>) -> Seq<u8> {
    bytes::le32(window_id) + text::wire_text(title) + text::wire_text(app_id)
}

pub fn window_created(window_id: u32, title: &[u8], app_id: &[u8]) -> (payload: Vec<u8>)
    ensures
        payload@ == window_created_payload(window_id, title@, app_id@),
{
    let mut payload: Vec<u8> = Vec::new();
    push_u32(&mut payload, window_id);
    push_text(&mut payload, title);
    push_text(&mut payload, app_id);
    proof {
        assert(payload@ =~= window_created_payload(window_id, title@, app_id@));
    }
    payload
}

/// A window's title changed.
pub open spec fn window_title_changed_payload(window_id: u32, new_title: Seq<u8>) -> Seq<u8> {
    bytes::le32(window_id) + text::wire_text(new_title)
}

pub fn window_title_changed(window_id: u32, new_title: &[u8]) -> (payload: Vec<u8>)
    ensures
        payload@ == window_title_changed_payload(window_id, new_title@),
{
    let mut payload: Vec<u8> = Vec::new();
    push_u32(&mut payload, window_id);
    push_text(&mut payload, new_title);
    proof {
        assert(payload@ =~= window_title_changed_payload(window_id, new_title@));
    }
    payload
}

/// An event about one window, or one snapshot, and nothing more.
pub open spec fn window_word_payload(value: u32) -> Seq<u8> {
    bytes::le32(value)
}

pub fn window_word(value: u32) -> (payload: Vec<u8>)
    ensures
        payload@ == window_word_payload(value),
{
    let mut payload: Vec<u8> = Vec::new();
    push_u32(&mut payload, value);
    proof {
        assert(payload@ =~= window_word_payload(value));
    }
    payload
}

/// A restore has ended.
pub open spec fn restore_finished_payload(restore_id: u32, status: u32, placed: u32) -> Seq<u8> {
    bytes::le32(restore_id) + bytes::le32(status) + bytes::le32(placed)
}

pub fn restore_finished(restore_id: u32, status: u32, placed: u32) -> (payload: Vec<u8>)
    ensures
        payload@ == restore_finished_payload(restore_id, status, placed),
{
    let mut payload: Vec<u8> = Vec::new();
    push_u32(&mut payload, restore_id);
    push_u32(&mut payload, status);
    push_u32(&mut payload, placed);
    proof {
        assert(payload@ =~= restore_finished_payload(restore_id, status, placed));
    }
    payload
}

/// The state of one window, as reported to the shell.
pub struct ShellWindowState {
    pub snapshot_id: u32,
    pub window_id: u32,
    pub owner_pid: u32,
    pub ordinal: u32,
    pub current_x: i32,
    pub current_y: i32,
    pub current_width: u32,
    pub current_height: u32,
    pub normal_x: i32,
    pub normal_y: i32,
    pub normal_width: u32,
    pub normal_height: u32,
    pub flags: u32,
    pub z_rank: u32,
    pub title: String,
    pub app_id: String,
}

/// The model of a [`ShellWindowState`]: its text as UTF-8 bytes.
pub struct WindowStateModel {
    pub snapshot_id: u32,
    pub window_id: u32,
    pub owner_pid: u32,
    pub ordinal: u32,
    pub current_x: i32,
    pub current_y: i32,
    pub current_width: u32,
    pub current_height: u32,
    pub normal_x: i32,
    pub normal_y: i32,
    pub normal_width: u32,
    pub normal_height: u32,
    pub flags: u32,
    pub z_rank: u32,
    pub title: Seq<u8>,
    pub app_id: Seq<u8>,
}

impl View for ShellWindowState {
    type V = WindowStateModel;

    open spec fn view(&self) -> WindowStateModel {
        WindowStateModel {
            snapshot_id: self.snapshot_id,
            window_id: self.window_id,
            owner_pid: self.owner_pid,
            ordinal: self.ordinal,
            current_x: self.current_x,
            current_y: self.current_y,
            current_width: self.current_width,
            current_height: self.current_height,
            normal_x: self.normal_x,
            normal_y: self.normal_y,
            normal_width: self.normal_width,
            normal_height: self.normal_height,
            flags: self.flags,
            z_rank: self.z_rank,
            title: utf8::encode_utf8(self.title@),
            app_id: utf8::encode_utf8(self.app_id@),
        }
    }
}

/// A window's whole state.
pub open spec fn window_state_payload(s: WindowStateModel) -> Seq<u8> {
    bytes::le32(s.snapshot_id) + bytes::le32(s.window_id) + bytes::le32(s.owner_pid) + bytes::le32(
        s.ordinal,
    ) + bytes::le32_signed(s.current_x) + bytes::le32_signed(s.current_y) + bytes::le32(
        s.current_width,
    ) + bytes::le32(s.current_height) + bytes::le32_signed(s.normal_x) + bytes::le32_signed(
        s.normal_y,
    ) + bytes::le32(s.normal_width) + bytes::le32(s.normal_height) + bytes::le32(s.flags)
        + bytes::le32(s.z_rank) + text::wire_text(s.title) + text::wire_text(s.app_id)
}

/// The payload that reports `state` under the given snapshot id.
pub fn window_state(state: &ShellWindowState, snapshot_id: u32) -> (payload: Vec<u8>)
    ensures
        payload@ == window_state_payload(WindowStateModel { snapshot_id, ..state@ }),
{
    let mut payload: Vec<u8> = Vec::new();
    push_u32(&mut payload, snapshot_id);
    push_u32(&mut payload, state.window_id);
    push_u32(&mut payload, state.owner_pid);
    push_u32(&mut payload, state.ordinal);
    push_i32(&mut payload, state.current_x);
    push_i32(&mut payload, state.current_y);
    push_u32(&mut payload, state.current_width);
    push_u32(&mut payload, state.current_height);
    push_i32(&mut payload, state.normal_x);
    push_i32(&mut payload, state.normal_y);
    push_u32(&mut payload, state.normal_width);
    push_u32(&mut payload, state.normal_height);
    push_u32(&mut payload, state.flags);
    push_u32(&mut payload, state.z_rank);
    push_text(&mut payload, utf8_bytes(&state.title));
    push_text(&mut payload, utf8_bytes(&state.app_id));
    proof {
        assert(Seq::<u8>::empty() + bytes::le32(snapshot_id) =~= bytes::le32(snapshot_id));
    }
    payload
}

} // verus!
