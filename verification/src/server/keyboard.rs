//! The keyboard: modifiers, layouts and the shortcut that closes a window.

use vstd::prelude::*;

use crate::events;
use crate::events::{STATE_PRESSED, STATE_RELEASED};
use crate::ids::{ClientId, ObjectId, WindowId};
use crate::layout::KeyboardLayout;
use crate::protocol::keymap;
use crate::protocol::keymap::{load_bundled, KeymapBundle, KeymapError};
use crate::server::model::ServerModel;
use crate::server::Server;

verus! {

broadcast use {
    crate::client::model::lemma_emit_frame,
    crate::ordered::lemma_remove_insert,
    crate::ordered::lemma_insert_same,
};

/// Numbers of the keys that the server itself looks at.
pub const KEY_F4: u32 = 0x3d;

pub const KEY_SHIFT_LEFT: u32 = 0xe1;

pub const KEY_ALT_LEFT: u32 = 0xe2;

pub const KEY_SHIFT_RIGHT: u32 = 0xe5;

pub const KEY_ALT_RIGHT: u32 = 0xe6;

/// A mask of held keys, one bit each, after the key of a bit has changed.
pub open spec fn mask_after(mask: u8, right: bool, state: u32) -> u8 {
    if state == STATE_PRESSED {
        if right {
            mask | 2
        } else {
            mask | 1
        }
    } else if state == STATE_RELEASED {
        if right {
            mask & 0xfd
        } else {
            mask & 0xfe
        }
    } else {
        mask
    }
}

impl ServerModel {
    /// The state after a key has changed, as far as the held modifiers go.
    pub open spec fn modifier_changed(self, key: u32, state: u32) -> ServerModel {
        if key == KEY_SHIFT_LEFT || key == KEY_SHIFT_RIGHT {
            ServerModel {
                shift_mask: mask_after(self.shift_mask, key == KEY_SHIFT_RIGHT, state),
                ..self
            }
        } else if key == KEY_ALT_LEFT || key == KEY_ALT_RIGHT {
            ServerModel {
                alt_mask: mask_after(self.alt_mask, key == KEY_ALT_RIGHT, state),
                ..self
            }
        } else {
            self
        }
    }

    /// The window that the close shortcut would close: the focused one, if it
    /// is no shell's and can have the focus.
    pub open spec fn closable(self) -> Option<WindowId> {
        match self.window_of_focus(self.focus) {
            Some(window_id) => if !self.is_shell((self.focus->0).0) && self.is_focusable(window_id) {
                Some(window_id)
            } else {
                None
            },
            None => None,
        }
    }

    /// The shell that keeps the work area, and its manager, if it knows the
    /// close shortcut.
    pub open spec fn shortcut_shell(self) -> Option<(ClientId, ObjectId)> {
        match self.work_area_owner {
            Some(id) => if self.is_shell(id) && self.clients[id].shell_manager_version is Some
                && self.clients[id].shell_manager_version->0 >= 2
                && self.clients[id].shell_manager_id is Some {
                Some((id, self.clients[id].shell_manager_id->0))
            } else {
                None
            },
            None => None,
        }
    }

    /// The state after the shell has been told of the close shortcut, and
    /// whether it was.
    pub open spec fn close_shortcut(self) -> (ServerModel, bool) {
        if self.closable() is Some && self.shortcut_shell() is Some {
            let (shell, manager) = self.shortcut_shell()->0;
            let payload = events::window_word_payload((self.closable()->0).0);
            (
                self.with_client(shell, self.clients[shell].emit(manager, 9, payload)),
                self.clients[shell].emit_fault(manager, 9, payload) is None,
            )
        } else {
            (self, false)
        }
    }

    /// The state after F4 has changed, and whether the close shortcut takes
    /// that.
    pub open spec fn f4_changed(self, state: u32) -> (ServerModel, bool) {
        if state == STATE_PRESSED && !self.f4_down {
            let held = ServerModel { f4_down: true, ..self };
            let (told, taken) = if held.alt_mask != 0 {
                held.close_shortcut()
            } else {
                (held, false)
            };
            (ServerModel { f4_consumed: taken, ..told }, taken)
        } else if state == STATE_PRESSED {
            (self, self.f4_consumed)
        } else if state == STATE_RELEASED {
            (ServerModel { f4_down: false, f4_consumed: false, ..self }, self.f4_consumed)
        } else {
            (self, false)
        }
    }

    /// The key that a pressed key stands for under the chosen layout.
    pub open spec fn mapped_key(self, key: u32) -> u32 {
        if self.layout == KeyboardLayout::UsQwerty {
            key
        } else {
            self.active_keymap.logical(key, self.shift_mask != 0, self.logical_keymap)
        }
    }

    /// The state after the focused window has been told of a key, and the
    /// focus if it is there.
    pub open spec fn key_delivered(self, key: u32, state: u32) -> (
        ServerModel,
        Option<(ClientId, ObjectId)>,
    ) {
        match self.focus {
            Some((client_id, surface_id)) => if self.clients.contains_key(client_id) {
                let client = self.clients[client_id];
                (
                    match client.keyboard_id {
                        Some(device) => self.with_client(
                            client_id,
                            client.emit(
                                device,
                                1,
                                events::keyboard_key_payload(
                                    surface_id,
                                    self.mapped_key(key),
                                    state,
                                ),
                            ),
                        ),
                        None => self,
                    },
                    self.focus,
                )
            } else {
                (self, None)
            },
            None => (self, None),
        }
    }

    /// The state after a key has changed, and the focus that the change went
    /// to.
    pub open spec fn key_changed(self, key: u32, state: u32) -> (
        ServerModel,
        Option<(ClientId, ObjectId)>,
    ) {
        let held = self.modifier_changed(key, state);
        if key == KEY_F4 {
            let (after, taken) = held.f4_changed(state);
            if taken {
                (after, held.focus)
            } else {
                after.key_delivered(key, state)
            }
        } else {
            held.key_delivered(key, state)
        }
    }
}

/// A key held down and let go leaves the mask of held keys as it was without
/// that key.
pub proof fn law_modifier_is_released(mask: u8, right: bool)
    ensures
        mask_after(mask_after(mask, right, STATE_PRESSED), right, STATE_RELEASED) == mask_after(
            mask,
            right,
            STATE_RELEASED,
        ),
        mask_after(mask, right, STATE_PRESSED) != 0,
        mask_after(mask_after(0, right, STATE_PRESSED), right, STATE_RELEASED) == 0,
{
    assert((mask | 2) & 0xfd == mask & 0xfd) by (bit_vector);
    assert((mask | 1) & 0xfe == mask & 0xfe) by (bit_vector);
    assert(mask | 2 != 0 && mask | 1 != 0) by (bit_vector);
    assert((0u8 | 2) & 0xfd == 0 && (0u8 | 1) & 0xfe == 0) by (bit_vector);
}

/// Under the default layout every key stands for itself, whatever the images
/// of the layouts hold.
pub proof fn law_default_layout_is_transparent(s: ServerModel, key: u32)
    requires
        s.layout == KeyboardLayout::UsQwerty,
    ensures
        s.mapped_key(key) == key,
{
}

fn change_mask(mask: u8, right: bool, state: u32) -> (r: u8)
    ensures
        r == mask_after(mask, right, state),
{
    if state == STATE_PRESSED {
        if right {
            mask | 2
        } else {
            mask | 1
        }
    } else if state == STATE_RELEASED {
        if right {
            mask & 0xfd
        } else {
            mask & 0xfe
        }
    } else {
        mask
    }
}

impl Server {
    fn track_keyboard_modifier(&mut self, key: u32, state: u32)
        ensures
            final(self)@ == old(self)@.modifier_changed(key, state),
    {
        if key == KEY_SHIFT_LEFT || key == KEY_SHIFT_RIGHT {
            self.shift_mask = change_mask(self.shift_mask, key == KEY_SHIFT_RIGHT, state);
        } else if key == KEY_ALT_LEFT || key == KEY_ALT_RIGHT {
            self.alt_mask = change_mask(self.alt_mask, key == KEY_ALT_RIGHT, state);
        }
    }

    fn closable(&self) -> (r: Option<WindowId>)
        ensures
            r == self@.closable(),
    {
        match self.keyboard_focus {
            Some((client_id, surface_id)) => match self.window_id_for_surface(
                client_id,
                surface_id,
            ) {
                Some(window_id) => if !self.is_shell(client_id) && self.window_is_focusable(
                    window_id,
                ) {
                    Some(window_id)
                } else {
                    None
                },
                None => None,
            },
            None => None,
        }
    }

    fn shortcut_shell(&self) -> (r: Option<(ClientId, ObjectId)>)
        ensures
            r == self@.shortcut_shell(),
    {
        match self.work_area_owner {
            Some(id) => match self.clients.get(id) {
                Some(client) => {
                    let knows: bool = match client.shell_manager_version {
                        Some(version) => version >= 2,
                        None => false,
                    };
                    if !client.is_shell() || !knows {
                        return None;
                    }
                    match client.shell_manager_id {
                        Some(manager) => Some((id, manager)),
                        None => None,
                    }
                },
                None => None,
            },
            None => None,
        }
    }

    /// Tells the shell of the close shortcut, and says whether it was told.
    fn try_emit_close_shortcut(&mut self) -> (taken: bool)
        ensures
            (final(self)@, taken) == old(self)@.close_shortcut(),
    {
        let window_id = match self.closable() {
            Some(window_id) => window_id,
            None => {
                return false;
            },
        };
        let (shell, manager) = match self.shortcut_shell() {
            Some(found) => found,
            None => {
                return false;
            },
        };
        match self.clients.get_mut(shell) {
            Some(client) => client.emit_close_shortcut(manager, window_id.0).is_ok(),
            None => false,
        }
    }

    fn change_f4(&mut self, state: u32) -> (taken: bool)
        ensures
            (final(self)@, taken) == old(self)@.f4_changed(state),
    {
        if state == STATE_PRESSED {
            if self.f4_down {
                return self.f4_close_shortcut_consumed;
            }
            self.f4_down = true;
            let taken: bool = self.alt_mask != 0 && self.try_emit_close_shortcut();
            self.f4_close_shortcut_consumed = taken;
            return taken;
        }
        if state == STATE_RELEASED {
            let taken: bool = self.f4_close_shortcut_consumed;
            self.f4_down = false;
            self.f4_close_shortcut_consumed = false;
            return taken;
        }
        false
    }

    fn map_keyboard_key(&self, key: u32) -> (mapped: u32)
        ensures
            mapped == self@.mapped_key(key),
    {
        if self.keyboard_layout == KeyboardLayout::UsQwerty {
            return key;
        }
        self.active_keymap.map_to_logical_scancode(key, self.shift_mask != 0, &self.logical_keymap)
    }

    /// Changes a key, and tells the focused window. F4 while Alt is held goes
    /// to the shell instead, if the shell knows that shortcut.
    pub fn inject_keyboard_key(&mut self, key: u32, state: u32) -> (r: Option<(ClientId, ObjectId)>)
        ensures
            (final(self)@, r) == old(self)@.key_changed(key, state),
    {
        self.track_keyboard_modifier(key, state);
        let focused = self.keyboard_focus;
        if key == KEY_F4 && self.change_f4(state) {
            return focused;
        }
        match self.keyboard_focus {
            Some((client_id, surface_id)) => {
                let mapped: u32 = self.map_keyboard_key(key);
                match self.clients.get_mut(client_id) {
                    Some(client) => {
                        let _ = client.emit_keyboard_key(surface_id, mapped, state);
                        Some((client_id, surface_id))
                    },
                    None => None,
                }
            },
            None => None,
        }
    }

    pub fn keyboard_focus(&self) -> (focus: Option<(ClientId, ObjectId)>)
        ensures
            focus == self@.focus,
    {
        self.keyboard_focus
    }

    pub fn keyboard_layout(&self) -> (layout: KeyboardLayout)
        ensures
            layout == self@.layout,
    {
        self.keyboard_layout
    }

    /// Chooses a layout, and says whether that changes it. Fails, and changes
    /// nothing, if the image of the layout is not a keymap.
    pub fn set_keyboard_layout(&mut self, layout: KeyboardLayout, bundle: &KeymapBundle) -> (r:
        Result<bool, KeymapError>)
        ensures
            r == if layout == old(self)@.layout {
                Ok::<bool, KeymapError>(false)
            } else {
                match keymap::image_fault(bundle.image(layout)) {
                    None => Ok(true),
                    Some(e) => Err(e),
                }
            },
            final(self)@ == if r == Ok::<bool, KeymapError>(true) {
                ServerModel {
                    layout,
                    active_keymap: keymap::image_model(bundle.image(layout)),
                    ..old(self)@
                }
            } else {
                old(self)@
            },
    {
        if layout == self.keyboard_layout {
            return Ok(false);
        }
        match load_bundled(bundle, layout) {
            Ok(active) => {
                self.active_keymap = active;
                self.keyboard_layout = layout;
                Ok(true)
            },
            Err(e) => Err(e),
        }
    }
}

} // verus!
