//! The protocol's interfaces and their opcodes.

use vstd::prelude::*;
use vstd::utf8;

use crate::bytes::same_bytes;

verus! {

/// A kind of protocol object.
#[derive(Copy, Clone, Debug, PartialEq, Eq, Hash, Structural)]
pub enum Interface {
    Display,
    Registry,
    Compositor,
    Shm,
    ShmPool,
    Buffer,
    Surface,
    XdgShell,
    XdgToplevel,
    Seat,
    Pointer,
    Keyboard,
    ShellManager,
    Callback,
}

/// Who sends a message.
#[derive(Copy, Clone, Debug, PartialEq, Eq, Structural)]
pub enum Direction {
    /// From the client to the server.
    Request,
    /// From the server to the client.
    Event,
}

/// One message of an interface.
#[derive(Copy, Clone, Debug, PartialEq, Eq)]
pub struct Opcode {
    pub number: u16,
    pub direction: Direction,
    pub name: &'static str,
}

/// Why an opcode lookup fails.
#[derive(Copy, Clone, Debug, PartialEq, Eq, Structural)]
pub enum OpcodeError {
    /// The interface has no message with this number in the direction asked for.
    UnknownOpcode { interface: Interface, opcode: u16 },
}

impl View for Interface {
    type V = Interface;

    open spec fn view(&self) -> Interface {
        *self
    }
}

impl Interface {
    pub open spec fn spec_name(self) -> &'static str {
        match self {
            Interface::Display => "pmd_display",
            Interface::Registry => "pmd_registry",
            Interface::Compositor => "pmd_compositor",
            Interface::Shm => "pmd_shm",
            Interface::ShmPool => "pmd_shm_pool",
            Interface::Buffer => "pmd_buffer",
            Interface::Surface => "pmd_surface",
            Interface::XdgShell => "pmd_xdg_shell",
            Interface::XdgToplevel => "pmd_xdg_toplevel",
            Interface::Seat => "pmd_seat",
            Interface::Pointer => "pmd_pointer",
            Interface::Keyboard => "pmd_keyboard",
            Interface::ShellManager => "pmd_shell_manager",
            Interface::Callback => "pmd_callback",
        }
    }

    /// The interface's name on the wire.
    pub fn name(self) -> (name: &'static str)
        ensures
            name == self.spec_name(),
    {
        match self {
            Interface::Display => "pmd_display",
            Interface::Registry => "pmd_registry",
            Interface::Compositor => "pmd_compositor",
            Interface::Shm => "pmd_shm",
            Interface::ShmPool => "pmd_shm_pool",
            Interface::Buffer => "pmd_buffer",
            Interface::Surface => "pmd_surface",
            Interface::XdgShell => "pmd_xdg_shell",
            Interface::XdgToplevel => "pmd_xdg_toplevel",
            Interface::Seat => "pmd_seat",
            Interface::Pointer => "pmd_pointer",
            Interface::Keyboard => "pmd_keyboard",
            Interface::ShellManager => "pmd_shell_manager",
            Interface::Callback => "pmd_callback",
        }
    }

    /// The UTF-8 bytes of the interface's name.
    pub open spec fn name_bytes(self) -> Seq<u8> {
        utf8::encode_utf8(self.spec_name()@)
    }

    /// The interface with the given name.
    pub open spec fn named(name: Seq<u8>) -> Option<Interface> {
        if exists|i: Interface| #[trigger] i.name_bytes() == name {
            Some(choose|i: Interface| #[trigger] i.name_bytes() == name)
        } else {
            None
        }
    }

    /// The interface with the given name, as UTF-8 bytes.
    pub fn from_name(name: &[u8]) -> (r: Option<Interface>)
        ensures
            r == Interface::named(name@),
            match r {
                Some(i) => i.name_bytes() == name@,
                None => forall|i: Interface| #[trigger] i.name_bytes() != name@,
            },
    {
        let all: [Interface; 14] = [
            Interface::Display,
            Interface::Registry,
            Interface::Compositor,
            Interface::Shm,
            Interface::ShmPool,
            Interface::Buffer,
            Interface::Surface,
            Interface::XdgShell,
            Interface::XdgToplevel,
            Interface::Seat,
            Interface::Pointer,
            Interface::Keyboard,
            Interface::ShellManager,
            Interface::Callback,
        ];
        let mut i: usize = 0;
        while i < 14
            invariant
                i <= 14,
                all@ == seq![
                    Interface::Display,
                    Interface::Registry,
                    Interface::Compositor,
                    Interface::Shm,
                    Interface::ShmPool,
                    Interface::Buffer,
                    Interface::Surface,
                    Interface::XdgShell,
                    Interface::XdgToplevel,
                    Interface::Seat,
                    Interface::Pointer,
                    Interface::Keyboard,
                    Interface::ShellManager,
                    Interface::Callback,
                ],
                forall|j: int| 0 <= j < i ==> (#[trigger] all@[j]).name_bytes() != name@,
            decreases 14 - i,
        {
            if same_bytes(all[i].name().as_bytes(), name) {
                let found = all[i];
                proof {
                    assert(found.name_bytes() == name@);
                    let c = choose|c: Interface| #[trigger] c.name_bytes() == name@;
                    law_names_are_distinct(found, c);
                }
                return Some(found);
            }
            i += 1;
        }
        proof {
            assert forall|c: Interface| #[trigger] c.name_bytes() != name@ by {
                let j: int = match c {
                    Interface::Display => 0,
                    Interface::Registry => 1,
                    Interface::Compositor => 2,
                    Interface::Shm => 3,
                    Interface::ShmPool => 4,
                    Interface::Buffer => 5,
                    Interface::Surface => 6,
                    Interface::XdgShell => 7,
                    Interface::XdgToplevel => 8,
                    Interface::Seat => 9,
                    Interface::Pointer => 10,
                    Interface::Keyboard => 11,
                    Interface::ShellManager => 12,
                    Interface::Callback => 13,
                };
                assert(all@[j] == c);
            }
        }
        None
    }

    pub open spec fn spec_supported_version(self) -> u32 {
        match self {
            Interface::ShellManager => 2,
            _ => 1,
        }
    }

    /// The newest version of the interface that the server offers.
    pub fn supported_version(self) -> (version: u32)
        ensures
            version == self.spec_supported_version(),
    {
        match self {
            Interface::ShellManager => 2,
            _ => 1,
        }
    }

    /// The name of a request, if the interface has one with this number.
    pub open spec fn request_name(self, opcode: u16) -> Option<&'static str> {
        match (self, opcode) {
            (Interface::Display, 1) => Some("sync"),
            (Interface::Display, 2) => Some("get_registry"),
            (Interface::Registry, 1) => Some("bind"),
            (Interface::Compositor, 1) => Some("create_surface"),
            (Interface::Shm, 1) => Some("create_pool"),
            (Interface::ShmPool, 1) => Some("create_buffer"),
            (Interface::ShmPool, 2) => Some("resize"),
            (Interface::ShmPool, 3) => Some("destroy"),
            (Interface::ShmPool, 4) => Some("write"),
            (Interface::ShmPool, 5) => Some("write_rows"),
            (Interface::Buffer, 1) => Some("destroy"),
            (Interface::Surface, 1) => Some("destroy"),
            (Interface::Surface, 2) => Some("attach"),
            (Interface::Surface, 3) => Some("damage"),
            (Interface::Surface, 4) => Some("frame"),
            (Interface::Surface, 5) => Some("set_opaque_region"),
            (Interface::Surface, 6) => Some("set_input_region"),
            (Interface::Surface, 7) => Some("commit"),
            (Interface::Surface, 8) => Some("patch_current"),
            (Interface::XdgShell, 1) => Some("get_toplevel"),
            (Interface::XdgToplevel, 1) => Some("set_title"),
            (Interface::XdgToplevel, 2) => Some("set_app_id"),
            (Interface::XdgToplevel, 3) => Some("destroy"),
            (Interface::XdgToplevel, 4) => Some("ack_configure"),
            (Interface::XdgToplevel, 5) => Some("set_maximized"),
            (Interface::XdgToplevel, 6) => Some("unset_maximized"),
            (Interface::XdgToplevel, 7) => Some("move"),
            (Interface::XdgToplevel, 8) => Some("resize"),
            (Interface::XdgToplevel, 9) => Some("set_minimized"),
            (Interface::Seat, 1) => Some("get_pointer"),
            (Interface::Seat, 2) => Some("get_keyboard"),
            (Interface::ShellManager, 1) => Some("subscribe_windows"),
            (Interface::ShellManager, 2) => Some("focus_window"),
            (Interface::ShellManager, 3) => Some("close_window"),
            (Interface::ShellManager, 4) => Some("minimize_window"),
            (Interface::ShellManager, 5) => Some("unminimize_window"),
            (Interface::ShellManager, 6) => Some("set_work_area_bottom"),
            (Interface::ShellManager, 7) => Some("toggle_maximized_window"),
            (Interface::ShellManager, 8) => Some("desktop_ready"),
            (Interface::ShellManager, 9) => Some("subscribe_window_state"),
            (Interface::ShellManager, 10) => Some("begin_restore"),
            (Interface::ShellManager, 11) => Some("place_restored_window"),
            (Interface::ShellManager, 12) => Some("end_restore"),
            _ => None,
        }
    }

    /// The name of an event, if the interface has one with this number.
    pub open spec fn event_name(self, opcode: u16) -> Option<&'static str> {
        match (self, opcode) {
            (Interface::Display, 1) => Some("error"),
            (Interface::Display, 2) => Some("delete_id"),
            (Interface::Registry, 1) => Some("global"),
            (Interface::Registry, 2) => Some("global_remove"),
            (Interface::Shm, 1) => Some("format"),
            (Interface::Buffer, 1) => Some("release"),
            (Interface::XdgToplevel, 1) => Some("configure"),
            (Interface::XdgToplevel, 2) => Some("close"),
            (Interface::Pointer, 1) => Some("motion"),
            (Interface::Pointer, 2) => Some("button"),
            (Interface::Keyboard, 1) => Some("key"),
            (Interface::ShellManager, 1) => Some("window_created"),
            (Interface::ShellManager, 2) => Some("window_destroyed"),
            (Interface::ShellManager, 3) => Some("window_focused"),
            (Interface::ShellManager, 4) => Some("window_title_changed"),
            (Interface::ShellManager, 5) => Some("window_created_v2"),
            (Interface::ShellManager, 6) => Some("window_state_changed"),
            (Interface::ShellManager, 7) => Some("window_snapshot_done"),
            (Interface::ShellManager, 8) => Some("restore_finished"),
            (Interface::ShellManager, 9) => Some("close_shortcut"),
            (Interface::Callback, 1) => Some("done"),
            _ => None,
        }
    }

    fn request_table(self, opcode: u16) -> (name: Option<&'static str>)
        ensures
            name == self.request_name(opcode),
    {
        match (self, opcode) {
            (Interface::Display, 1) => Some("sync"),
            (Interface::Display, 2) => Some("get_registry"),
            (Interface::Registry, 1) => Some("bind"),
            (Interface::Compositor, 1) => Some("create_surface"),
            (Interface::Shm, 1) => Some("create_pool"),
            (Interface::ShmPool, 1) => Some("create_buffer"),
            (Interface::ShmPool, 2) => Some("resize"),
            (Interface::ShmPool, 3) => Some("destroy"),
            (Interface::ShmPool, 4) => Some("write"),
            (Interface::ShmPool, 5) => Some("write_rows"),
            (Interface::Buffer, 1) => Some("destroy"),
            (Interface::Surface, 1) => Some("destroy"),
            (Interface::Surface, 2) => Some("attach"),
            (Interface::Surface, 3) => Some("damage"),
            (Interface::Surface, 4) => Some("frame"),
            (Interface::Surface, 5) => Some("set_opaque_region"),
            (Interface::Surface, 6) => Some("set_input_region"),
            (Interface::Surface, 7) => Some("commit"),
            (Interface::Surface, 8) => Some("patch_current"),
            (Interface::XdgShell, 1) => Some("get_toplevel"),
            (Interface::XdgToplevel, 1) => Some("set_title"),
            (Interface::XdgToplevel, 2) => Some("set_app_id"),
            (Interface::XdgToplevel, 3) => Some("destroy"),
            (Interface::XdgToplevel, 4) => Some("ack_configure"),
            (Interface::XdgToplevel, 5) => Some("set_maximized"),
            (Interface::XdgToplevel, 6) => Some("unset_maximized"),
            (Interface::XdgToplevel, 7) => Some("move"),
            (Interface::XdgToplevel, 8) => Some("resize"),
            (Interface::XdgToplevel, 9) => Some("set_minimized"),
            (Interface::Seat, 1) => Some("get_pointer"),
            (Interface::Seat, 2) => Some("get_keyboard"),
            (Interface::ShellManager, 1) => Some("subscribe_windows"),
            (Interface::ShellManager, 2) => Some("focus_window"),
            (Interface::ShellManager, 3) => Some("close_window"),
            (Interface::ShellManager, 4) => Some("minimize_window"),
            (Interface::ShellManager, 5) => Some("unminimize_window"),
            (Interface::ShellManager, 6) => Some("set_work_area_bottom"),
            (Interface::ShellManager, 7) => Some("toggle_maximized_window"),
            (Interface::ShellManager, 8) => Some("desktop_ready"),
            (Interface::ShellManager, 9) => Some("subscribe_window_state"),
            (Interface::ShellManager, 10) => Some("begin_restore"),
            (Interface::ShellManager, 11) => Some("place_restored_window"),
            (Interface::ShellManager, 12) => Some("end_restore"),
            _ => None,
        }
    }

    fn event_table(self, opcode: u16) -> (name: Option<&'static str>)
        ensures
            name == self.event_name(opcode),
    {
        match (self, opcode) {
            (Interface::Display, 1) => Some("error"),
            (Interface::Display, 2) => Some("delete_id"),
            (Interface::Registry, 1) => Some("global"),
            (Interface::Registry, 2) => Some("global_remove"),
            (Interface::Shm, 1) => Some("format"),
            (Interface::Buffer, 1) => Some("release"),
            (Interface::XdgToplevel, 1) => Some("configure"),
            (Interface::XdgToplevel, 2) => Some("close"),
            (Interface::Pointer, 1) => Some("motion"),
            (Interface::Pointer, 2) => Some("button"),
            (Interface::Keyboard, 1) => Some("key"),
            (Interface::ShellManager, 1) => Some("window_created"),
            (Interface::ShellManager, 2) => Some("window_destroyed"),
            (Interface::ShellManager, 3) => Some("window_focused"),
            (Interface::ShellManager, 4) => Some("window_title_changed"),
            (Interface::ShellManager, 5) => Some("window_created_v2"),
            (Interface::ShellManager, 6) => Some("window_state_changed"),
            (Interface::ShellManager, 7) => Some("window_snapshot_done"),
            (Interface::ShellManager, 8) => Some("restore_finished"),
            (Interface::ShellManager, 9) => Some("close_shortcut"),
            (Interface::Callback, 1) => Some("done"),
            _ => None,
        }
    }

    /// The request with the given number.
    pub fn lookup_request(self, opcode: u16) -> (r: Result<Opcode, OpcodeError>)
        ensures
            match r {
                Ok(entry) => self.request_name(opcode) == Some(entry.name) && entry.number == opcode
                    && entry.direction == Direction::Request,
                Err(e) => self.request_name(opcode) is None && e == (OpcodeError::UnknownOpcode {
                    interface: self,
                    opcode,
                }),
            },
    {
        match self.request_table(opcode) {
            Some(name) => Ok(Opcode { number: opcode, direction: Direction::Request, name }),
            None => Err(OpcodeError::UnknownOpcode { interface: self, opcode }),
        }
    }

    /// The event with the given number.
    pub fn lookup_event(self, opcode: u16) -> (r: Result<Opcode, OpcodeError>)
        ensures
            match r {
                Ok(entry) => self.event_name(opcode) == Some(entry.name) && entry.number == opcode
                    && entry.direction == Direction::Event,
                Err(e) => self.event_name(opcode) is None && e == (OpcodeError::UnknownOpcode {
                    interface: self,
                    opcode,
                }),
            },
    {
        match self.event_table(opcode) {
            Some(name) => Ok(Opcode { number: opcode, direction: Direction::Event, name }),
            None => Err(OpcodeError::UnknownOpcode { interface: self, opcode }),
        }
    }
}

/// No two interfaces share a name.
pub proof fn law_names_are_distinct(a: Interface, b: Interface)
    requires
        a.name_bytes() == b.name_bytes(),
    ensures
        a == b,
{
    reveal_strlit("pmd_display");
    reveal_strlit("pmd_registry");
    reveal_strlit("pmd_compositor");
    reveal_strlit("pmd_shm");
    reveal_strlit("pmd_shm_pool");
    reveal_strlit("pmd_buffer");
    reveal_strlit("pmd_surface");
    reveal_strlit("pmd_xdg_shell");
    reveal_strlit("pmd_xdg_toplevel");
    reveal_strlit("pmd_seat");
    reveal_strlit("pmd_pointer");
    reveal_strlit("pmd_keyboard");
    reveal_strlit("pmd_shell_manager");
    reveal_strlit("pmd_callback");
    vstd::string::is_ascii_spec_bytes(a.spec_name());
    vstd::string::is_ascii_spec_bytes(b.spec_name());
    assert(a.spec_name().is_ascii());
    assert(b.spec_name().is_ascii());
    let x = a.name_bytes();
    let y = b.name_bytes();
    assert(x.len() == y.len());
    assert(x[4] == y[4] && x[5] == y[5] && x[6] == y[6]);
}

} // verus!
