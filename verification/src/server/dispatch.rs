//! Carrying out requests, and following up on them.

use vstd::prelude::*;
use vstd::slice::slice_subrange;

use crate::bytes;
use crate::client::laws;
use crate::client::model;
use crate::client::model::ClientModel;
use crate::client::ServerResourceBudgets;
use crate::ids::{ClientId, ObjectId, WindowId, WindowOwner};
use crate::objects::Interface;
use crate::ordered::OrderedSet;
use crate::requests;
use crate::requests::{
    decode_word, ShellManagerBeginRestore, ShellManagerEndRestore,
    ShellManagerPlaceRestoredWindow, SurfacePatchCurrent, XdgShellGetToplevel,
};
use crate::server::damage::{DamageModel, PresentationDamage};
use crate::server::model as server_model;
use crate::server::model::{ServerFault, ServerModel};
use crate::server::notice::{is_client, same_focus};
use crate::server::{
    Server, ServerError, SHELL_FULL_OUTPUT_POOL_BYTES, SHELL_METADATA_BYTES_RESERVED_PER_CLIENT,
    SHELL_TOPLEVELS_RESERVED_PER_CLIENT,
};
use crate::wire;
use crate::wire::{MessageHeader, HEADER_SIZE};

verus! {

broadcast use {
    crate::client::model::lemma_emit_frame,
    crate::ordered::lemma_remove_insert,
    crate::ordered::lemma_insert_same,
};

/// A limit of all connections, less what is kept back for shells.
pub open spec fn ordinary_limit(limit: int, reserved: int, shells: int) -> int {
    if limit >= reserved * shells {
        limit - reserved * shells
    } else {
        0
    }
}

impl ServerModel {
    /// What all connections hold, and how far a request of a connection may
    /// take it. What is kept back for shells only shells can use.
    pub open spec fn budgets(self, client_id: ClientId) -> ServerResourceBudgets {
        let is_shell = self.is_shell(client_id);
        let shells = self.limits.shell_clients as int;
        ServerResourceBudgets {
            pool_bytes: self.pool_bytes,
            pool_byte_limit: if is_shell {
                self.limits.pool_bytes
            } else {
                ordinary_limit(
                    self.limits.pool_bytes as int,
                    SHELL_FULL_OUTPUT_POOL_BYTES as int,
                    shells,
                ) as u64
            },
            toplevels: self.windows.dom().len() as usize,
            toplevel_limit: if is_shell {
                self.limits.toplevels
            } else {
                ordinary_limit(
                    self.limits.toplevels as int,
                    SHELL_TOPLEVELS_RESERVED_PER_CLIENT as int,
                    shells,
                ) as usize
            },
            toplevel_metadata_bytes: self.toplevel_metadata_bytes,
            toplevel_metadata_byte_limit: if is_shell {
                self.limits.toplevel_metadata_bytes
            } else {
                ordinary_limit(
                    self.limits.toplevel_metadata_bytes as int,
                    SHELL_METADATA_BYTES_RESERVED_PER_CLIENT as int,
                    shells,
                ) as u64
            },
        }
    }

    /// The kind of object that an id of a connection names.
    pub open spec fn interface_of(self, client_id: ClientId, id: ObjectId) -> Option<Interface> {
        if self.clients.contains_key(client_id) && self.clients[client_id].objects.contains_key(
            id,
        ) {
            Some(self.clients[client_id].objects[id])
        } else {
            None
        }
    }

    /// Whether a request can be numbered: one that makes a window takes
    /// numbers.
    pub open spec fn can_handle(self, client_id: ClientId, target: ObjectId, opcode: u16) -> bool {
        self.interface_of(client_id, target) == Some(Interface::XdgShell) && opcode == 1
            ==> self.can_number(client_id)
    }

    /// Whether the request that a message begins with can be numbered.
    pub open spec fn can_serve(self, client_id: ClientId, message: Seq<u8>) -> bool {
        wire::header_fault(message) is None ==> self.can_handle(
            client_id,
            wire::header_at(message).object_id,
            wire::header_at(message).opcode,
        )
    }

    /// Whether a request waits: while a window is hidden for a restore, its
    /// owner cannot maximize, move, resize or minimize it.
    pub open spec fn is_withheld(self, client_id: ClientId, target: ObjectId, opcode: u16) -> bool {
        &&& self.interface_of(client_id, target) == Some(Interface::XdgToplevel)
        &&& 5 <= opcode <= 9
        &&& self.is_hidden(WindowOwner { client_id, toplevel_id: target })
    }

    /// Whether a request of a shell follows a click on it.
    pub open spec fn is_reserved(self, client_id: ClientId, target: ObjectId, opcode: u16) -> bool {
        &&& self.interface_of(client_id, target) == Some(Interface::ShellManager)
        &&& (opcode == 2 || opcode == 3 || opcode == 4 || opcode == 5 || opcode == 7)
        &&& self.command_owner == Some(client_id)
    }

    /// The state with a connection changed, and what all hold counted anew.
    pub open spec fn recounted(self, client_id: ClientId, after: ClientModel) -> ServerModel {
        let before = self.clients[client_id];
        ServerModel {
            pool_bytes: self.pool_bytes.saturating_sub(before.pool_bytes).saturating_add(
                after.pool_bytes,
            ),
            toplevel_metadata_bytes: self.toplevel_metadata_bytes.saturating_sub(
                before.toplevel_metadata_bytes,
            ).saturating_add(after.toplevel_metadata_bytes),
            ..self.with_client(client_id, after)
        }
    }

    /// The state after a shell has said that the desktop is ready: the first
    /// time, a fence is queued.
    pub open spec fn fenced(self, client_id: ClientId) -> ServerModel {
        if self.fence_clients.contains(client_id) {
            self
        } else {
            ServerModel {
                fence_clients: self.fence_clients.insert(client_id),
                next_fence_serial: if self.next_fence_serial == u32::MAX {
                    1
                } else {
                    (self.next_fence_serial + 1) as u32
                },
                fences: self.fences.push((client_id, self.next_fence_serial)),
                ..self
            }
        }
    }

    /// What follows a shell's request.
    #[verifier::opaque]
    pub open spec fn shell_followed(
        self,
        client_id: ClientId,
        opcode: u16,
        payload: Seq<u8>,
        reserved: bool,
    ) -> ServerModel {
        let is_word = requests::size_fault(payload, 4) is None;
        let window_id = WindowId(bytes::le32_at(payload, 0));
        match opcode {
            1 => self.subscribed(client_id),
            2 => if is_word {
                self.window_focused(
                    window_id,
                    if reserved {
                        Some(client_id)
                    } else {
                        None
                    },
                )
            } else {
                self
            },
            3 => if is_word {
                self.asked_to_close(window_id)
            } else {
                self
            },
            4 => if is_word {
                self.minimized(window_id, true).0
            } else {
                self
            },
            5 => if is_word {
                self.window_focused(window_id, None)
            } else {
                self
            },
            6 => if is_word {
                ServerModel {
                    taskbar_height: crate::arith::min_int(
                        window_id.0 as int,
                        self.frame.height as int,
                    ) as u32,
                    work_area_owner: Some(client_id),
                    ..self
                }
            } else {
                self
            },
            7 => if is_word {
                self.toggled(window_id).0
            } else {
                self
            },
            8 => if self.is_shell(client_id) && payload.len() == 0 {
                self.fenced(client_id)
            } else {
                self
            },
            9 => if is_word {
                self.state_subscribed(client_id, window_id.0)
            } else {
                self
            },
            10 => if requests::size_fault(payload, 8) is None {
                self.restore_begun(client_id, ShellManagerBeginRestore::held_by(payload))
            } else {
                self
            },
            11 => if requests::size_fault(payload, 32) is None {
                self.restore_placed(client_id, ShellManagerPlaceRestoredWindow::held_by(payload))
            } else {
                self
            },
            12 => if requests::size_fault(payload, 8) is None {
                self.restore_ended(client_id, ShellManagerEndRestore::held_by(payload))
            } else {
                self
            },
            _ => self,
        }
    }

    /// The state after a surface has been destroyed: if it had the focus, the
    /// highest focusable window gets it.
    #[verifier::opaque]
    pub open spec fn surface_gone(self, client_id: ClientId, surface_id: ObjectId) -> ServerModel {
        let moved = if self.focus == Some((client_id, surface_id)) {
            let fallback = self.fallback_focus(Set::empty());
            let focused = self.focused(fallback);
            focused.announce_focus(focused.window_of_focus(fallback))
        } else {
            self
        };
        moved.changed(DamageModel::Full)
    }

    /// What follows a request about a surface; `before` is the state that it
    /// met.
    pub open spec fn surface_followed(
        self,
        before: ServerModel,
        client_id: ClientId,
        surface_id: ObjectId,
        opcode: u16,
        payload: Seq<u8>,
    ) -> ServerModel {
        match opcode {
            1 => self.surface_gone(client_id, surface_id),
            7 => self.committed(before, client_id, surface_id),
            8 => self.changed(
                if requests::surface_patch_fault(payload) is None {
                    self.patch_damage(
                        client_id,
                        surface_id,
                        bytes::le32_at(payload, 0) as i32,
                        bytes::le32_at(payload, 4) as i32,
                        bytes::le32_at(payload, 8),
                        bytes::le32_at(payload, 12),
                    )
                } else {
                    DamageModel::Full
                },
            ),
            _ => self,
        }
    }

    /// What follows a request about a toplevel, and the fault if there is one.
    #[verifier::opaque]
    pub open spec fn toplevel_followed(
        self,
        owner: WindowOwner,
        opcode: u16,
        payload: Seq<u8>,
    ) -> (ServerModel, Option<ServerFault>) {
        match opcode {
            1 => (self.retitled(owner), None),
            2 => (self.retitled(owner), None),
            3 => (self.destroyed(owner), None),
            5 => self.maximized_and_told(owner, true),
            6 => self.maximized_and_told(owner, false),
            7 => (self.dragging(owner, opcode, payload), None),
            8 => (self.dragging(owner, opcode, payload), None),
            9 => (
                if self.window_ids.contains_key(owner) {
                    self.minimized(self.window_ids[owner], true).0
                } else {
                    self
                },
                None,
            ),
            _ => (self, None),
        }
    }

    pub open spec fn maximized_and_told(self, owner: WindowOwner, maximize: bool) -> (
        ServerModel,
        Option<ServerFault>,
    ) {
        let asked = self.maximized(owner, maximize);
        if !self.has_toplevel(owner) {
            (asked, Some(ServerFault::NoSuchClient(owner.client_id)))
        } else if asked.window_ids.contains_key(owner) {
            (asked.announce_state(asked.window_ids[owner]), None)
        } else {
            (asked, None)
        }
    }

    /// The state after a surface has become a toplevel.
    #[verifier::opaque]
    pub open spec fn toplevel_made(self, client_id: ClientId, payload: Seq<u8>) -> ServerModel {
        let request = XdgShellGetToplevel::held_by(payload);
        if requests::size_fault(payload, 8) is Some {
            self
        } else {
            let owner = WindowOwner { client_id, toplevel_id: request.new_id };
            let made = self.positioned(owner).numbered(owner).created(owner);
            if made.has_toplevel(owner) && made.clients[client_id].shows(
                made.toplevel(owner).surface_id,
            ) {
                let (shown, focused) = made.first_shown(client_id, request.surface_id);
                let drawn = shown.changed(DamageModel::Full);
                match focused {
                    Some(window_id) => drawn.announce_focus(Some(window_id)),
                    None => drawn,
                }
            } else {
                made
            }
        }
    }

    /// What follows a request that has been carried out; `before` is the state
    /// that it met.
    pub open spec fn followed(
        self,
        before: ServerModel,
        client_id: ClientId,
        target: ObjectId,
        opcode: u16,
        payload: Seq<u8>,
    ) -> (ServerModel, Option<ServerFault>) {
        match before.interface_of(client_id, target) {
            Some(Interface::Surface) => (
                self.surface_followed(before, client_id, target, opcode, payload),
                None,
            ),
            Some(Interface::ShellManager) => (
                self.shell_followed(
                    client_id,
                    opcode,
                    payload,
                    before.is_reserved(client_id, target, opcode),
                ),
                None,
            ),
            Some(Interface::XdgToplevel) => self.toplevel_followed(
                WindowOwner { client_id, toplevel_id: target },
                opcode,
                payload,
            ),
            Some(Interface::XdgShell) => (
                if opcode == 1 {
                    self.toplevel_made(client_id, payload)
                } else {
                    self
                },
                None,
            ),
            _ => (self, None),
        }
    }

    /// The state after a request, and why it is refused if it is. `granted`
    /// says whether memory that the request needs can be had.
    #[verifier::opaque]
    pub open spec fn carried_out(
        self,
        client_id: ClientId,
        header: MessageHeader,
        payload: Seq<u8>,
        granted: bool,
    ) -> (ServerModel, Option<ServerFault>) {
        if self.is_withheld(client_id, header.object_id, header.opcode) {
            (self, None)
        } else if !self.clients.contains_key(client_id) {
            (self, Some(ServerFault::NoSuchClient(client_id)))
        } else {
            let step = self.clients[client_id].dispatched(
                header,
                payload,
                self.budgets(client_id),
                granted,
            );
            if step.1 is Some {
                (self.with_client(client_id, step.0), Some(ServerFault::Client(step.1->0)))
            } else {
                let counted = self.recounted(client_id, step.0);
                let reserved = self.is_reserved(client_id, header.object_id, header.opcode);
                let settled = ServerModel {
                    command_owner: if reserved {
                        None
                    } else {
                        counted.command_owner
                    },
                    ..counted
                };
                settled.followed(self, client_id, header.object_id, header.opcode, payload)
            }
        }
    }

    /// The state after the message that `message` begins with, and why it is
    /// refused if it is.
    pub open spec fn dispatched(self, client_id: ClientId, message: Seq<u8>, granted: bool) -> (
        ServerModel,
        Option<ServerFault>,
    ) {
        if wire::header_fault(message) is Some {
            (self, Some(ServerFault::Wire(wire::header_fault(message)->0)))
        } else {
            let header = wire::header_at(message);
            self.carried_out(
                client_id,
                header,
                message.subrange(HEADER_SIZE as int, header.length as int),
                granted,
            )
        }
    }
}

proof fn lemma_reserve(reserved: int, shells: int, max: int)
    requires
        reserved >= 0,
        shells >= 0,
    ensures
        reserved * shells >= 0,
{
    assert(reserved * shells >= 0) by (nonlinear_arith)
        requires
            reserved >= 0,
            shells >= 0,
    ;
}

/// A limit of all connections, less what is kept back for shells.
fn less_reserved(limit: u64, reserved: u64, shells: usize) -> (r: u64)
    ensures
        r == ordinary_limit(limit as int, reserved as int, shells as int),
{
    proof {
        lemma_reserve(reserved as int, shells as int, 0);
        assert(reserved as int * shells as int <= 0xffff_ffff_ffff_ffff * 0xffff_ffff_ffff_ffff)
            by (nonlinear_arith)
            requires
                0 <= reserved as int <= 0xffff_ffff_ffff_ffff,
                0 <= shells as int <= 0xffff_ffff_ffff_ffff,
        ;
    }
    let kept: u128 = reserved as u128 * shells as u128;
    if kept <= limit as u128 {
        limit - kept as u64
    } else {
        0
    }
}

impl Server {
    fn budgets(&self, client_id: ClientId) -> (budgets: ServerResourceBudgets)
        ensures
            budgets == self@.budgets(client_id),
    {
        let limits = self.limits;
        let shells: usize = limits.shell_clients;
        let windows: usize = self.windows.len();
        if self.is_shell(client_id) {
            return ServerResourceBudgets {
                pool_bytes: self.pool_bytes,
                pool_byte_limit: limits.pool_bytes,
                toplevels: windows,
                toplevel_limit: limits.toplevels,
                toplevel_metadata_bytes: self.toplevel_metadata_bytes,
                toplevel_metadata_byte_limit: limits.toplevel_metadata_bytes,
            };
        }
        ServerResourceBudgets {
            pool_bytes: self.pool_bytes,
            pool_byte_limit: less_reserved(
                limits.pool_bytes,
                SHELL_FULL_OUTPUT_POOL_BYTES,
                shells,
            ),
            toplevels: windows,
            toplevel_limit: less_reserved(
                limits.toplevels as u64,
                SHELL_TOPLEVELS_RESERVED_PER_CLIENT as u64,
                shells,
            ) as usize,
            toplevel_metadata_bytes: self.toplevel_metadata_bytes,
            toplevel_metadata_byte_limit: less_reserved(
                limits.toplevel_metadata_bytes,
                SHELL_METADATA_BYTES_RESERVED_PER_CLIENT,
                shells,
            ),
        }
    }

    fn interface_of(&self, client_id: ClientId, id: ObjectId) -> (r: Option<Interface>)
        ensures
            r == self@.interface_of(client_id, id),
    {
        match self.clients.get(client_id) {
            Some(client) => client.get(id),
            None => None,
        }
    }

    /// Queues a fence for a shell, the first time.
    fn queue_fence(&mut self, client_id: ClientId)
        ensures
            final(self)@ == old(self)@.fenced(client_id),
    {
        let ghost start = self@;
        if self.present_fence_clients.insert(client_id) {
            let serial: u32 = self.next_present_fence_serial;
            self.next_present_fence_serial = if serial == u32::MAX {
                1
            } else {
                serial + 1
            };
            self.pending_present_fences.push((client_id, serial));
        } else {
            proof {
                assert(self@.fence_clients =~= start.fence_clients);
            }
        }
    }

    /// Follows up on a shell's request.
    fn follow_shell(&mut self, client_id: ClientId, opcode: u16, payload: &[u8], reserved: bool)
        ensures
            final(self)@ == old(self)@.shell_followed(client_id, opcode, payload@, reserved),
    {
        proof {
            reveal(ServerModel::shell_followed);
        }
        match opcode {
            1 => {
                self.subscribe_windows_for(client_id);
            },
            2 => {
                if let Ok(id) = decode_word(payload) {
                    let shell = if reserved {
                        Some(client_id)
                    } else {
                        None
                    };
                    self.focus_window_by_id(WindowId(id), shell);
                }
            },
            3 => {
                if let Ok(id) = decode_word(payload) {
                    self.close_window_by_id(WindowId(id));
                }
            },
            4 => {
                if let Ok(id) = decode_word(payload) {
                    let _ = self.set_window_minimized(id, true);
                }
            },
            5 => {
                if let Ok(id) = decode_word(payload) {
                    self.focus_window_by_id(WindowId(id), None);
                }
            },
            6 => {
                if let Ok(px) = decode_word(payload) {
                    self.set_work_area_bottom_for(client_id, px);
                }
            },
            7 => {
                if let Ok(id) = decode_word(payload) {
                    let _ = self.toggle_window_maximized(WindowId(id));
                }
            },
            8 => {
                if payload.len() == 0 && self.is_shell(client_id) {
                    self.queue_fence(client_id);
                }
            },
            9 => {
                if let Ok(snapshot_id) = decode_word(payload) {
                    self.subscribe_window_state_for(client_id, snapshot_id);
                }
            },
            10 => {
                if let Ok(request) = ShellManagerBeginRestore::decode(payload) {
                    self.begin_restore(client_id, request);
                }
            },
            11 => {
                if let Ok(request) = ShellManagerPlaceRestoredWindow::decode(payload) {
                    self.place_restored_window(client_id, request);
                }
            },
            12 => {
                if let Ok(request) = ShellManagerEndRestore::decode(payload) {
                    self.end_restore(client_id, request);
                }
            },
            _ => {},
        }
    }

    /// Follows up on the end of a surface.
    fn follow_surface_destroy(&mut self, client_id: ClientId, surface_id: ObjectId)
        ensures
            final(self)@ == old(self)@.surface_gone(client_id, surface_id),
    {
        proof {
            reveal(ServerModel::surface_gone);
        }
        if same_focus(self.keyboard_focus, Some((client_id, surface_id))) {
            let fallback = self.fallback_keyboard_focus(&OrderedSet::new());
            self.transition_keyboard_focus(fallback);
            let focused = self.window_of_focus(fallback);
            self.broadcast_window_focused(focused);
        }
        self.request_recomposition();
    }

    /// Follows up on a request about a toplevel.
    fn follow_toplevel(&mut self, owner: WindowOwner, opcode: u16, payload: &[u8]) -> (r: Result<
        (),
        ServerError,
    >)
        ensures
            server_model::took(
                old(self)@.toplevel_followed(owner, opcode, payload@),
                final(self)@,
                r,
            ),
    {
        proof {
            reveal(ServerModel::toplevel_followed);
        }
        match opcode {
            1 => {
                self.broadcast_window_title_changed(owner);
            },
            2 => {
                self.broadcast_window_title_changed(owner);
            },
            3 => {
                self.destroy_toplevel(owner);
            },
            5 => {
                return self.follow_maximize(owner, true);
            },
            6 => {
                return self.follow_maximize(owner, false);
            },
            7 => {
                self.start_drag_from_request(owner, opcode, payload);
            },
            8 => {
                self.start_drag_from_request(owner, opcode, payload);
            },
            9 => {
                if let Some(window_id) = self.window_ids.get(owner) {
                    let id: u32 = window_id.0;
                    let _ = self.set_window_minimized(id, true);
                }
            },
            _ => {},
        }
        Ok(())
    }

    fn follow_maximize(&mut self, owner: WindowOwner, maximize: bool) -> (r: Result<
        (),
        ServerError,
    >)
        ensures
            server_model::took(
                old(self)@.maximized_and_told(owner, maximize),
                final(self)@,
                r,
            ),
    {
        if let Err(e) = self.emit_configure_for_max_state(owner, maximize) {
            return Err(e);
        }
        if let Some(window_id) = self.window_ids.get(owner) {
            let id = *window_id;
            self.broadcast_window_state_changed(id);
        }
        Ok(())
    }

    /// Follows up on a surface becoming a toplevel.
    fn follow_get_toplevel(&mut self, client_id: ClientId, payload: &[u8])
        requires
            old(self)@.has_numbers(client_id),
        ensures
            final(self)@ == old(self)@.toplevel_made(client_id, payload@),
    {
        proof {
            reveal(ServerModel::toplevel_made);
        }
        let request = match XdgShellGetToplevel::decode(payload) {
            Ok(request) => request,
            Err(_) => {
                return;
            },
        };
        let owner = WindowOwner { client_id, toplevel_id: request.new_id };
        self.position_new_toplevel(owner);
        self.assign_toplevel_ordinal(owner);
        self.broadcast_window_created(owner);
        let shows: bool = match self.clients.get(client_id) {
            Some(client) => match client.toplevels.get(request.new_id) {
                Some(toplevel) => client.shows(toplevel.surface_id),
                None => false,
            },
            None => false,
        };
        if shows {
            let focused = self.focus_newly_mapped_toplevel(client_id, request.surface_id);
            self.request_recomposition();
            if let Some(window_id) = focused {
                self.broadcast_window_focused(Some(window_id));
            }
        }
    }

    /// Whether the request that a message begins with can be numbered.
    pub fn can_serve(&self, client_id: ClientId, message: &[u8]) -> (r: bool)
        ensures
            r == self@.can_serve(client_id, message@),
    {
        let header = match MessageHeader::decode(message) {
            Ok(header) => header,
            Err(_) => {
                return true;
            },
        };
        match self.interface_of(client_id, header.object_id) {
            Some(Interface::XdgShell) => header.opcode != 1 || self.can_number_window(client_id),
            _ => true,
        }
    }

    /// Carries out the request of a connection that `message` begins with.
    ///
    /// Whether memory for a pool can be had is not known beforehand; the
    /// outcome is the one for either answer.
    pub fn dispatch_request(&mut self, client_id: ClientId, message: &[u8]) -> (r: Result<
        (),
        ServerError,
    >)
        requires
            old(self)@.can_serve(client_id, message@),
        ensures
            exists|granted: bool|
                server_model::took(
                    #[trigger] old(self)@.dispatched(client_id, message@, granted),
                    final(self)@,
                    r,
                ),
    {
        let ghost start = self@;
        let header = match MessageHeader::decode(message) {
            Ok(header) => header,
            Err(e) => {
                assert(start.dispatched(client_id, message@, true).1 is Some);
                return Err(ServerError::from(e));
            },
        };
        let payload = slice_subrange(message, HEADER_SIZE, header.length as usize);
        let (r, granted) = self.carry_out(client_id, header, payload);
        assert(server_model::took(
            start.dispatched(client_id, message@, granted@),
            self@,
            r,
        ));
        r
    }

    fn carry_out(&mut self, client_id: ClientId, header: MessageHeader, payload: &[u8]) -> (r: (
        Result<(), ServerError>,
        Ghost<bool>,
    ))
        requires
            old(self)@.can_handle(client_id, header.object_id, header.opcode),
        ensures
            server_model::took(
                old(self)@.carried_out(client_id, header, payload@, r.1@),
                final(self)@,
                r.0,
            ),
    {
        proof {
            reveal(ServerModel::carried_out);
        }
        let ghost start = self@;
        let target = header.object_id;
        let opcode: u16 = header.opcode;
        let interface = self.interface_of(client_id, target);
        let is_toplevel: bool = match interface {
            Some(kind) => kind == Interface::XdgToplevel,
            None => false,
        };
        let is_surface: bool = match interface {
            Some(kind) => kind == Interface::Surface,
            None => false,
        };
        let is_manager: bool = match interface {
            Some(kind) => kind == Interface::ShellManager,
            None => false,
        };
        let is_xdg_shell: bool = match interface {
            Some(kind) => kind == Interface::XdgShell,
            None => false,
        };
        let owner = WindowOwner { client_id, toplevel_id: target };
        if is_toplevel && 5 <= opcode && opcode <= 9 && self.is_hidden(owner) {
            return (Ok(()), Ghost(true));
        }
        let candidate = if is_surface && opcode == 7 {
            self.surface_commit_damage_candidate(client_id, target)
        } else {
            (PresentationDamage::Full, None)
        };
        let size_before = match self.clients.get(client_id) {
            Some(client) => client.shown_size(target),
            None => {
                return (Err(ServerError::NoSuchClient { id: client_id }), Ghost(true));
            },
        };
        let reserved: bool = is_manager && (opcode == 2 || opcode == 3 || opcode == 4 || opcode == 5
            || opcode == 7) && is_client(self.pending_shell_command_owner, client_id);
        let (done, granted) = self.dispatch_to_client(client_id, header, payload);
        if let Err(e) = done {
            return (Err(e), granted);
        }
        if reserved {
            self.pending_shell_command_owner = None;
        }
        if is_surface {
            if opcode == 7 {
                self.follow_commit(client_id, target, size_before, candidate, Ghost(start));
            } else if opcode == 8 {
                let damage = match SurfacePatchCurrent::decode(payload) {
                    Ok(patch) => self.surface_patch_presentation_damage(
                        client_id,
                        target,
                        patch.x,
                        patch.y,
                        patch.width,
                        patch.height,
                    ),
                    Err(_) => PresentationDamage::Full,
                };
                self.request_recomposition_with_damage(&damage);
            } else if opcode == 1 {
                self.follow_surface_destroy(client_id, target);
            }
        } else if is_manager {
            self.follow_shell(client_id, opcode, payload, reserved);
        } else if is_toplevel {
            let r = self.follow_toplevel(owner, opcode, payload);
            return (r, granted);
        } else if is_xdg_shell && opcode == 1 {
            self.follow_get_toplevel(client_id, payload);
        }
        (Ok(()), granted)
    }

    /// Lets a connection carry out a request, within what it may use of what
    /// all connections share.
    fn dispatch_to_client(
        &mut self,
        client_id: ClientId,
        header: MessageHeader,
        payload: &[u8],
    ) -> (r: (Result<(), ServerError>, Ghost<bool>))
        requires
            old(self)@.can_handle(client_id, header.object_id, header.opcode),
            old(self)@.clients.contains_key(client_id),
        ensures
            ({
                let step = old(self)@.clients[client_id].dispatched(
                    header,
                    payload@,
                    old(self)@.budgets(client_id),
                    r.1@,
                );
                match r.0 {
                    Ok(_) => step.1 is None && final(self)@ == old(self)@.recounted(
                        client_id,
                        step.0,
                    ) && (old(self)@.can_number(client_id) ==> final(self)@.has_numbers(
                        client_id,
                    )),
                    Err(ServerError::Client(e)) => step.1 is Some && model::reports(e, step.1->0)
                        && final(self)@ == old(self)@.with_client(client_id, step.0),
                    Err(_) => false,
                }
            }),
    {
        let ghost start = self@;
        let budgets = self.budgets(client_id);
        let mut pool_before: u64 = 0;
        let mut pool_after: u64 = 0;
        let mut text_before: u64 = 0;
        let mut text_after: u64 = 0;
        let ghost mut granted: bool = true;
        if let Some(client) = self.clients.get_mut(client_id) {
            pool_before = client.pool_bytes_len();
            text_before = client.toplevel_metadata_bytes_len();
            let done = client.dispatch_request_with_server_budgets(header, payload, budgets);
            proof {
                granted = choose|granted: bool|
                    model::took(
                        #[trigger] start.clients[client_id].dispatched(
                            header,
                            payload@,
                            budgets,
                            granted,
                        ),
                        client@,
                        done,
                    );
                laws::law_dispatch_keeps_connection(
                    start.clients[client_id],
                    header,
                    payload@,
                    budgets,
                    granted,
                );
            }
            if let Err(e) = done {
                return (Err(ServerError::from(e)), Ghost(granted));
            }
            pool_after = client.pool_bytes_len();
            text_after = client.toplevel_metadata_bytes_len();
        }
        self.pool_bytes = self.pool_bytes.saturating_sub(pool_before).saturating_add(pool_after);
        self.toplevel_metadata_bytes = self.toplevel_metadata_bytes.saturating_sub(
            text_before,
        ).saturating_add(text_after);
        (Ok(()), Ghost(granted))
    }
}

} // verus!
