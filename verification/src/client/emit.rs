//! Queueing events for a connection.

use vstd::prelude::*;
use vstd::slice::slice_subrange;

use crate::bytes::{push_bytes, push_decimal, same_bytes};
use crate::client::model;
use crate::client::model::ClientModel;
use crate::client::queue;
use crate::client::{Client, ClientError, ClientResource};
use crate::events;
use crate::events::{
    ShellWindowState, WindowStateModel, ERROR_CODE_NO_MEMORY, ERROR_CODE_PERMISSION_DENIED,
};
use crate::ids::ObjectId;
use crate::objects::Interface;
use crate::wire::{encode_message, MessageHeader, WireError, HEADER_SIZE, MAX_MESSAGE_BYTES};

use vstd::utf8;

verus! {

/// Whether an event was queued, or why it was not, and how many bytes it has.
pub open spec fn is_sent(
    before: ClientModel,
    after: ClientModel,
    r: Result<usize, ClientError>,
    object_id: ObjectId,
    opcode: u16,
    payload: Seq<u8>,
) -> bool {
    &&& after == before.emit(object_id, opcode, payload)
    &&& match r {
        Ok(bytes) => before.emit_fault(object_id, opcode, payload) is None && bytes == HEADER_SIZE
            + payload.len(),
        Err(e) => before.emit_fault(object_id, opcode, payload) == Some(e),
    }
}

/// Refuses what would take a resource beyond its limit.
pub fn ensure_capacity(
    resource: ClientResource,
    current: usize,
    additional: usize,
    limit: usize,
) -> (r: Result<(), ClientError>)
    ensures
        match r {
            Ok(_) => model::capacity_fault(
                resource,
                current as int,
                additional as int,
                limit,
            ) is None,
            Err(e) => model::capacity_fault(
                resource,
                current as int,
                additional as int,
                limit,
            ) == Some(e),
        },
{
    if current > limit || additional > limit - current {
        return Err(
            ClientError::ResourceLimitExceeded {
                resource,
                attempted: current.saturating_add(additional) as u64,
                limit: limit as u64,
            },
        );
    }
    Ok(())
}

/// Whether a new event takes the place of a queued one.
fn does_supersede(
    interface: Interface,
    object_id: ObjectId,
    opcode: u16,
    payload: &[u8],
    queued: &[u8],
) -> (r: bool)
    ensures
        r == model::supersedes(interface, object_id, opcode, payload@, queued@),
{
    if interface != Interface::ShellManager || (opcode != 4 && opcode != 6) {
        return false;
    }
    let header = match MessageHeader::decode(queued) {
        Ok(header) => header,
        Err(_) => {
            return false;
        },
    };
    if header.object_id != object_id {
        return false;
    }
    let key: usize = if opcode == 4 { 4 } else { 8 };
    if payload.len() < key || queued.len() < HEADER_SIZE + key {
        return false;
    }
    let same_kind: bool = if opcode == 4 {
        header.opcode == 4
    } else {
        header.opcode == 5 || header.opcode == 6
    };
    same_kind && same_bytes(
        slice_subrange(queued, HEADER_SIZE, HEADER_SIZE + key),
        slice_subrange(payload, 0, key),
    )
}

impl Client {
    /// The first queued event whose place a new event takes.
    fn superseded_index(
        &self,
        interface: Interface,
        object_id: ObjectId,
        opcode: u16,
        payload: &[u8],
    ) -> (r: Option<usize>)
        ensures
            match r {
                Some(index) => index < self@.events.len() && model::superseded(
                    self@.events,
                    interface,
                    object_id,
                    opcode,
                    payload@,
                    0,
                ) == Some(index as nat),
                None => model::superseded(
                    self@.events,
                    interface,
                    object_id,
                    opcode,
                    payload@,
                    0,
                ) is None,
            },
    {
        let mut i: usize = 0;
        while i < self.events.len()
            invariant
                i <= self@.events.len(),
                model::superseded(self@.events, interface, object_id, opcode, payload@, 0)
                    == model::superseded(
                    self@.events,
                    interface,
                    object_id,
                    opcode,
                    payload@,
                    i as nat,
                ),
            decreases self@.events.len() - i,
        {
            if does_supersede(interface, object_id, opcode, payload, self.events.get(i)) {
                return Some(i);
            }
            i += 1;
        }
        None
    }

    /// Queues an event. An event that does not fit marks the queue as
    /// overflowed, after which it takes nothing more.
    pub fn emit_raw(&mut self, object_id: ObjectId, opcode: u16, payload: &[u8]) -> (r: Result<
        usize,
        ClientError,
    >)
        ensures
            is_sent(old(self)@, final(self)@, r, object_id, opcode, payload@),
    {
        proof {
            reveal(model::ClientModel::emit);
        }
        if self.event_queue_overflowed {
            return Err(ClientError::EventQueueOverflowed);
        }
        let interface = match self.objects.get(object_id) {
            Some(interface) => *interface,
            None => {
                return Err(ClientError::UnknownObject { id: object_id });
            },
        };
        if interface.lookup_event(opcode).is_err() {
            return if interface.lookup_request(opcode).is_ok() {
                Err(ClientError::WrongDirection { interface, opcode })
            } else {
                Err(ClientError::UnknownOpcode { interface, opcode })
            };
        }
        if payload.len() > MAX_MESSAGE_BYTES - HEADER_SIZE {
            return Err(
                ClientError::EncodeFailed(WireError::PayloadTooLarge { payload: payload.len() }),
            );
        }
        let total: usize = HEADER_SIZE + payload.len();
        let limit: usize = self.limits.pending_event_bytes;
        match self.superseded_index(interface, object_id, opcode, payload) {
            Some(index) => {
                let queued_opcode: u16 = match MessageHeader::decode(self.events.get(index)) {
                    Ok(header) => header.opcode,
                    Err(_) => opcode,
                };
                proof {
                    queue::lemma_part_of_total(self@.events, index as int);
                    lemma_superseded(self@.events, interface, object_id, opcode, payload@, 0);
                }
                let kept: usize = self.events.bytes() - self.events.get(index).len();
                if let Err(e) = ensure_capacity(
                    ClientResource::PendingEventBytes,
                    kept,
                    total,
                    limit,
                ) {
                    self.event_queue_overflowed = true;
                    return Err(e);
                }
                self.events.replace(index, encode_message(object_id, queued_opcode, payload));
                Ok(total)
            },
            None => {
                if let Err(e) = ensure_capacity(
                    ClientResource::PendingEvents,
                    self.events.len(),
                    1,
                    self.limits.pending_events,
                ) {
                    self.event_queue_overflowed = true;
                    return Err(e);
                }
                if let Err(e) = ensure_capacity(
                    ClientResource::PendingEventBytes,
                    self.events.bytes(),
                    total,
                    limit,
                ) {
                    self.event_queue_overflowed = true;
                    return Err(e);
                }
                self.events.push(encode_message(object_id, opcode, payload));
                Ok(total)
            },
        }
    }


    /// Reports a protocol error about an object.
    pub(crate) fn report_error(
        &mut self,
        target: ObjectId,
        code: u32,
        message: &[u8],
    ) -> (r: Result<usize, ClientError>)
        ensures
            is_sent(
                old(self)@,
                final(self)@,
                r,
                ObjectId(1),
                1,
                events::display_error_payload(target, code, message@),
            ),
    {
        let payload = events::display_error(target, code, message);
        self.emit_raw(ObjectId(1), 1, payload.as_slice())
    }

    /// Reports a protocol error about an object.
    pub fn emit_error(&mut self, target: ObjectId, code: u32, message: &str) -> (r: Result<
        usize,
        ClientError,
    >)
        ensures
            is_sent(
                old(self)@,
                final(self)@,
                r,
                ObjectId(1),
                1,
                events::display_error_payload(target, code, utf8::encode_utf8(message@)),
            ),
    {
        self.report_error(target, code, message.as_bytes())
    }

    /// Offers a global.
    pub fn emit_global(
        &mut self,
        registry_id: ObjectId,
        name: u32,
        interface_name: &str,
        version: u32,
    ) -> (r: Result<usize, ClientError>)
        ensures
            is_sent(
                old(self)@,
                final(self)@,
                r,
                registry_id,
                1,
                events::registry_global_payload(
                    name,
                    utf8::encode_utf8(interface_name@),
                    version,
                ),
            ),
    {
        self.offer_global(registry_id, name, interface_name.as_bytes(), version)
    }

    /// Tells a shell that a window exists.
    pub fn emit_window_created(
        &mut self,
        shell_manager_id: ObjectId,
        window_id: u32,
        title: &str,
        app_id: &str,
    ) -> (r: Result<usize, ClientError>)
        ensures
            is_sent(
                old(self)@,
                final(self)@,
                r,
                shell_manager_id,
                1,
                events::window_created_payload(
                    window_id,
                    utf8::encode_utf8(title@),
                    utf8::encode_utf8(app_id@),
                ),
            ),
    {
        self.tell_window_created(shell_manager_id, window_id, title.as_bytes(), app_id.as_bytes())
    }

    /// Tells a shell a window's new title.
    pub fn emit_window_title_changed(
        &mut self,
        shell_manager_id: ObjectId,
        window_id: u32,
        new_title: &str,
    ) -> (r: Result<usize, ClientError>)
        ensures
            is_sent(
                old(self)@,
                final(self)@,
                r,
                shell_manager_id,
                4,
                events::window_title_changed_payload(window_id, utf8::encode_utf8(new_title@)),
            ),
    {
        self.tell_title_changed(shell_manager_id, window_id, new_title.as_bytes())
    }

    /// Tells a shell that a window exists, with its whole state.
    pub fn emit_window_created_v2(
        &mut self,
        shell_manager_id: ObjectId,
        state: &ShellWindowState,
    ) -> (r: Result<usize, ClientError>)
        ensures
            is_sent(
                old(self)@,
                final(self)@,
                r,
                shell_manager_id,
                5,
                events::window_state_payload(state@),
            ),
    {
        self.tell_window_state(shell_manager_id, state, state.snapshot_id)
    }

    /// Tells a shell a window's whole new state.
    pub fn emit_window_state_changed(
        &mut self,
        shell_manager_id: ObjectId,
        state: &ShellWindowState,
    ) -> (r: Result<usize, ClientError>)
        ensures
            is_sent(
                old(self)@,
                final(self)@,
                r,
                shell_manager_id,
                6,
                events::window_state_payload(state@),
            ),
    {
        self.tell_state_changed(shell_manager_id, state, state.snapshot_id)
    }

    /// Gives an object id back to the client.
    pub fn emit_delete_id(&mut self, id: ObjectId) -> (r: Result<usize, ClientError>)
        ensures
            is_sent(
                old(self)@,
                final(self)@,
                r,
                ObjectId(1),
                2,
                events::display_delete_id_payload(id),
            ),
    {
        let payload = events::display_delete_id(id);
        self.emit_raw(ObjectId(1), 2, payload.as_slice())
    }

    /// Fires a callback.
    pub fn emit_callback_done(
        &mut self,
        callback_id: ObjectId,
        callback_data: u32,
    ) -> (r: Result<usize, ClientError>)
        ensures
            is_sent(
                old(self)@,
                final(self)@,
                r,
                callback_id,
                1,
                events::callback_done_payload(callback_data),
            ),
    {
        let payload = events::callback_done(callback_data);
        self.emit_raw(callback_id, 1, payload.as_slice())
    }

    /// Offers a global.
    pub(crate) fn offer_global(
        &mut self,
        registry_id: ObjectId,
        name: u32,
        interface_name: &[u8],
        version: u32,
    ) -> (r: Result<usize, ClientError>)
        ensures
            is_sent(
                old(self)@,
                final(self)@,
                r,
                registry_id,
                1,
                events::registry_global_payload(name, interface_name@, version),
            ),
    {
        let payload = events::registry_global(name, interface_name, version);
        self.emit_raw(registry_id, 1, payload.as_slice())
    }

    /// Withdraws a global.
    pub fn emit_global_remove(
        &mut self,
        registry_id: ObjectId,
        name: u32,
    ) -> (r: Result<usize, ClientError>)
        ensures
            is_sent(
                old(self)@,
                final(self)@,
                r,
                registry_id,
                2,
                events::registry_global_remove_payload(name),
            ),
    {
        let payload = events::registry_global_remove(name);
        self.emit_raw(registry_id, 2, payload.as_slice())
    }

    /// Asks a toplevel to take a size and states.
    pub fn emit_xdg_toplevel_configure(
        &mut self,
        toplevel_id: ObjectId,
        serial: u32,
        width: i32,
        height: i32,
        states: u32,
    ) -> (r: Result<usize, ClientError>)
        ensures
            is_sent(
                old(self)@,
                final(self)@,
                r,
                toplevel_id,
                1,
                events::toplevel_configure_payload(serial, width, height, states),
            ),
    {
        let payload = events::toplevel_configure(serial, width, height, states);
        self.emit_raw(toplevel_id, 1, payload.as_slice())
    }

    /// Tells a shell that a window exists.
    pub(crate) fn tell_window_created(
        &mut self,
        shell_manager_id: ObjectId,
        window_id: u32,
        title: &[u8],
        app_id: &[u8],
    ) -> (r: Result<usize, ClientError>)
        ensures
            is_sent(
                old(self)@,
                final(self)@,
                r,
                shell_manager_id,
                1,
                events::window_created_payload(window_id, title@, app_id@),
            ),
    {
        let payload = events::window_created(window_id, title, app_id);
        self.emit_raw(shell_manager_id, 1, payload.as_slice())
    }

    /// Tells a shell that a window is gone.
    pub fn emit_window_destroyed(
        &mut self,
        shell_manager_id: ObjectId,
        window_id: u32,
    ) -> (r: Result<usize, ClientError>)
        ensures
            is_sent(
                old(self)@,
                final(self)@,
                r,
                shell_manager_id,
                2,
                events::window_word_payload(window_id),
            ),
    {
        let payload = events::window_word(window_id);
        self.emit_raw(shell_manager_id, 2, payload.as_slice())
    }

    /// Tells a shell which window has the focus; zero stands for none.
    pub fn emit_window_focused(
        &mut self,
        shell_manager_id: ObjectId,
        window_id: u32,
    ) -> (r: Result<usize, ClientError>)
        ensures
            is_sent(
                old(self)@,
                final(self)@,
                r,
                shell_manager_id,
                3,
                events::window_word_payload(window_id),
            ),
    {
        let payload = events::window_word(window_id);
        self.emit_raw(shell_manager_id, 3, payload.as_slice())
    }

    /// Tells a shell a window's new title.
    pub(crate) fn tell_title_changed(
        &mut self,
        shell_manager_id: ObjectId,
        window_id: u32,
        new_title: &[u8],
    ) -> (r: Result<usize, ClientError>)
        ensures
            is_sent(
                old(self)@,
                final(self)@,
                r,
                shell_manager_id,
                4,
                events::window_title_changed_payload(window_id, new_title@),
            ),
    {
        let payload = events::window_title_changed(window_id, new_title);
        self.emit_raw(shell_manager_id, 4, payload.as_slice())
    }

    /// Tells a shell that a window exists, with its whole state.
    pub(crate) fn tell_window_state(
        &mut self,
        shell_manager_id: ObjectId,
        state: &ShellWindowState,
        snapshot_id: u32,
    ) -> (r: Result<usize, ClientError>)
        ensures
            is_sent(
                old(self)@,
                final(self)@,
                r,
                shell_manager_id,
                5,
                events::window_state_payload(WindowStateModel { snapshot_id, ..state@ }),
            ),
    {
        let payload = events::window_state(state, snapshot_id);
        self.emit_raw(shell_manager_id, 5, payload.as_slice())
    }

    /// Tells a shell a window's whole new state.
    pub(crate) fn tell_state_changed(
        &mut self,
        shell_manager_id: ObjectId,
        state: &ShellWindowState,
        snapshot_id: u32,
    ) -> (r: Result<usize, ClientError>)
        ensures
            is_sent(
                old(self)@,
                final(self)@,
                r,
                shell_manager_id,
                6,
                events::window_state_payload(WindowStateModel { snapshot_id, ..state@ }),
            ),
    {
        let payload = events::window_state(state, snapshot_id);
        self.emit_raw(shell_manager_id, 6, payload.as_slice())
    }

    /// Tells a shell that every window has been listed.
    pub fn emit_window_snapshot_done(
        &mut self,
        shell_manager_id: ObjectId,
        snapshot_id: u32,
    ) -> (r: Result<usize, ClientError>)
        ensures
            is_sent(
                old(self)@,
                final(self)@,
                r,
                shell_manager_id,
                7,
                events::window_word_payload(snapshot_id),
            ),
    {
        let payload = events::window_word(snapshot_id);
        self.emit_raw(shell_manager_id, 7, payload.as_slice())
    }

    /// Tells a shell how a restore ended.
    pub fn emit_restore_finished(
        &mut self,
        shell_manager_id: ObjectId,
        restore_id: u32,
        status: u32,
        placed: u32,
    ) -> (r: Result<usize, ClientError>)
        ensures
            is_sent(
                old(self)@,
                final(self)@,
                r,
                shell_manager_id,
                8,
                events::restore_finished_payload(restore_id, status, placed),
            ),
    {
        let payload = events::restore_finished(restore_id, status, placed);
        self.emit_raw(shell_manager_id, 8, payload.as_slice())
    }

    /// Tells a shell that the user asked to close a window.
    pub fn emit_close_shortcut(
        &mut self,
        shell_manager_id: ObjectId,
        window_id: u32,
    ) -> (r: Result<usize, ClientError>)
        ensures
            is_sent(
                old(self)@,
                final(self)@,
                r,
                shell_manager_id,
                9,
                events::window_word_payload(window_id),
            ),
    {
        let payload = events::window_word(window_id);
        self.emit_raw(shell_manager_id, 9, payload.as_slice())
    }

    /// Tells the client that a buffer is no longer shown.
    pub fn emit_buffer_release(&mut self, buffer_id: ObjectId) -> (r: Result<usize, ClientError>)
        ensures
            final(self)@ == old(self)@.emit(buffer_id, 1, Seq::empty()),
            match r {
                Ok(bytes) => old(self)@.emit_fault(buffer_id, 1, Seq::empty()) is None && bytes
                    == HEADER_SIZE,
                Err(e) => old(self)@.emit_fault(buffer_id, 1, Seq::empty()) == Some(e),
            },
    {
        let payload: Vec<u8> = Vec::new();
        self.emit_raw(buffer_id, 1, payload.as_slice())
    }

    /// Asks a toplevel to close.
    pub fn emit_xdg_toplevel_close(&mut self, toplevel_id: ObjectId) -> (r: Result<
        usize,
        ClientError,
    >)
        ensures
            final(self)@ == old(self)@.emit(toplevel_id, 2, Seq::empty()),
            match r {
                Ok(bytes) => old(self)@.emit_fault(toplevel_id, 2, Seq::empty()) is None && bytes
                    == HEADER_SIZE,
                Err(e) => old(self)@.emit_fault(toplevel_id, 2, Seq::empty()) == Some(e),
            },
    {
        let payload: Vec<u8> = Vec::new();
        self.emit_raw(toplevel_id, 2, payload.as_slice())
    }


    /// Tells the client that the pointer moved over a surface.
    pub fn emit_pointer_motion(
        &mut self,
        surface_id: ObjectId,
        x: i32,
        y: i32,
    ) -> (r: Result<usize, ClientError>)
        ensures
            match old(self)@.pointer_id {
                None => final(self)@ == old(self)@ && r == Err::<usize, ClientError>(
                    ClientError::UnknownObject { id: ObjectId(0) },
                ),
                Some(device) => is_sent(
                    old(self)@,
                    final(self)@,
                    r,
                    device,
                    1,
                    events::pointer_motion_payload(surface_id, x, y),
                ),
            },
    {
        match self.pointer_id {
            Some(device) => {
                let payload = events::pointer_motion(surface_id, x, y);
                self.emit_raw(device, 1, payload.as_slice())
            },
            None => Err(ClientError::UnknownObject { id: ObjectId(0) }),
        }
    }

    /// Tells the client that a pointer button changed over a surface.
    pub fn emit_pointer_button(
        &mut self,
        serial: u32,
        surface_id: ObjectId,
        x: i32,
        y: i32,
        button: u32,
        state: u32,
    ) -> (r: Result<usize, ClientError>)
        ensures
            match old(self)@.pointer_id {
                None => final(self)@ == old(self)@ && r == Err::<usize, ClientError>(
                    ClientError::UnknownObject { id: ObjectId(0) },
                ),
                Some(device) => is_sent(
                    old(self)@,
                    final(self)@,
                    r,
                    device,
                    2,
                    events::pointer_button_payload(serial, surface_id, x, y, button, state),
                ),
            },
    {
        match self.pointer_id {
            Some(device) => {
                let payload = events::pointer_button(serial, surface_id, x, y, button, state);
                self.emit_raw(device, 2, payload.as_slice())
            },
            None => Err(ClientError::UnknownObject { id: ObjectId(0) }),
        }
    }

    /// Tells the client that a key changed.
    pub fn emit_keyboard_key(
        &mut self,
        surface_id: ObjectId,
        key: u32,
        state: u32,
    ) -> (r: Result<usize, ClientError>)
        ensures
            match old(self)@.keyboard_id {
                None => final(self)@ == old(self)@ && r == Err::<usize, ClientError>(
                    ClientError::UnknownObject { id: ObjectId(0) },
                ),
                Some(device) => is_sent(
                    old(self)@,
                    final(self)@,
                    r,
                    device,
                    1,
                    events::keyboard_key_payload(surface_id, key, state),
                ),
            },
    {
        match self.keyboard_id {
            Some(device) => {
                let payload = events::keyboard_key(surface_id, key, state);
                self.emit_raw(device, 1, payload.as_slice())
            },
            None => Err(ClientError::UnknownObject { id: ObjectId(0) }),
        }
    }

    /// The serial of the next configure event.
    pub fn next_configure_serial(&mut self) -> (serial: u32)
        ensures
            serial == old(self)@.next_configure_serial,
            final(self)@ == old(self)@.after_configure_serial(),
    {
        let serial: u32 = self.next_configure_serial;
        self.next_configure_serial = self.next_configure_serial.saturating_add(1);
        serial
    }

    /// Takes every queued event.
    pub fn drain_pending_events(&mut self) -> (out: Vec<u8>)
        ensures
            out@ == queue::joined(old(self)@.events),
            final(self)@ == (model::ClientModel { events: Seq::empty(), ..old(self)@ }),
    {
        let ghost before = self@.events;
        let total: usize = self.events.bytes();
        let out = self.drain_pending_events_bounded(total);
        proof {
            queue::lemma_all_fit(before, total as nat, 0);
            assert(before.take(before.len() as int) =~= before);
            assert(before.skip(before.len() as int) =~= Seq::<Seq<u8>>::empty());
        }
        out
    }

    /// Takes as many whole events from the front as fit into `max_bytes`.
    pub fn drain_pending_events_bounded(&mut self, max_bytes: usize) -> (out: Vec<u8>)
        ensures
            out@ == queue::joined(
                old(self)@.events.take(
                    queue::fitting(old(self)@.events, max_bytes as nat, 0) as int,
                ),
            ),
            final(self)@ == (model::ClientModel {
                events: old(self)@.events.skip(
                    queue::fitting(old(self)@.events, max_bytes as nat, 0) as int,
                ),
                ..old(self)@
            }),
    {
        self.events.drain(max_bytes)
    }

    pub fn pending_events_len(&self) -> (n: usize)
        ensures
            n == self@.events.len(),
    {
        self.events.len()
    }

    pub fn pending_event_bytes(&self) -> (n: usize)
        ensures
            n == queue::total_bytes(self@.events),
    {
        self.events.bytes()
    }

    /// The size of the event that is sent next.
    pub fn next_pending_event_bytes(&self) -> (r: Option<usize>)
        ensures
            match r {
                Some(n) => self@.events.len() > 0 && n == self@.events[0].len(),
                None => self@.events.len() == 0,
            },
    {
        if self.events.len() == 0 {
            None
        } else {
            Some(self.events.get(0).len())
        }
    }

    pub fn event_queue_overflowed(&self) -> (r: bool)
        ensures
            r == self@.overflowed,
    {
        self.event_queue_overflowed
    }

    /// Sends the error event of a refusal, if it has one.
    pub(crate) fn report_dispatch_error(&mut self, object_id: ObjectId, error: &ClientError)
        ensures
            final(self)@ == match model::error_report(object_id, *error) {
                Some((target, code, message)) => old(self)@.emit_error(target, code, message),
                None => old(self)@,
            },
    {
        let mut message: Vec<u8> = Vec::new();
        match error {
            ClientError::PermissionDenied { interface, required, new_id } => {
                push_bytes(&mut message, "permission denied: ".as_bytes());
                push_bytes(&mut message, interface.name().as_bytes());
                push_bytes(&mut message, " requires Cap::".as_bytes());
                push_bytes(&mut message, required.name().as_bytes());
                proof {
                    assert(message@ =~= (model::error_report(object_id, *error)->0).2);
                }
                let _ = self.report_error(*new_id, ERROR_CODE_PERMISSION_DENIED, message.as_slice());
            },
            ClientError::ResourceLimitExceeded { resource, attempted, limit } => {
                push_bytes(&mut message, "resource limit exceeded: ".as_bytes());
                push_bytes(&mut message, resource_label(*resource).as_bytes());
                push_bytes(&mut message, " attempted=".as_bytes());
                push_decimal(&mut message, *attempted);
                push_bytes(&mut message, " limit=".as_bytes());
                push_decimal(&mut message, *limit);
                proof {
                    assert(message@ =~= (model::error_report(object_id, *error)->0).2);
                }
                let _ = self.report_error(object_id, ERROR_CODE_NO_MEMORY, message.as_slice());
            },
            ClientError::PoolTooLarge { requested, max } => {
                push_bytes(
                    &mut message,
                    "resource limit exceeded: PoolBytes requested=".as_bytes(),
                );
                push_decimal(&mut message, *requested as u64);
                push_bytes(&mut message, " max=".as_bytes());
                push_decimal(&mut message, *max as u64);
                proof {
                    assert(message@ =~= (model::error_report(object_id, *error)->0).2);
                }
                let _ = self.report_error(object_id, ERROR_CODE_NO_MEMORY, message.as_slice());
            },
            ClientError::PoolAllocationFailed { requested } => {
                push_bytes(
                    &mut message,
                    "resource allocation failed: PoolBytes requested=".as_bytes(),
                );
                push_decimal(&mut message, *requested as u64);
                proof {
                    assert(message@ =~= (model::error_report(object_id, *error)->0).2);
                }
                let _ = self.report_error(object_id, ERROR_CODE_NO_MEMORY, message.as_slice());
            },
            _ => {},
        }
    }
}

fn resource_label(resource: ClientResource) -> (name: &'static str)
    ensures
        name@ == model::resource_name(resource),
{
    match resource {
        ClientResource::Objects => "Objects",
        ClientResource::Pools => "Pools",
        ClientResource::PoolBytes => "PoolBytes",
        ClientResource::ServerPoolBytes => "ServerPoolBytes",
        ClientResource::Buffers => "Buffers",
        ClientResource::Surfaces => "Surfaces",
        ClientResource::Toplevels => "Toplevels",
        ClientResource::ServerToplevels => "ServerToplevels",
        ClientResource::ToplevelMetadataBytesPerWindow => "ToplevelMetadataBytesPerWindow",
        ClientResource::ToplevelMetadataBytes => "ToplevelMetadataBytes",
        ClientResource::ServerToplevelMetadataBytes => "ServerToplevelMetadataBytes",
        ClientResource::PendingEvents => "PendingEvents",
        ClientResource::PendingEventBytes => "PendingEventBytes",
    }
}

/// A superseded event is one of the queue, and is superseded.
pub proof fn lemma_superseded(
    queued: Seq<Seq<u8>>,
    interface: Interface,
    object_id: ObjectId,
    opcode: u16,
    payload: Seq<u8>,
    from: nat,
)
    ensures
        match model::superseded(queued, interface, object_id, opcode, payload, from) {
            Some(index) => from <= index < queued.len() && model::supersedes(
                interface,
                object_id,
                opcode,
                payload,
                queued[index as int],
            ),
            None => true,
        },
    decreases queued.len() - from,
{
    if from < queued.len() && !model::supersedes(
        interface,
        object_id,
        opcode,
        payload,
        queued[from as int],
    ) {
        lemma_superseded(queued, interface, object_id, opcode, payload, from + 1);
    }
}

} // verus!
