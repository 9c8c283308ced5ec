//! What holds of a server however it has been used since it started.

use vstd::prelude::*;

use crate::caps::CapSet;
use crate::ids::ClientId;
use crate::protocol::keymap::KeymapModel;
use crate::server::model::ServerModel;
use crate::server::sound;
use crate::server::ServerLimits;
use crate::sums;

verus! {

/// Something that happens to a server.
pub enum Happening {
    /// A connection asks to be accepted, and may be refused.
    Accept { caps: CapSet, peer_pid: u32 },
    /// A connection sends a request, which may be refused. `granted` says
    /// whether memory that the request needs can be had.
    Dispatch { client_id: ClientId, message: Seq<u8>, granted: bool },
    /// A connection sends a request and is told of globals if it asks.
    Serve { client_id: ClientId, message: Seq<u8>, granted: bool },
    /// A connection goes.
    Disconnect { client_id: ClientId },
    /// The pointer moves.
    Motion { x: i32, y: i32 },
    /// A button of the pointer changes.
    Button { button: u32, state: u32 },
    /// A key changes.
    Key { key: u32, state: u32 },
    /// Time passes.
    Time { now_ms: u64 },
    /// The picture is shown.
    Presented { callback_data: u32 },
    /// Frame callbacks are reported, as many as the budget allows.
    Reported { budget: nat },
}

impl ServerModel {
    /// The state after something has happened.
    pub open spec fn after(self, happening: Happening) -> ServerModel {
        match happening {
            Happening::Accept { caps, peer_pid } => if self.accept_fault(caps) is None {
                self.accepted(caps, peer_pid)
            } else {
                self
            },
            Happening::Dispatch { client_id, message, granted } => self.dispatched(
                client_id,
                message,
                granted,
            ).0,
            Happening::Serve { client_id, message, granted } => self.served(
                client_id,
                message,
                granted,
            ),
            Happening::Disconnect { client_id } => self.disconnected(client_id),
            Happening::Motion { x, y } => self.pointer_moved(x, y).0,
            Happening::Button { button, state } => self.button_changed(button, state).0,
            Happening::Key { key, state } => self.key_changed(key, state).0,
            Happening::Time { now_ms } => self.at_time(now_ms),
            Happening::Presented { callback_data } => self.presented(callback_data),
            Happening::Reported { budget } => self.callbacks_drained(budget).server,
        }
    }

    /// Whether something can happen: a window that is asked for can be
    /// numbered, and the number of a connection is not in use.
    pub open spec fn can_happen(self, happening: Happening) -> bool {
        match happening {
            Happening::Accept { caps, .. } => self.accept_fault(caps) is None
                ==> !self.clients.contains_key(ClientId(self.next_client_id)),
            Happening::Dispatch { client_id, message, .. } => self.can_serve(client_id, message),
            Happening::Serve { client_id, message, .. } => self.can_serve(client_id, message),
            _ => true,
        }
    }

    /// The state after a history.
    pub open spec fn after_all(self, history: Seq<Happening>) -> ServerModel
        decreases history.len(),
    {
        if history.len() == 0 {
            self
        } else {
            self.after_all(history.drop_last()).after(history.last())
        }
    }

    /// Whether a history can happen, one step after the other.
    pub open spec fn all_can_happen(self, history: Seq<Happening>) -> bool
        decreases history.len(),
    {
        history.len() == 0 || {
            &&& self.all_can_happen(history.drop_last())
            &&& self.after_all(history.drop_last()).can_happen(history.last())
        }
    }
}

/// Whatever happens, a sound server stays sound, and its limits stay what they
/// are.
pub proof fn law_happening_keeps_sound(s: ServerModel, happening: Happening)
    requires
        s.is_sound(),
        s.can_happen(happening),
    ensures
        s.after(happening).is_sound(),
        s.after(happening).limits == s.limits,
{
    match happening {
        Happening::Accept { caps, peer_pid } => {
            if s.accept_fault(caps) is None {
                sound::law_accept_keeps_sound(s, caps, peer_pid);
            }
        },
        Happening::Dispatch { client_id, message, granted } => {
            sound::law_dispatch_keeps_sound(s, client_id, message, granted);
        },
        Happening::Serve { client_id, message, granted } => {
            sound::law_dispatch_keeps_sound(s, client_id, message, granted);
        },
        Happening::Disconnect { client_id } => {
            sound::law_disconnect_keeps_sound(s, client_id);
        },
        Happening::Motion { x, y } => {
            sound::law_input_keeps_sound(s, x, y, 0, 0, 0, 0);
        },
        Happening::Button { button, state } => {
            sound::law_input_keeps_sound(s, 0, 0, button, 0, state, 0);
        },
        Happening::Key { key, state } => {
            sound::law_input_keeps_sound(s, 0, 0, 0, key, state, 0);
        },
        Happening::Time { now_ms } => {
            sound::law_input_keeps_sound(s, 0, 0, 0, 0, 0, now_ms);
        },
        Happening::Presented { callback_data } => {
            sound::law_frames_keep_sound(s, callback_data, 0);
        },
        Happening::Reported { budget } => {
            sound::law_frames_keep_sound(s, 0, budget);
        },
    }
}

/// However a server has been used since it started, it is sound: what its
/// connections hold together is what it counts, and within the limits that it
/// started with. Requests and connections that were refused make no difference
/// to that.
pub proof fn law_accounts_hold_throughout(
    width: u32,
    height: u32,
    limits: ServerLimits,
    default_keymap: KeymapModel,
    history: Seq<Happening>,
)
    requires
        ServerModel::fresh(width, height, limits, default_keymap).all_can_happen(history),
    ensures
        ({
            let s = ServerModel::fresh(width, height, limits, default_keymap).after_all(history);
            &&& s.is_sound()
            &&& s.limits == limits
            &&& s.pool_bytes == sums::map_total(s.clients, sound::pool_bytes_held())
            &&& s.pool_bytes <= limits.pool_bytes
            &&& s.toplevel_metadata_bytes == sums::map_total(s.clients, sound::text_bytes_held())
            &&& s.toplevel_metadata_bytes <= limits.toplevel_metadata_bytes
            &&& s.clients.dom().len() <= limits.clients
            &&& s.windows.dom().len() <= limits.toplevels
        }),
    decreases history.len(),
{
    let start = ServerModel::fresh(width, height, limits, default_keymap);
    if history.len() == 0 {
        sound::law_fresh_is_sound(width, height, limits, default_keymap);
    } else {
        law_accounts_hold_throughout(
            width,
            height,
            limits,
            default_keymap,
            history.drop_last(),
        );
        law_happening_keeps_sound(start.after_all(history.drop_last()), history.last());
    }
}

/// As long as numbers for connections are left, the next one is not in use.
pub proof fn law_next_number_is_free(s: ServerModel)
    requires
        s.is_sound(),
        s.next_client_id < u32::MAX,
    ensures
        !s.clients.contains_key(ClientId(s.next_client_id)),
{
}

} // verus!
