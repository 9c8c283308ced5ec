//! What the server is: its state, and what can be read off it.

use vstd::prelude::*;

use crate::arith;
use crate::client::model::{ClientModel, Fault, ToplevelModel};
use crate::compositor::FramebufferModel;
use crate::events;
use crate::events::{
    WindowStateModel, WINDOW_FOCUSED, WINDOW_HIDDEN_FOR_RESTORE, WINDOW_MAPPED, WINDOW_MAXIMIZED,
    WINDOW_MINIMIZED, WINDOW_RESTORE_PLACEMENT_APPLIED, WINDOW_SHELL_OWNED,
};
use crate::ids::{ClientId, ObjectId, WindowId, WindowOwner};
use crate::layout::KeyboardLayout;
use crate::protocol::keymap::KeymapModel;
use crate::server::damage::DamageModel;
use crate::server::{DragState, RestorePlacement, ServerError, ServerLimits};
use crate::client::model;
use crate::wire::WireError;

verus! {

#[verifier::ext_equal]
pub struct RestoreModel {
    pub owner: ClientId,
    pub restore_id: u32,
    pub deadline_ms: u64,
    pub hidden: Set<WindowId>,
    pub placements: Map<WindowId, RestorePlacement>,
}

#[verifier::ext_equal]
pub struct ServerModel {
    pub next_client_id: u32,
    pub clients: Map<ClientId, ClientModel>,
    pub limits: ServerLimits,
    pub pool_bytes: u64,
    pub toplevel_metadata_bytes: u64,
    pub next_window_id: u32,
    pub windows: Map<WindowId, WindowOwner>,
    pub window_ids: Map<WindowOwner, WindowId>,
    pub ordinals: Map<u32, u32>,
    pub z_order: Seq<WindowId>,
    pub frame: FramebufferModel,
    pub scene_generation: u64,
    pub recomposition_serial: u64,
    pub deferred: bool,
    pub pending: bool,
    pub damage: DamageModel,
    pub pointer_x: i32,
    pub pointer_y: i32,
    pub next_pointer_serial: u32,
    pub focus: Option<(ClientId, ObjectId)>,
    pub layout: KeyboardLayout,
    pub active_keymap: KeymapModel,
    pub logical_keymap: KeymapModel,
    pub shift_mask: u8,
    pub alt_mask: u8,
    pub f4_down: bool,
    pub f4_consumed: bool,
    pub taskbar_height: u32,
    pub work_area_owner: Option<ClientId>,
    pub command_owner: Option<ClientId>,
    pub commit_owner: Option<ClientId>,
    pub next_fence_serial: u32,
    pub fence_clients: Set<ClientId>,
    pub fences: Seq<(ClientId, u32)>,
    pub callback_cursor: u32,
    pub monotonic_ms: u64,
    pub restore: Option<RestoreModel>,
    pub drag: Option<DragState>,
    pub next_toplevel_offset: i32,
}

/// Why the server refuses a request.
pub enum ServerFault {
    NoSuchClient(ClientId),
    Wire(WireError),
    Client(Fault),
}

/// Whether an error reports a fault.
pub open spec fn reports(e: ServerError, fault: ServerFault) -> bool {
    match (e, fault) {
        (ServerError::NoSuchClient { id }, ServerFault::NoSuchClient(known)) => id == known,
        (ServerError::Wire(error), ServerFault::Wire(known)) => error == known,
        (ServerError::Client(error), ServerFault::Client(known)) => model::reports(error, known),
        _ => false,
    }
}

/// Whether a result is what a step says: success, or the step's fault.
pub open spec fn answers(r: Result<(), ServerError>, fault: Option<ServerFault>) -> bool {
    match r {
        Ok(_) => fault is None,
        Err(e) => fault is Some && reports(e, fault->0),
    }
}

/// Whether a step led to `after` and was answered by `r`.
pub open spec fn took(
    step: (ServerModel, Option<ServerFault>),
    after: ServerModel,
    r: Result<(), ServerError>,
) -> bool {
    after == step.0 && answers(r, step.1)
}

impl ClientModel {
    /// Whether a surface shows something.
    pub open spec fn shows(self, surface_id: ObjectId) -> bool {
        self.surfaces.contains_key(surface_id) && self.surfaces[surface_id].current_buffer is Some
    }

    /// The size of the buffer that a surface shows.
    pub open spec fn shown_size(self, surface_id: ObjectId) -> Option<(u32, u32)> {
        if self.shows(surface_id) && self.buffers.contains_key(
            (self.surfaces[surface_id].current_buffer->0).buffer_id,
        ) {
            let buffer = self.buffers[(self.surfaces[surface_id].current_buffer->0).buffer_id];
            Some((buffer.width, buffer.height))
        } else {
            None
        }
    }
}

/// The place of a window in an order, from `from` on.
pub open spec fn rank_of(order: Seq<WindowId>, window_id: WindowId, from: nat) -> Option<nat>
    decreases order.len() - from,
{
    if from >= order.len() {
        None
    } else if order[from as int] == window_id {
        Some(from)
    } else {
        rank_of(order, window_id, from + 1)
    }
}

/// The place of a window is the first one that holds it.
pub proof fn lemma_rank_of(order: Seq<WindowId>, window_id: WindowId, from: nat)
    ensures
        match rank_of(order, window_id, from) {
            Some(rank) => from <= rank < order.len() && order[rank as int] == window_id && (
            forall|i: int| from <= i < rank ==> #[trigger] order[i] != window_id),
            None => forall|i: int| from <= i < order.len() ==> #[trigger] order[i] != window_id,
        },
    decreases order.len() - from,
{
    if from < order.len() && order[from as int] != window_id {
        lemma_rank_of(order, window_id, from + 1);
    }
}

impl ServerModel {
    pub open spec fn with_client(self, id: ClientId, client: ClientModel) -> ServerModel {
        ServerModel { clients: self.clients.insert(id, client), ..self }
    }

    /// Whether a connection is there and holds the shell capability.
    pub open spec fn is_shell(self, id: ClientId) -> bool {
        self.clients.contains_key(id) && self.clients[id].is_shell()
    }

    pub open spec fn has_toplevel(self, owner: WindowOwner) -> bool {
        self.clients.contains_key(owner.client_id)
            && self.clients[owner.client_id].toplevels.contains_key(owner.toplevel_id)
    }

    pub open spec fn toplevel(self, owner: WindowOwner) -> ToplevelModel {
        self.clients[owner.client_id].toplevels[owner.toplevel_id]
    }

    pub open spec fn with_toplevel(self, owner: WindowOwner, toplevel: ToplevelModel) -> ServerModel {
        self.with_client(
            owner.client_id,
            self.clients[owner.client_id].with_toplevel_state(owner.toplevel_id, toplevel),
        )
    }

    /// Whether a toplevel is there and hidden until a restore ends.
    pub open spec fn is_hidden(self, owner: WindowOwner) -> bool {
        self.has_toplevel(owner) && self.toplevel(owner).hidden_for_restore
    }

    /// The window that a surface has become.
    pub open spec fn window_of_surface(self, client_id: ClientId, surface_id: ObjectId) -> Option<
        WindowId,
    > {
        if self.clients.contains_key(client_id)
            && self.clients[client_id].toplevel_by_surface.contains_key(surface_id) {
            let owner = WindowOwner {
                client_id,
                toplevel_id: self.clients[client_id].toplevel_by_surface[surface_id],
            };
            if self.window_ids.contains_key(owner) {
                Some(self.window_ids[owner])
            } else {
                None
            }
        } else {
            None
        }
    }

    /// The window of a focused surface.
    pub open spec fn window_of_focus(self, focus: Option<(ClientId, ObjectId)>) -> Option<
        WindowId,
    > {
        match focus {
            Some((client_id, surface_id)) => self.window_of_surface(client_id, surface_id),
            None => None,
        }
    }

    /// The connection and surface of a window.
    pub open spec fn focus_target(self, window_id: WindowId) -> Option<(ClientId, ObjectId)> {
        if self.windows.contains_key(window_id) && self.has_toplevel(self.windows[window_id]) {
            let owner = self.windows[window_id];
            Some((owner.client_id, self.toplevel(owner).surface_id))
        } else {
            None
        }
    }

    /// Whether a window can have the keyboard focus: it shows something, and
    /// is neither minimized nor hidden.
    pub open spec fn is_focusable(self, window_id: WindowId) -> bool {
        self.windows.contains_key(window_id) && self.has_toplevel(self.windows[window_id]) && {
            let owner = self.windows[window_id];
            let toplevel = self.toplevel(owner);
            !toplevel.minimized && !toplevel.hidden_for_restore
                && self.clients[owner.client_id].shows(toplevel.surface_id)
        }
    }

    /// Whether a restore has a window where it is to be.
    pub open spec fn is_settled(self, window_id: WindowId) -> bool {
        self.restore is Some && (self.restore->0).placements.contains_key(window_id) && (
        self.restore->0).placements[window_id].settled
    }

    pub open spec fn work_area_height(self) -> u32 {
        self.frame.height.saturating_sub(self.taskbar_height)
    }

    /// Where a toplevel's picture is, and its size; nothing where it shows
    /// none.
    pub open spec fn window_bounds(self, owner: WindowOwner) -> (i32, i32, u32, u32) {
        let client = self.clients[owner.client_id];
        let toplevel = self.toplevel(owner);
        match client.shown_size(toplevel.surface_id) {
            Some((width, height)) => {
                let attachment = client.surfaces[toplevel.surface_id].current_buffer->0;
                (
                    arith::sat_i32(toplevel.x + attachment.x),
                    arith::sat_i32(toplevel.y + attachment.y),
                    width,
                    height,
                )
            },
            None => (toplevel.x, toplevel.y, 0, 0),
        }
    }

    pub open spec fn window_flags(self, window_id: WindowId, owner: WindowOwner) -> int {
        let client = self.clients[owner.client_id];
        let toplevel = self.toplevel(owner);
        (if client.shows(toplevel.surface_id) {
            WINDOW_MAPPED as int
        } else {
            0
        }) + (if toplevel.minimized {
            WINDOW_MINIMIZED as int
        } else {
            0
        }) + (if toplevel.maximized {
            WINDOW_MAXIMIZED as int
        } else {
            0
        }) + (if self.focus == Some((owner.client_id, toplevel.surface_id)) {
            WINDOW_FOCUSED as int
        } else {
            0
        }) + (if toplevel.hidden_for_restore {
            WINDOW_HIDDEN_FOR_RESTORE as int
        } else {
            0
        }) + (if self.is_settled(window_id) {
            WINDOW_RESTORE_PLACEMENT_APPLIED as int
        } else {
            0
        }) + (if client.is_shell() {
            WINDOW_SHELL_OWNED as int
        } else {
            0
        })
    }

    /// The state of a window, as reported to the shell.
    pub open spec fn window_state(self, window_id: WindowId) -> Option<WindowStateModel> {
        let rank = rank_of(self.z_order, window_id, 0);
        if rank is None || !self.windows.contains_key(window_id) || !self.has_toplevel(
            self.windows[window_id],
        ) {
            None
        } else {
            let owner = self.windows[window_id];
            let toplevel = self.toplevel(owner);
            let bounds = self.window_bounds(owner);
            Some(
                WindowStateModel {
                    snapshot_id: 0,
                    window_id: window_id.0,
                    owner_pid: self.clients[owner.client_id].peer_pid,
                    ordinal: toplevel.ordinal,
                    current_x: bounds.0,
                    current_y: bounds.1,
                    current_width: bounds.2,
                    current_height: bounds.3,
                    normal_x: toplevel.normal_x,
                    normal_y: toplevel.normal_y,
                    normal_width: toplevel.normal_width,
                    normal_height: toplevel.normal_height,
                    flags: self.window_flags(window_id, owner) as u32,
                    z_rank: rank->0 as u32,
                    title: toplevel.title,
                    app_id: toplevel.app_id,
                },
            )
        }
    }
}

/// What shells are told of windows.
pub enum NoticeModel {
    Created {
        window_id: u32,
        title: Seq<u8>,
        app_id: Seq<u8>,
        state: Option<WindowStateModel>,
    },
    Destroyed { window_id: u32 },
    Focused { window_id: u32 },
    TitleChanged { window_id: u32, title: Seq<u8> },
    StateChanged { state: WindowStateModel },
}

impl ClientModel {
    /// Whether the connection follows the windows in either way.
    pub open spec fn follows_windows(self) -> bool {
        self.shell_manager_subscribed || self.shell_manager_state_snapshot_id is Some
    }

    /// The state after the connection has been told of a window, as far as it
    /// asked to be.
    pub open spec fn told(self, notice: NoticeModel) -> ClientModel {
        if self.shell_manager_id is None {
            self
        } else {
            let manager = self.shell_manager_id->0;
            let snapshot = self.shell_manager_state_snapshot_id;
            match notice {
                NoticeModel::Created { window_id, title, app_id, state } => {
                    let listed = if self.shell_manager_subscribed {
                        self.emit(
                            manager,
                            1,
                            events::window_created_payload(window_id, title, app_id),
                        )
                    } else {
                        self
                    };
                    if snapshot is Some && state is Some {
                        listed.emit(
                            manager,
                            5,
                            events::window_state_payload(
                                WindowStateModel { snapshot_id: snapshot->0, ..state->0 },
                            ),
                        )
                    } else {
                        listed
                    }
                },
                NoticeModel::Destroyed { window_id } => if self.follows_windows() {
                    self.emit(manager, 2, events::window_word_payload(window_id))
                } else {
                    self
                },
                NoticeModel::Focused { window_id } => if self.follows_windows() {
                    self.emit(manager, 3, events::window_word_payload(window_id))
                } else {
                    self
                },
                NoticeModel::TitleChanged { window_id, title } => if self.shell_manager_subscribed {
                    self.emit(
                        manager,
                        4,
                        events::window_title_changed_payload(window_id, title),
                    )
                } else {
                    self
                },
                NoticeModel::StateChanged { state } => if snapshot is Some {
                    self.emit(
                        manager,
                        6,
                        events::window_state_payload(
                            WindowStateModel { snapshot_id: snapshot->0, ..state },
                        ),
                    )
                } else {
                    self
                },
            }
        }
    }
}

impl ServerModel {
    /// The state after every connection has been told of a window.
    #[verifier::opaque]
    pub open spec fn announce(self, notice: NoticeModel) -> ServerModel {
        ServerModel {
            clients: Map::new(
                |id: ClientId| self.clients.contains_key(id),
                |id: ClientId| self.clients[id].told(notice),
            ),
            ..self
        }
    }

    pub open spec fn announce_focus(self, window_id: Option<WindowId>) -> ServerModel {
        self.announce(
            NoticeModel::Focused {
                window_id: match window_id {
                    Some(id) => id.0,
                    None => 0,
                },
            },
        )
    }

    /// The state after every connection has been told a window's state, if the
    /// window is there.
    #[verifier::opaque]
    pub open spec fn announce_state(self, window_id: WindowId) -> ServerModel {
        match self.window_state(window_id) {
            Some(state) => self.announce(NoticeModel::StateChanged { state }),
            None => self,
        }
    }

    /// The same for several windows in turn.
    pub open spec fn announce_states(self, window_ids: Seq<WindowId>) -> ServerModel
        decreases window_ids.len(),
    {
        if window_ids.len() == 0 {
            self
        } else {
            self.announce_states(window_ids.drop_last()).announce_state(window_ids.last())
        }
    }
}

} // verus!
