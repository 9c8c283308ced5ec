//! All connections together: their windows, the focus and the picture.

use vstd::prelude::*;

use crate::client::{Client, ClientError, MAX_CLIENT_TOPLEVEL_METADATA_BYTES};
use crate::compositor::Framebuffer;
use crate::ids::{ClientId, ObjectId, WindowId, WindowOwner};
use crate::layout::KeyboardLayout;
use crate::ordered::{OrderedMap, OrderedSet};
use crate::protocol::keymap::Keymap;
use crate::wire::WireError;

pub mod comings;
pub mod commit;
pub mod connections;
pub mod coverage;
pub mod damage;
pub mod desk;
pub mod dispatch;
pub mod fences;
pub mod focus;
pub mod frames;
pub mod greetings;
pub mod history;
pub mod holdings;
pub mod inputs;
pub mod keyboard;
pub mod laws;
pub mod mapping;
pub mod marks;
pub mod model;
pub mod notice;
pub mod painting;
pub mod partings;
pub mod pixels;
pub mod pointer;
pub mod promises;
pub mod reports;
pub mod restore;
pub mod restoring;
pub mod scene;
pub mod serve;
pub mod shells;
pub mod sizes;
pub mod snapshots;
pub mod sound;
pub mod telling;
pub mod titles;
pub mod toplevels;
pub mod windows;

use damage::PresentationDamage;
use model::{RestoreModel, ServerModel};

verus! {

/// The most connections at a time.
pub const MAX_SERVER_CLIENTS: usize = 64;

/// The most connections at a time that hold the shell capability.
pub const MAX_SERVER_SHELL_CLIENTS: usize = 2;

/// The most connections at a time that do not.
pub const MAX_SERVER_ORDINARY_CLIENTS: usize = MAX_SERVER_CLIENTS - MAX_SERVER_SHELL_CLIENTS;

/// The most pool memory of all connections together.
pub const MAX_SERVER_POOL_BYTES: u64 = 128 * 1024 * 1024;

/// The most windows of all connections together.
pub const MAX_SERVER_TOPLEVELS: usize = 512;

/// The most bytes of titles and application ids of all windows together.
pub const MAX_SERVER_TOPLEVEL_METADATA_BYTES: u64 = 64 * 1024;

/// The most frame callbacks that are reported in one turn.
pub const MAX_FRAME_CALLBACK_COMPLETIONS_PER_TURN: usize = 64;

pub const MIN_SHELL_RESTORE_TIMEOUT_MS: u32 = 1;

/// Pool memory kept back for each shell: two buffers of the whole output.
pub const SHELL_FULL_OUTPUT_POOL_BYTES: u64 = 1024 * 768 * 4 * 2;

/// Windows kept back for each shell.
pub const SHELL_TOPLEVELS_RESERVED_PER_CLIENT: usize = 1;

/// Bytes of titles and application ids kept back for each shell.
pub const SHELL_METADATA_BYTES_RESERVED_PER_CLIENT: u64 = 880;

/// The most bytes of events that a snapshot of all windows takes.
pub const MAX_SERVER_WINDOW_SNAPSHOT_BYTES: usize = 64 * 1024 + MAX_SERVER_TOPLEVELS * 80 + 28;

/// What all connections together may hold.
#[derive(Copy, Clone, Debug, PartialEq, Eq, Structural)]
pub struct ServerLimits {
    pub clients: usize,
    pub shell_clients: usize,
    pub pool_bytes: u64,
    pub toplevels: usize,
    pub client_toplevel_metadata_bytes: u64,
    pub toplevel_metadata_bytes: u64,
}

pub open spec fn default_server_limits() -> ServerLimits {
    ServerLimits {
        clients: MAX_SERVER_CLIENTS,
        shell_clients: MAX_SERVER_SHELL_CLIENTS,
        pool_bytes: MAX_SERVER_POOL_BYTES,
        toplevels: MAX_SERVER_TOPLEVELS,
        client_toplevel_metadata_bytes: MAX_CLIENT_TOPLEVEL_METADATA_BYTES,
        toplevel_metadata_bytes: MAX_SERVER_TOPLEVEL_METADATA_BYTES,
    }
}

impl Default for ServerLimits {
    fn default() -> (limits: Self)
        ensures
            limits == default_server_limits(),
    {
        ServerLimits {
            clients: MAX_SERVER_CLIENTS,
            shell_clients: MAX_SERVER_SHELL_CLIENTS,
            pool_bytes: MAX_SERVER_POOL_BYTES,
            toplevels: MAX_SERVER_TOPLEVELS,
            client_toplevel_metadata_bytes: MAX_CLIENT_TOPLEVEL_METADATA_BYTES,
            toplevel_metadata_bytes: MAX_SERVER_TOPLEVEL_METADATA_BYTES,
        }
    }
}

/// Why the server refuses a request or a connection.
#[derive(Clone, Debug, PartialEq, Eq)]
pub enum ServerError {
    NoSuchClient { id: ClientId },
    Wire(WireError),
    Client(ClientError),
    ClientLimitExceeded { attempted: usize, limit: usize },
    ShellClientLimitExceeded { attempted: usize, limit: usize },
}

impl vstd::std_specs::convert::FromSpecImpl<WireError> for ServerError {
    open spec fn obeys_from_spec() -> bool {
        true
    }

    open spec fn from_spec(error: WireError) -> ServerError {
        ServerError::Wire(error)
    }
}

impl From<WireError> for ServerError {
    fn from(error: WireError) -> (r: ServerError) {
        ServerError::Wire(error)
    }
}

impl vstd::std_specs::convert::FromSpecImpl<ClientError> for ServerError {
    open spec fn obeys_from_spec() -> bool {
        true
    }

    open spec fn from_spec(error: ClientError) -> ServerError {
        ServerError::Client(error)
    }
}

impl From<ClientError> for ServerError {
    fn from(error: ClientError) -> (r: ServerError) {
        ServerError::Client(error)
    }
}

/// What lies under a point of the output.
#[derive(Copy, Clone, Debug, PartialEq, Eq, Structural)]
pub struct HitResult {
    pub client_id: ClientId,
    pub surface_id: ObjectId,
    pub local_x: i32,
    pub local_y: i32,
}

/// Where a window is to be when a restore ends, and whether it is there.
#[derive(Copy, Clone, Debug, PartialEq, Eq, Structural)]
pub struct RestorePlacement {
    pub z_rank: u32,
    pub expected_width: u32,
    pub expected_height: u32,
    pub commit_count_at_place: u32,
    pub settled: bool,
}

impl View for RestorePlacement {
    type V = RestorePlacement;

    open spec fn view(&self) -> RestorePlacement {
        *self
    }
}

/// A shell's restore of the windows of a session, while it lasts.
pub struct RestoreTransaction {
    pub owner: ClientId,
    pub restore_id: u32,
    pub deadline_ms: u64,
    /// The windows that came up since it began, and stay hidden until it ends.
    pub hidden: OrderedSet<WindowId>,
    pub placements: OrderedMap<WindowId, RestorePlacement>,
}

impl View for RestoreTransaction {
    type V = RestoreModel;

    open spec fn view(&self) -> RestoreModel {
        RestoreModel {
            owner: self.owner,
            restore_id: self.restore_id,
            deadline_ms: self.deadline_ms,
            hidden: self.hidden@,
            placements: self.placements@,
        }
    }
}

#[derive(Copy, Clone, Debug, PartialEq, Eq, Structural)]
pub enum DragKind {
    Move,
    Resize { edges: u32 },
}

/// A window that follows the pointer.
#[derive(Copy, Clone, Debug, PartialEq, Eq)]
pub struct DragState {
    pub client_id: ClientId,
    pub toplevel_id: ObjectId,
    pub kind: DragKind,
    pub start_pointer: (i32, i32),
    pub start_origin: (i32, i32),
}

/// The display server.
pub struct Server {
    next_client_id: u32,
    clients: OrderedMap<ClientId, Client>,
    limits: ServerLimits,
    pool_bytes: u64,
    toplevel_metadata_bytes: u64,
    next_window_id: u32,
    windows: OrderedMap<WindowId, WindowOwner>,
    window_ids: OrderedMap<WindowOwner, WindowId>,
    next_toplevel_ordinal_by_pid: OrderedMap<u32, u32>,
    /// The windows, the lowest first.
    z_order: Vec<WindowId>,
    framebuffer: Framebuffer,
    scene_generation: u64,
    recomposition_serial: u64,
    recomposition_deferred: bool,
    recomposition_pending: bool,
    presentation_damage: PresentationDamage,
    pointer_x: i32,
    pointer_y: i32,
    next_pointer_serial: u32,
    keyboard_focus: Option<(ClientId, ObjectId)>,
    keyboard_layout: KeyboardLayout,
    active_keymap: Keymap,
    logical_keymap: Keymap,
    shift_mask: u8,
    alt_mask: u8,
    f4_down: bool,
    f4_close_shortcut_consumed: bool,
    taskbar_height_px: u32,
    work_area_owner: Option<ClientId>,
    /// The shell that was just clicked, and may act on its windows unseen.
    pending_shell_command_owner: Option<ClientId>,
    /// The shell whose next commit shows a change of focus.
    deferred_focus_commit_owner: Option<ClientId>,
    next_present_fence_serial: u32,
    present_fence_clients: OrderedSet<ClientId>,
    pending_present_fences: Vec<(ClientId, u32)>,
    frame_callback_client_cursor: u32,
    monotonic_ms: u64,
    restore_transaction: Option<RestoreTransaction>,
    active_drag: Option<DragState>,
    next_toplevel_offset: i32,
}

impl View for Server {
    type V = ServerModel;

    closed spec fn view(&self) -> ServerModel {
        ServerModel {
            next_client_id: self.next_client_id,
            clients: self.clients@,
            limits: self.limits,
            pool_bytes: self.pool_bytes,
            toplevel_metadata_bytes: self.toplevel_metadata_bytes,
            next_window_id: self.next_window_id,
            windows: self.windows@,
            window_ids: self.window_ids@,
            ordinals: self.next_toplevel_ordinal_by_pid@,
            z_order: self.z_order@,
            frame: self.framebuffer@,
            scene_generation: self.scene_generation,
            recomposition_serial: self.recomposition_serial,
            deferred: self.recomposition_deferred,
            pending: self.recomposition_pending,
            damage: self.presentation_damage@,
            pointer_x: self.pointer_x,
            pointer_y: self.pointer_y,
            next_pointer_serial: self.next_pointer_serial,
            focus: self.keyboard_focus,
            layout: self.keyboard_layout,
            active_keymap: self.active_keymap@,
            logical_keymap: self.logical_keymap@,
            shift_mask: self.shift_mask,
            alt_mask: self.alt_mask,
            f4_down: self.f4_down,
            f4_consumed: self.f4_close_shortcut_consumed,
            taskbar_height: self.taskbar_height_px,
            work_area_owner: self.work_area_owner,
            command_owner: self.pending_shell_command_owner,
            commit_owner: self.deferred_focus_commit_owner,
            next_fence_serial: self.next_present_fence_serial,
            fence_clients: self.present_fence_clients@,
            fences: self.pending_present_fences@,
            callback_cursor: self.frame_callback_client_cursor,
            monotonic_ms: self.monotonic_ms,
            restore: match self.restore_transaction {
                Some(restore) => Some(restore@),
                None => None,
            },
            drag: self.active_drag,
            next_toplevel_offset: self.next_toplevel_offset,
        }
    }
}

} // verus!
