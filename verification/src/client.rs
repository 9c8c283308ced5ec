//! One connection: its objects, its resources and its queue of events.

use vstd::prelude::*;
use vstd::utf8;

use crate::caps::{Cap, CapSet};
use crate::ids::{ClientId, IdAllocator, ObjectId};
use crate::objects::Interface;
use crate::ordered::{OrderedMap, OrderedSet};
use crate::requests::DecodeError;
use crate::wire::WireError;

pub mod access;
pub mod accounts;
pub mod answers;
pub mod bounds;
pub mod callbacks;
pub mod dispatch;
pub mod effects;
pub mod emit;
pub mod endings;
pub mod frames;
pub mod install;
pub mod laws;
pub mod lifecycle;
pub mod model;
pub mod queue;
pub mod sharing;
pub mod sound;
pub mod storage;
pub mod surface;

use model::{BatchModel, ClientModel, PoolModel, SurfaceModel, ToplevelModel};
use queue::EventQueue;

verus! {

/// The largest pool of shared memory that a client may ask for.
pub const MAX_POOL_SIZE: u32 = 64 * 1024 * 1024;

/// Ceilings on what one connection may hold.
pub const MAX_CLIENT_OBJECTS: usize = 512;

pub const MAX_CLIENT_POOLS: usize = 64;

pub const MAX_CLIENT_POOL_BYTES: u64 = 128 * 1024 * 1024;

pub const MAX_CLIENT_BUFFERS: usize = 256;

pub const MAX_CLIENT_SURFACES: usize = 64;

pub const MAX_CLIENT_TOPLEVELS: usize = 64;

/// The most UTF-8 bytes that one window's title and application id may have
/// together.
pub const MAX_TOPLEVEL_METADATA_BYTES: u64 = 880;

/// The most UTF-8 bytes of titles and application ids that one connection may
/// hold in all its windows.
pub const MAX_CLIENT_TOPLEVEL_METADATA_BYTES: u64 = 64 * 1024;

/// The most damage rectangles kept for one surface before they are folded
/// into one.
pub const MAX_SURFACE_DAMAGE_RECTS: usize = 64;

/// The most events that may wait for one connection.
pub const MAX_PENDING_EVENTS: usize = 1024;

/// The most bytes of events that may wait for one connection.
pub const MAX_PENDING_EVENT_BYTES: usize = 256 * 1024;

/// The most handled requests that are remembered.
pub const MAX_JOURNAL_ENTRIES: usize = 256;

/// How far each new window is placed from the one before it.
pub const AUTO_LAYOUT_STEP: i32 = 32;

/// The resource that a limit refused.
#[derive(Copy, Clone, Debug, PartialEq, Eq, Structural)]
pub enum ClientResource {
    Objects,
    Pools,
    PoolBytes,
    ServerPoolBytes,
    Buffers,
    Surfaces,
    Toplevels,
    ServerToplevels,
    ToplevelMetadataBytesPerWindow,
    ToplevelMetadataBytes,
    ServerToplevelMetadataBytes,
    PendingEvents,
    PendingEventBytes,
}

/// What one connection may hold.
#[derive(Copy, Clone, Debug, PartialEq, Eq, Structural)]
pub struct ClientLimits {
    pub objects: usize,
    pub pools: usize,
    pub pool_bytes: u64,
    pub buffers: usize,
    pub surfaces: usize,
    pub toplevels: usize,
    pub toplevel_metadata_bytes: u64,
    pub damage_rects_per_surface: usize,
    pub pending_events: usize,
    pub pending_event_bytes: usize,
}

pub open spec fn default_client_limits() -> ClientLimits {
    ClientLimits {
        objects: MAX_CLIENT_OBJECTS,
        pools: MAX_CLIENT_POOLS,
        pool_bytes: MAX_CLIENT_POOL_BYTES,
        buffers: MAX_CLIENT_BUFFERS,
        surfaces: MAX_CLIENT_SURFACES,
        toplevels: MAX_CLIENT_TOPLEVELS,
        toplevel_metadata_bytes: MAX_CLIENT_TOPLEVEL_METADATA_BYTES,
        damage_rects_per_surface: MAX_SURFACE_DAMAGE_RECTS,
        pending_events: MAX_PENDING_EVENTS,
        pending_event_bytes: MAX_PENDING_EVENT_BYTES,
    }
}

impl Default for ClientLimits {
    fn default() -> (limits: Self)
        ensures
            limits == default_client_limits(),
    {
        ClientLimits {
            objects: MAX_CLIENT_OBJECTS,
            pools: MAX_CLIENT_POOLS,
            pool_bytes: MAX_CLIENT_POOL_BYTES,
            buffers: MAX_CLIENT_BUFFERS,
            surfaces: MAX_CLIENT_SURFACES,
            toplevels: MAX_CLIENT_TOPLEVELS,
            toplevel_metadata_bytes: MAX_CLIENT_TOPLEVEL_METADATA_BYTES,
            damage_rects_per_surface: MAX_SURFACE_DAMAGE_RECTS,
            pending_events: MAX_PENDING_EVENTS,
            pending_event_bytes: MAX_PENDING_EVENT_BYTES,
        }
    }
}

/// What all connections hold together, and how far one request may take it.
#[derive(Copy, Clone, Debug, PartialEq, Eq, Structural)]
pub struct ServerResourceBudgets {
    pub pool_bytes: u64,
    pub pool_byte_limit: u64,
    pub toplevels: usize,
    pub toplevel_limit: usize,
    pub toplevel_metadata_bytes: u64,
    pub toplevel_metadata_byte_limit: u64,
}

/// A pool of memory that buffers are cut from.
#[derive(Clone, Debug, PartialEq, Eq)]
pub struct Pool {
    pub size: u32,
    pub storage: Vec<u8>,
}

impl View for Pool {
    type V = PoolModel;

    open spec fn view(&self) -> PoolModel {
        PoolModel { size: self.size, storage: self.storage@ }
    }
}

/// A picture inside a pool.
#[derive(Copy, Clone, Debug, PartialEq, Eq, Structural)]
pub struct BufferInfo {
    pub pool_id: ObjectId,
    pub offset: u32,
    pub width: u32,
    pub height: u32,
    pub stride: u32,
    pub format: u32,
}

impl View for BufferInfo {
    type V = BufferInfo;

    open spec fn view(&self) -> BufferInfo {
        *self
    }
}

impl BufferInfo {
    /// The offset in the pool just past the last row.
    pub open spec fn end(self) -> int {
        self.offset + self.stride * self.height
    }

    pub proof fn lemma_end_fits(self)
        ensures
            0 <= self.offset <= self.end() <= 0xffff_ffff + 0xffff_ffff * 0xffff_ffff,
    {
        let stride = self.stride as int;
        let height = self.height as int;
        assert(0 <= stride * height <= 0xffff_ffff * 0xffff_ffff) by (nonlinear_arith)
            requires
                0 <= stride <= 0xffff_ffff,
                0 <= height <= 0xffff_ffff,
        ;
    }

    /// The offset in the pool just past the last row.
    pub fn byte_end(&self) -> (end: u64)
        ensures
            end == self.end(),
    {
        proof {
            self.lemma_end_fits();
        }
        self.offset as u64 + self.stride as u64 * self.height as u64
    }
}

/// A buffer shown on a surface, and where.
#[derive(Copy, Clone, Debug, PartialEq, Eq, Structural)]
pub struct BufferAttachment {
    pub buffer_id: ObjectId,
    pub x: i32,
    pub y: i32,
}

/// A part of a surface that changed.
#[derive(Copy, Clone, Debug, PartialEq, Eq, Structural)]
pub struct DamageRect {
    pub x: i32,
    pub y: i32,
    pub width: i32,
    pub height: i32,
}

/// A surface: what it shows, and what its next commit will change.
#[derive(Clone, Debug, PartialEq, Eq)]
pub struct Surface {
    pub id: ObjectId,
    pub pending_buffer: Option<BufferAttachment>,
    pub pending_attach: bool,
    pub pending_damage: Vec<DamageRect>,
    /// Damage was folded together or dropped, so the list no longer shows
    /// every rectangle that the client reported.
    pub pending_damage_unprovable: bool,
    pub current_buffer: Option<BufferAttachment>,
    pub commit_count: u32,
    pub pending_frame_callbacks: Vec<ObjectId>,
    pub had_toplevel_role: bool,
}

impl View for Surface {
    type V = SurfaceModel;

    open spec fn view(&self) -> SurfaceModel {
        SurfaceModel {
            id: self.id,
            pending_buffer: self.pending_buffer,
            pending_attach: self.pending_attach,
            pending_damage: self.pending_damage@,
            pending_damage_unprovable: self.pending_damage_unprovable,
            current_buffer: self.current_buffer,
            commit_count: self.commit_count,
            pending_frame_callbacks: self.pending_frame_callbacks@,
            had_toplevel_role: self.had_toplevel_role,
        }
    }
}

impl Surface {
    /// A surface that shows nothing.
    pub fn new(id: ObjectId) -> (surface: Self)
        ensures
            surface@ == SurfaceModel::fresh(id),
    {
        let surface = Surface {
            id,
            pending_buffer: None,
            pending_attach: false,
            pending_damage: Vec::new(),
            pending_damage_unprovable: false,
            current_buffer: None,
            commit_count: 0,
            pending_frame_callbacks: Vec::new(),
            had_toplevel_role: false,
        };
        proof {
            assert(surface@ =~= SurfaceModel::fresh(id));
        }
        surface
    }
}

/// Frame callbacks whose fate is decided but not yet told to the client: fired
/// with `callback_data`, or cancelled where there is none.
#[derive(Clone, Debug)]
pub struct ReadyFrameBatch {
    pub callback_data: Option<u32>,
    /// Pairs of the surface that asked and the callback.
    pub callbacks: Vec<(ObjectId, ObjectId)>,
    /// A destroyed surface whose id is given back after its callbacks.
    pub surface_delete_id: Option<ObjectId>,
}

impl View for ReadyFrameBatch {
    type V = BatchModel;

    open spec fn view(&self) -> BatchModel {
        BatchModel {
            callback_data: self.callback_data,
            callbacks: self.callbacks@,
            surface_delete_id: self.surface_delete_id,
        }
    }
}

/// What became of an attempt to report one frame callback.
#[derive(Copy, Clone, Debug, PartialEq, Eq, Structural)]
pub enum FrameCallbackCompletion {
    Empty,
    Blocked,
    Completed,
}

/// A surface in the role of a toplevel window.
#[derive(Clone, Debug, PartialEq, Eq)]
pub struct Toplevel {
    pub id: ObjectId,
    pub surface_id: ObjectId,
    pub title: String,
    pub app_id: String,
    pub ordinal: u32,
    pub x: i32,
    pub y: i32,
    pub normal_x: i32,
    pub normal_y: i32,
    pub normal_width: u32,
    pub normal_height: u32,
    pub minimized: bool,
    pub initial_configure_sent: bool,
    pub mapped_once: bool,
    pub maximized: bool,
    pub restore_origin: Option<(i32, i32)>,
    pub hidden_for_restore: bool,
}

impl View for Toplevel {
    type V = ToplevelModel;

    open spec fn view(&self) -> ToplevelModel {
        ToplevelModel {
            id: self.id,
            surface_id: self.surface_id,
            title: utf8::encode_utf8(self.title@),
            app_id: utf8::encode_utf8(self.app_id@),
            ordinal: self.ordinal,
            x: self.x,
            y: self.y,
            normal_x: self.normal_x,
            normal_y: self.normal_y,
            normal_width: self.normal_width,
            normal_height: self.normal_height,
            minimized: self.minimized,
            initial_configure_sent: self.initial_configure_sent,
            mapped_once: self.mapped_once,
            maximized: self.maximized,
            restore_origin: self.restore_origin,
            hidden_for_restore: self.hidden_for_restore,
        }
    }
}

impl Toplevel {
    /// A window without title, not yet shown, at the given place.
    pub fn new(id: ObjectId, surface_id: ObjectId, x: i32, y: i32) -> (toplevel: Self)
        ensures
            toplevel@ == ToplevelModel::fresh(id, surface_id, x, y),
    {
        let toplevel = Toplevel {
            id,
            surface_id,
            title: String::new(),
            app_id: String::new(),
            ordinal: 0,
            x,
            y,
            normal_x: x,
            normal_y: y,
            normal_width: 0,
            normal_height: 0,
            minimized: false,
            initial_configure_sent: false,
            mapped_once: false,
            maximized: false,
            restore_origin: None,
            hidden_for_restore: false,
        };
        proof {
            assert(toplevel.title@ =~= Seq::<char>::empty());
            assert(toplevel.app_id@ =~= Seq::<char>::empty());
            assert(utf8::encode_utf8(Seq::<char>::empty()) =~= Seq::<u8>::empty());
        }
        toplevel
    }
}

/// The capability that a client must hold to bind an interface.
pub open spec fn required_cap(interface: Interface) -> Option<Cap> {
    match interface {
        Interface::ShellManager => Some(Cap::Shell),
        _ => None,
    }
}

/// The capability that a client must hold to bind an interface.
pub fn interface_required_cap(interface: Interface) -> (r: Option<Cap>)
    ensures
        r == required_cap(interface),
{
    match interface {
        Interface::ShellManager => Some(Cap::Shell),
        _ => None,
    }
}

/// A request that was carried out.
#[derive(Copy, Clone, Debug, PartialEq, Eq)]
pub struct HandledRequest {
    pub object_id: ObjectId,
    pub interface: Interface,
    pub opcode: u16,
    pub opcode_name: &'static str,
    pub payload_len: usize,
    pub fd_passing: u8,
}

/// Why a request is refused or an event cannot be queued.
#[derive(Clone, Debug, PartialEq, Eq)]
pub enum ClientError {
    UnknownObject { id: ObjectId },
    UnknownOpcode { interface: Interface, opcode: u16 },
    WrongDirection { interface: Interface, opcode: u16 },
    IllegalBindTarget { requested: ObjectId },
    DuplicateObject { id: ObjectId },
    Malformed { interface: Interface, opcode: u16, error: DecodeError },
    UnknownInterfaceName { name: String },
    PermissionDenied { interface: Interface, required: Cap, new_id: ObjectId },
    EncodeFailed(WireError),
    ResourceLimitExceeded { resource: ClientResource, attempted: u64, limit: u64 },
    EventQueueOverflowed,
    PoolTooLarge { requested: u32, max: u32 },
    PoolAllocationFailed { requested: u32 },
    PoolResizeWouldTruncateBuffer { pool_id: ObjectId, requested: u32, required: u64 },
    BufferOutOfPool { pool_id: ObjectId, pool_size: u32, byte_end: u64 },
    InvalidPoolWriteRows { row_bytes: u32, rows: u32, stride: u32 },
    PoolWriteIntersectsCurrentBuffer {
        pool_id: ObjectId,
        surface_id: ObjectId,
        buffer_id: ObjectId,
    },
    PoolWriteInvalidCurrentBacking { surface_id: ObjectId, buffer_id: ObjectId },
    UnknownPool { pool_id: ObjectId },
    UnknownBuffer { buffer_id: ObjectId },
    UnknownSurface { surface_id: ObjectId },
    SurfacePatchNoCurrentBuffer { surface_id: ObjectId },
    SurfacePatchHasPendingState { surface_id: ObjectId },
    SurfacePatchInvalidGeometry {
        x: i32,
        y: i32,
        width: u32,
        height: u32,
        buffer_width: u32,
        buffer_height: u32,
    },
    SurfacePatchTooLarge { bytes: u64, max: usize },
    SurfacePatchUnsupportedFormat { buffer_id: ObjectId, format: u32 },
    SurfacePatchInvalidBacking { buffer_id: ObjectId, pool_id: ObjectId },
    SurfacePatchAliasedCurrentBuffer { surface_id: ObjectId, other_surface_id: ObjectId },
    SurfacePatchInvalidAliasBacking { other_surface_id: ObjectId, buffer_id: ObjectId },
    SurfaceCommitAliasedBuffer {
        surface_id: ObjectId,
        buffer_id: ObjectId,
        conflicting_surface_id: ObjectId,
        conflicting_buffer_id: ObjectId,
    },
    SurfaceCommitInvalidBacking { surface_id: ObjectId, buffer_id: ObjectId },
    SurfaceHasToplevel { surface_id: ObjectId, toplevel_id: ObjectId },
    ToplevelSurfaceNotFound { surface_id: ObjectId },
    SurfaceAlreadyHasToplevel { surface_id: ObjectId, existing_toplevel: ObjectId },
    UnknownToplevel { toplevel_id: ObjectId },
    PointerAlreadyBound { existing: ObjectId },
    KeyboardAlreadyBound { existing: ObjectId },
}

impl vstd::std_specs::convert::FromSpecImpl<WireError> for ClientError {
    open spec fn obeys_from_spec() -> bool {
        true
    }

    open spec fn from_spec(error: WireError) -> ClientError {
        ClientError::EncodeFailed(error)
    }
}

impl From<WireError> for ClientError {
    fn from(error: WireError) -> (r: ClientError) {
        ClientError::EncodeFailed(error)
    }
}

/// One connection.
pub struct Client {
    pub id: ClientId,
    pub peer_pid: u32,
    pub objects: OrderedMap<ObjectId, Interface>,
    /// Ids of destroyed objects that are not yet given back.
    pub(crate) retired_object_ids: OrderedSet<ObjectId>,
    pub server_ids: IdAllocator,
    pub(crate) journal: Vec<HandledRequest>,
    pub(crate) events: EventQueue,
    pub(crate) event_queue_overflowed: bool,
    pub(crate) limits: ClientLimits,
    pub capabilities: CapSet,
    pub pools: OrderedMap<ObjectId, Pool>,
    pub(crate) pool_bytes: u64,
    pub buffers: OrderedMap<ObjectId, BufferInfo>,
    pub surfaces: OrderedMap<ObjectId, Surface>,
    /// Callbacks that wait for their frame to be shown.
    pub(crate) awaiting_present_callbacks: Vec<(ObjectId, ObjectId)>,
    pub(crate) ready_frame_callbacks: Vec<ReadyFrameBatch>,
    pub toplevels: OrderedMap<ObjectId, Toplevel>,
    pub(crate) toplevel_metadata_bytes: u64,
    pub toplevel_by_surface: OrderedMap<ObjectId, ObjectId>,
    pub next_toplevel_offset: i32,
    pub next_toplevel_ordinal: u32,
    pub pointer_id: Option<ObjectId>,
    pub keyboard_id: Option<ObjectId>,
    pub next_configure_serial: u32,
    pub shell_manager_id: Option<ObjectId>,
    pub shell_manager_version: Option<u32>,
    pub shell_manager_subscribed: bool,
    pub shell_manager_state_snapshot_id: Option<u32>,
}

impl View for Client {
    type V = ClientModel;

    open(crate) spec fn view(&self) -> ClientModel {
        ClientModel {
            id: self.id,
            peer_pid: self.peer_pid,
            objects: self.objects@,
            retired: self.retired_object_ids@,
            server_ids: self.server_ids,
            journal: self.journal@,
            events: self.events@,
            overflowed: self.event_queue_overflowed,
            limits: self.limits,
            capabilities: self.capabilities,
            pools: self.pools@,
            pool_bytes: self.pool_bytes,
            buffers: self.buffers@,
            surfaces: self.surfaces@,
            awaiting: self.awaiting_present_callbacks@,
            ready: self.ready_frame_callbacks@.map_values(|b: ReadyFrameBatch| b@),
            toplevels: self.toplevels@,
            toplevel_metadata_bytes: self.toplevel_metadata_bytes,
            toplevel_by_surface: self.toplevel_by_surface@,
            next_toplevel_offset: self.next_toplevel_offset,
            next_toplevel_ordinal: self.next_toplevel_ordinal,
            pointer_id: self.pointer_id,
            keyboard_id: self.keyboard_id,
            next_configure_serial: self.next_configure_serial,
            shell_manager_id: self.shell_manager_id,
            shell_manager_version: self.shell_manager_version,
            shell_manager_subscribed: self.shell_manager_subscribed,
            shell_manager_state_snapshot_id: self.shell_manager_state_snapshot_id,
        }
    }
}

} // verus!
