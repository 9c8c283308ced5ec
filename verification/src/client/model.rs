//! What a connection is, and what each request and event makes of it.
//!
//! A step is a function of the state before it. It gives the state after it
//! and, where the request is refused, the reason.

use vstd::prelude::*;
use vstd::utf8;

use crate::arith;
use crate::bytes;
use crate::caps::{Cap, CapSet};
use crate::client;
use crate::client::queue;
use crate::client::{
    BufferAttachment, BufferInfo, ClientError, ClientLimits, ClientResource, DamageRect,
    FrameCallbackCompletion, HandledRequest, ServerResourceBudgets, AUTO_LAYOUT_STEP,
    MAX_JOURNAL_ENTRIES, MAX_POOL_SIZE, MAX_TOPLEVEL_METADATA_BYTES,
};
use crate::events;
use crate::events::{ERROR_CODE_NO_MEMORY, ERROR_CODE_PERMISSION_DENIED};
use crate::ids::{ClientId, IdAllocator, IdKind, ObjectId};
use crate::objects::Interface;
use crate::ordered;
use crate::requests;
use crate::requests::{
    ShmCreatePool, ShmPoolCreateBuffer, SurfaceAttach, SurfaceDamage, XdgShellGetToplevel,
    BUFFER_FORMAT_ARGB8888, BUFFER_FORMAT_XRGB8888, MAX_SURFACE_PATCH_BYTES,
};
use crate::text;
use crate::wire;
use crate::wire::{MessageHeader, WireError, HEADER_SIZE, MAX_MESSAGE_BYTES};

verus! {

#[verifier::ext_equal]
pub struct PoolModel {
    pub size: u32,
    pub storage: Seq<u8>,
}

#[verifier::ext_equal]
pub struct SurfaceModel {
    pub id: ObjectId,
    pub pending_buffer: Option<BufferAttachment>,
    pub pending_attach: bool,
    pub pending_damage: Seq<DamageRect>,
    pub pending_damage_unprovable: bool,
    pub current_buffer: Option<BufferAttachment>,
    pub commit_count: u32,
    pub pending_frame_callbacks: Seq<ObjectId>,
    pub had_toplevel_role: bool,
}

#[verifier::ext_equal]
pub struct BatchModel {
    pub callback_data: Option<u32>,
    pub callbacks: Seq<(ObjectId, ObjectId)>,
    pub surface_delete_id: Option<ObjectId>,
}

#[verifier::ext_equal]
pub struct ToplevelModel {
    pub id: ObjectId,
    pub surface_id: ObjectId,
    pub title: Seq<u8>,
    pub app_id: Seq<u8>,
    pub ordinal: u32,
    pub x: i32,
    pub y: i32,
    pub normal_x: i32,
    pub normal_y: i32,
    pub normal_width: u32,
    pub normal_height: u32,
    pub minimized: bool,
    pub initial_configure_sent: bool,
    pub mapped_once: bool,
    pub maximized: bool,
    pub restore_origin: Option<(i32, i32)>,
    pub hidden_for_restore: bool,
}

#[verifier::ext_equal]
pub struct ClientModel {
    pub id: ClientId,
    pub peer_pid: u32,
    pub objects: Map<ObjectId, Interface>,
    pub retired: Set<ObjectId>,
    pub server_ids: IdAllocator,
    pub journal: Seq<HandledRequest>,
    pub events: Seq<Seq<u8>>,
    pub overflowed: bool,
    pub limits: ClientLimits,
    pub capabilities: CapSet,
    pub pools: Map<ObjectId, PoolModel>,
    pub pool_bytes: u64,
    pub buffers: Map<ObjectId, BufferInfo>,
    pub surfaces: Map<ObjectId, SurfaceModel>,
    pub awaiting: Seq<(ObjectId, ObjectId)>,
    pub ready: Seq<BatchModel>,
    pub toplevels: Map<ObjectId, ToplevelModel>,
    pub toplevel_metadata_bytes: u64,
    pub toplevel_by_surface: Map<ObjectId, ObjectId>,
    pub next_toplevel_offset: i32,
    pub next_toplevel_ordinal: u32,
    pub pointer_id: Option<ObjectId>,
    pub keyboard_id: Option<ObjectId>,
    pub next_configure_serial: u32,
    pub shell_manager_id: Option<ObjectId>,
    pub shell_manager_version: Option<u32>,
    pub shell_manager_subscribed: bool,
    pub shell_manager_state_snapshot_id: Option<u32>,
}

/// Why a step refuses its request.
pub enum Fault {
    Error(ClientError),
    /// No interface has the name that a bind asks for.
    UnknownInterface(Seq<u8>),
}

/// Whether an error reports a fault.
pub open spec fn reports(e: ClientError, fault: Fault) -> bool {
    match fault {
        Fault::Error(known) => e == known,
        Fault::UnknownInterface(bytes) => match e {
            ClientError::UnknownInterfaceName { name } => utf8::encode_utf8(name@) == bytes,
            _ => false,
        },
    }
}

/// Whether a result is what a step says: success, or the step's fault.
pub open spec fn answers(r: Result<(), ClientError>, fault: Option<Fault>) -> bool {
    match r {
        Ok(_) => fault is None,
        Err(e) => fault is Some && reports(e, fault->0),
    }
}

/// Whether a step led to `after` and was answered by `r`.
pub open spec fn took(
    step: (ClientModel, Option<Fault>),
    after: ClientModel,
    r: Result<(), ClientError>,
) -> bool {
    after == step.0 && answers(r, step.1)
}

/// The budgets of a connection that shares nothing but pool memory.
pub open spec fn lone_budgets(
    c: ClientModel,
    pool_bytes: u64,
    pool_byte_limit: u64,
) -> ServerResourceBudgets {
    ServerResourceBudgets {
        pool_bytes,
        pool_byte_limit,
        toplevels: c.toplevels.dom().len() as usize,
        toplevel_limit: usize::MAX,
        toplevel_metadata_bytes: c.toplevel_metadata_bytes,
        toplevel_metadata_byte_limit: u64::MAX,
    }
}

impl SurfaceModel {
    pub open spec fn fresh(id: ObjectId) -> SurfaceModel {
        SurfaceModel {
            id,
            pending_buffer: None,
            pending_attach: false,
            pending_damage: Seq::empty(),
            pending_damage_unprovable: false,
            current_buffer: None,
            commit_count: 0,
            pending_frame_callbacks: Seq::empty(),
            had_toplevel_role: false,
        }
    }

    /// Whether the surface shows the buffer, or will with its next commit.
    pub open spec fn holds(self, buffer_id: ObjectId) -> bool {
        (self.pending_buffer is Some && self.pending_buffer->0.buffer_id == buffer_id) || (
        self.current_buffer is Some && self.current_buffer->0.buffer_id == buffer_id)
    }
}

impl ToplevelModel {
    pub open spec fn fresh(id: ObjectId, surface_id: ObjectId, x: i32, y: i32) -> ToplevelModel {
        ToplevelModel {
            id,
            surface_id,
            title: Seq::empty(),
            app_id: Seq::empty(),
            ordinal: 0,
            x,
            y,
            normal_x: x,
            normal_y: y,
            normal_width: 0,
            normal_height: 0,
            minimized: false,
            initial_configure_sent: false,
            mapped_once: false,
            maximized: false,
            restore_origin: None,
            hidden_for_restore: false,
        }
    }
}

impl BatchModel {
    pub open spec fn is_spent(self) -> bool {
        self.callbacks.len() == 0 && self.surface_delete_id is None
    }
}

/// The refusal of a limit, where it is exceeded.
pub open spec fn capacity_fault(
    resource: ClientResource,
    current: int,
    additional: int,
    limit: usize,
) -> Option<ClientError> {
    if current + additional > limit {
        Some(
            ClientError::ResourceLimitExceeded {
                resource,
                attempted: arith::min_int(current + additional, usize::MAX as int) as u64,
                limit: limit as u64,
            },
        )
    } else {
        None
    }
}

/// Why a message from the client has an opcode it may not have.
pub open spec fn request_fault(interface: Interface, opcode: u16) -> Option<ClientError> {
    if interface.request_name(opcode) is Some {
        None
    } else if interface.event_name(opcode) is Some {
        Some(ClientError::WrongDirection { interface, opcode })
    } else {
        Some(ClientError::UnknownOpcode { interface, opcode })
    }
}

/// Why a message to the client has an opcode it may not have.
pub open spec fn event_fault(interface: Interface, opcode: u16) -> Option<ClientError> {
    if interface.event_name(opcode) is Some {
        None
    } else if interface.request_name(opcode) is Some {
        Some(ClientError::WrongDirection { interface, opcode })
    } else {
        Some(ClientError::UnknownOpcode { interface, opcode })
    }
}

/// Whether a new event takes the place of a queued one: a window's title
/// replaces its queued title, and a window's state replaces its queued state
/// or its queued creation.
pub open spec fn supersedes(
    interface: Interface,
    object_id: ObjectId,
    opcode: u16,
    payload: Seq<u8>,
    queued: Seq<u8>,
) -> bool {
    &&& interface == Interface::ShellManager
    &&& wire::header_fault(queued) is None
    &&& wire::header_at(queued).object_id == object_id
    &&& {
        ||| opcode == 4 && payload.len() >= 4 && wire::header_at(queued).opcode == 4
            && queued.len() >= 14 && queued.subrange(10, 14) == payload.subrange(0, 4)
        ||| opcode == 6 && payload.len() >= 8 && (wire::header_at(queued).opcode == 5
            || wire::header_at(queued).opcode == 6) && queued.len() >= 18 && queued.subrange(10, 18)
            == payload.subrange(0, 8)
    }
}

/// The first queued event, from `from` on, whose place a new event takes.
pub open spec fn superseded(
    queued: Seq<Seq<u8>>,
    interface: Interface,
    object_id: ObjectId,
    opcode: u16,
    payload: Seq<u8>,
    from: nat,
) -> Option<nat>
    decreases queued.len() - from,
{
    if from >= queued.len() {
        None
    } else if supersedes(interface, object_id, opcode, payload, queued[from as int]) {
        Some(from)
    } else {
        superseded(queued, interface, object_id, opcode, payload, from + 1)
    }
}

/// The name of a resource in an error message.
pub open spec fn resource_name(resource: ClientResource) -> Seq<char> {
    match resource {
        ClientResource::Objects => "Objects"@,
        ClientResource::Pools => "Pools"@,
        ClientResource::PoolBytes => "PoolBytes"@,
        ClientResource::ServerPoolBytes => "ServerPoolBytes"@,
        ClientResource::Buffers => "Buffers"@,
        ClientResource::Surfaces => "Surfaces"@,
        ClientResource::Toplevels => "Toplevels"@,
        ClientResource::ServerToplevels => "ServerToplevels"@,
        ClientResource::ToplevelMetadataBytesPerWindow => "ToplevelMetadataBytesPerWindow"@,
        ClientResource::ToplevelMetadataBytes => "ToplevelMetadataBytes"@,
        ClientResource::ServerToplevelMetadataBytes => "ServerToplevelMetadataBytes"@,
        ClientResource::PendingEvents => "PendingEvents"@,
        ClientResource::PendingEventBytes => "PendingEventBytes"@,
    }
}

/// The object, the code and the text of the error event that a refusal sends,
/// if it sends one.
pub open spec fn error_report(object_id: ObjectId, e: ClientError) -> Option<
    (ObjectId, u32, Seq<u8>),
> {
    match e {
        ClientError::PermissionDenied { interface, required, new_id } => Some(
            (
                new_id,
                ERROR_CODE_PERMISSION_DENIED,
                utf8::encode_utf8("permission denied: "@) + interface.name_bytes()
                    + utf8::encode_utf8(" requires Cap::"@) + utf8::encode_utf8(
                    required.spec_name(),
                ),
            ),
        ),
        ClientError::ResourceLimitExceeded { resource, attempted, limit } => Some(
            (
                object_id,
                ERROR_CODE_NO_MEMORY,
                utf8::encode_utf8("resource limit exceeded: "@) + utf8::encode_utf8(
                    resource_name(resource),
                ) + utf8::encode_utf8(" attempted="@) + bytes::decimal(attempted as nat)
                    + utf8::encode_utf8(" limit="@) + bytes::decimal(limit as nat),
            ),
        ),
        ClientError::PoolTooLarge { requested, max } => Some(
            (
                object_id,
                ERROR_CODE_NO_MEMORY,
                utf8::encode_utf8("resource limit exceeded: PoolBytes requested="@)
                    + bytes::decimal(requested as nat) + utf8::encode_utf8(" max="@)
                    + bytes::decimal(max as nat),
            ),
        ),
        ClientError::PoolAllocationFailed { requested } => Some(
            (
                object_id,
                ERROR_CODE_NO_MEMORY,
                utf8::encode_utf8("resource allocation failed: PoolBytes requested="@)
                    + bytes::decimal(requested as nat),
            ),
        ),
        _ => None,
    }
}

/// `data` written over `storage` from `at` on.
pub open spec fn overlaid(storage: Seq<u8>, at: int, data: Seq<u8>) -> Seq<u8> {
    storage.subrange(0, at) + data + storage.subrange(at + data.len(), storage.len() as int)
}

/// The first `rows` rows of `data` written over `storage`, a stride apart.
pub open spec fn rows_overlaid(
    storage: Seq<u8>,
    at: int,
    stride: int,
    row_bytes: int,
    data: Seq<u8>,
    rows: nat,
) -> Seq<u8>
    decreases rows,
{
    if rows == 0 {
        storage
    } else {
        overlaid(
            rows_overlaid(storage, at, stride, row_bytes, data, (rows - 1) as nat),
            at + (rows - 1) * stride,
            data.subrange((rows - 1) * row_bytes, rows * row_bytes),
        )
    }
}

/// Whether a row of a strided write, one of `rows`, meets the bytes from
/// `start` to `end`.
pub open spec fn some_row_meets(
    at: int,
    row_bytes: int,
    rows: int,
    stride: int,
    start: int,
    end: int,
) -> bool {
    exists|row: int|
        0 <= row < rows && #[trigger] row_meets(at, row_bytes, stride, row, start, end)
}

pub open spec fn row_meets(
    at: int,
    row_bytes: int,
    stride: int,
    row: int,
    start: int,
    end: int,
) -> bool {
    at + row * stride < end && start < at + row * stride + row_bytes
}

/// The edges of a damage rectangle, whichever way its extent points.
pub struct DamageBounds {
    pub left: i32,
    pub top: i32,
    pub right: i32,
    pub bottom: i32,
}

pub open spec fn damage_bounds(r: DamageRect) -> DamageBounds {
    let x_end = arith::sat_i32(r.x + r.width);
    let y_end = arith::sat_i32(r.y + r.height);
    DamageBounds {
        left: arith::min_int(r.x as int, x_end as int) as i32,
        top: arith::min_int(r.y as int, y_end as int) as i32,
        right: arith::max_int(r.x as int, x_end as int) as i32,
        bottom: arith::max_int(r.y as int, y_end as int) as i32,
    }
}

pub open spec fn joined_bounds(a: DamageBounds, b: DamageBounds) -> DamageBounds {
    DamageBounds {
        left: arith::min_int(a.left as int, b.left as int) as i32,
        top: arith::min_int(a.top as int, b.top as int) as i32,
        right: arith::max_int(a.right as int, b.right as int) as i32,
        bottom: arith::max_int(a.bottom as int, b.bottom as int) as i32,
    }
}

/// The edges that enclose `added` and every listed rectangle.
pub open spec fn enclosing_bounds(rects: Seq<DamageRect>, added: DamageRect) -> DamageBounds
    decreases rects.len(),
{
    if rects.len() == 0 {
        damage_bounds(added)
    } else {
        joined_bounds(enclosing_bounds(rects.drop_last(), added), damage_bounds(rects.last()))
    }
}

/// The one rectangle that stands for `added` and every listed rectangle.
pub open spec fn coalesced(rects: Seq<DamageRect>, added: DamageRect) -> DamageRect {
    let b = enclosing_bounds(rects, added);
    DamageRect {
        x: b.left,
        y: b.top,
        width: arith::sat_i32(b.right - b.left),
        height: arith::sat_i32(b.bottom - b.top),
    }
}

/// The callbacks that `surface_id` asked for.
pub open spec fn callbacks_of(
    awaiting: Seq<(ObjectId, ObjectId)>,
    surface_id: ObjectId,
) -> Seq<ObjectId>
    decreases awaiting.len(),
{
    if awaiting.len() == 0 {
        Seq::empty()
    } else if awaiting.last().0 == surface_id {
        callbacks_of(awaiting.drop_last(), surface_id).push(awaiting.last().1)
    } else {
        callbacks_of(awaiting.drop_last(), surface_id)
    }
}

/// The callbacks that other surfaces asked for.
pub open spec fn callbacks_not_of(
    awaiting: Seq<(ObjectId, ObjectId)>,
    surface_id: ObjectId,
) -> Seq<(ObjectId, ObjectId)>
    decreases awaiting.len(),
{
    if awaiting.len() == 0 {
        Seq::empty()
    } else if awaiting.last().0 == surface_id {
        callbacks_not_of(awaiting.drop_last(), surface_id)
    } else {
        callbacks_not_of(awaiting.drop_last(), surface_id).push(awaiting.last())
    }
}

/// The callbacks, each with the surface that asked.
pub open spec fn asked_by(surface_id: ObjectId, callbacks: Seq<ObjectId>) -> Seq<
    (ObjectId, ObjectId),
> {
    callbacks.map_values(|c: ObjectId| (surface_id, c))
}

/// The batches from the first that still has something to report.
pub open spec fn unspent(ready: Seq<BatchModel>) -> Seq<BatchModel>
    decreases ready.len(),
{
    if ready.len() > 0 && ready[0].is_spent() {
        unspent(ready.skip(1))
    } else {
        ready
    }
}

/// The callbacks, summed over the batches, that are to be reported as fired.
pub open spec fn presented_count(ready: Seq<BatchModel>) -> nat
    decreases ready.len(),
{
    if ready.len() == 0 {
        0
    } else {
        presented_count(ready.drop_last()) + if ready.last().callback_data is Some {
            ready.last().callbacks.len()
        } else {
            0
        }
    }
}

/// The cancellations, summed over the batches, that are to be reported.
pub open spec fn cancelled_count(ready: Seq<BatchModel>) -> nat
    decreases ready.len(),
{
    if ready.len() == 0 {
        0
    } else {
        cancelled_count(ready.drop_last()) + if ready.last().callback_data is None {
            ready.last().callbacks.len() + if ready.last().surface_delete_id is Some {
                1nat
            } else {
                0
            }
        } else {
            0
        }
    }
}

impl ClientModel {
    /// A connection on which nothing has happened yet.
    pub open spec fn fresh(
        id: ClientId,
        capabilities: CapSet,
        peer_pid: u32,
        limits: ClientLimits,
    ) -> ClientModel {
        ClientModel {
            id,
            peer_pid,
            objects: Map::empty().insert(ObjectId(1), Interface::Display),
            retired: Set::empty(),
            server_ids: IdAllocator { next: 2, exhausted: false },
            journal: Seq::empty(),
            events: Seq::empty(),
            overflowed: false,
            limits: ClientLimits {
                objects: if limits.objects == 0 {
                    1
                } else {
                    limits.objects
                },
                ..limits
            },
            capabilities,
            pools: Map::empty(),
            pool_bytes: 0,
            buffers: Map::empty(),
            surfaces: Map::empty(),
            awaiting: Seq::empty(),
            ready: Seq::empty(),
            toplevels: Map::empty(),
            toplevel_metadata_bytes: 0,
            toplevel_by_surface: Map::empty(),
            next_toplevel_offset: 0,
            next_toplevel_ordinal: 1,
            pointer_id: None,
            keyboard_id: None,
            next_configure_serial: 1,
            shell_manager_id: None,
            shell_manager_version: None,
            shell_manager_subscribed: false,
            shell_manager_state_snapshot_id: None,
        }
    }

    pub open spec fn is_shell(self) -> bool {
        self.capabilities.spec_contains(Cap::Shell)
    }

    /// Whether a request to an object of the given kind can be numbered: one
    /// that makes a toplevel takes a number.
    pub open spec fn can_count(self, interface: Interface, opcode: u16) -> bool {
        interface == Interface::XdgShell && opcode == 1 ==> self.next_toplevel_ordinal < u32::MAX
    }

    /// Whether a request can be numbered.
    pub open spec fn can_take(self, header: MessageHeader) -> bool {
        self.objects.contains_key(header.object_id) ==> self.can_count(
            self.objects[header.object_id],
            header.opcode,
        )
    }

    /// Whether `id` names a live object of the given kind.
    pub open spec fn is_object(self, id: ObjectId, interface: Interface) -> bool {
        self.objects.contains_key(id) && self.objects[id] == interface
    }

    pub open spec fn object_count(self) -> int {
        arith::min_int((self.objects.dom().len() + self.retired.len()) as int, usize::MAX as int)
    }

    pub open spec fn refuse(self, e: ClientError) -> (ClientModel, Option<Fault>) {
        (self, Some(Fault::Error(e)))
    }

    pub open spec fn done(self) -> (ClientModel, Option<Fault>) {
        (self, None)
    }

    // Events.

    /// Why an event cannot be queued, if it cannot.
    pub open spec fn emit_fault(self, object_id: ObjectId, opcode: u16, payload: Seq<u8>) -> Option<
        ClientError,
    > {
        let total = HEADER_SIZE + payload.len();
        if self.overflowed {
            Some(ClientError::EventQueueOverflowed)
        } else if !self.objects.contains_key(object_id) {
            Some(ClientError::UnknownObject { id: object_id })
        } else if event_fault(self.objects[object_id], opcode) is Some {
            event_fault(self.objects[object_id], opcode)
        } else if payload.len() > MAX_MESSAGE_BYTES - HEADER_SIZE {
            Some(
                ClientError::EncodeFailed(
                    WireError::PayloadTooLarge { payload: payload.len() as usize },
                ),
            )
        } else {
            match superseded(
                self.events,
                self.objects[object_id],
                object_id,
                opcode,
                payload,
                0,
            ) {
                Some(index) => capacity_fault(
                    ClientResource::PendingEventBytes,
                    queue::total_bytes(self.events) - self.events[index as int].len(),
                    total,
                    self.limits.pending_event_bytes,
                ),
                None => match capacity_fault(
                    ClientResource::PendingEvents,
                    self.events.len() as int,
                    1,
                    self.limits.pending_events,
                ) {
                    Some(e) => Some(e),
                    None => capacity_fault(
                        ClientResource::PendingEventBytes,
                        queue::total_bytes(self.events) as int,
                        total,
                        self.limits.pending_event_bytes,
                    ),
                },
            }
        }
    }

    /// The state after an attempt to queue an event. A full queue is marked as
    /// overflowed, and takes nothing more.
    #[verifier::opaque]
    pub open spec fn emit(self, object_id: ObjectId, opcode: u16, payload: Seq<u8>) -> ClientModel {
        match self.emit_fault(object_id, opcode, payload) {
            Some(ClientError::ResourceLimitExceeded { .. }) => ClientModel {
                overflowed: true,
                ..self
            },
            Some(_) => self,
            None => match superseded(
                self.events,
                self.objects[object_id],
                object_id,
                opcode,
                payload,
                0,
            ) {
                Some(index) => ClientModel {
                    events: self.events.update(
                        index as int,
                        wire::message(
                            object_id,
                            wire::header_at(self.events[index as int]).opcode,
                            payload,
                        ),
                    ),
                    ..self
                },
                None => ClientModel {
                    events: self.events.push(wire::message(object_id, opcode, payload)),
                    ..self
                },
            },
        }
    }

    pub open spec fn emit_delete_id(self, id: ObjectId) -> ClientModel {
        self.emit(ObjectId(1), 2, events::display_delete_id_payload(id))
    }

    pub open spec fn emit_done(self, callback_id: ObjectId, data: u32) -> ClientModel {
        self.emit(callback_id, 1, events::callback_done_payload(data))
    }

    pub open spec fn emit_error(self, target: ObjectId, code: u32, message: Seq<u8>) -> ClientModel {
        self.emit(ObjectId(1), 1, events::display_error_payload(target, code, message))
    }

    /// The state after the error event of a refusal.
    pub open spec fn report(self, object_id: ObjectId, fault: Fault) -> ClientModel {
        match fault {
            Fault::Error(e) => match error_report(object_id, e) {
                Some((target, code, message)) => self.emit_error(target, code, message),
                None => self,
            },
            Fault::UnknownInterface(_) => self,
        }
    }

    // Objects.

    /// Why a client-chosen id cannot name a new object, if it cannot.
    pub open spec fn install_fault(self, id: ObjectId) -> Option<ClientError> {
        if id.spec_kind() != IdKind::Client {
            Some(ClientError::IllegalBindTarget { requested: id })
        } else if self.objects.contains_key(id) || self.retired.contains(id) {
            Some(ClientError::DuplicateObject { id })
        } else {
            capacity_fault(ClientResource::Objects, self.object_count(), 1, self.limits.objects)
        }
    }

    pub open spec fn with_object(self, id: ObjectId, interface: Interface) -> ClientModel {
        ClientModel { objects: self.objects.insert(id, interface), ..self }
    }

    pub open spec fn without_object(self, id: ObjectId) -> ClientModel {
        ClientModel { objects: self.objects.remove(id), ..self }
    }

    /// Installs a new object under a client-chosen id.
    pub open spec fn install(self, id: ObjectId, interface: Interface) -> (
        ClientModel,
        Option<Fault>,
    ) {
        match self.install_fault(id) {
            Some(e) => self.refuse(e),
            None => self.with_object(id, interface).done(),
        }
    }

    pub open spec fn pool_byte_fault(self, additional: u64) -> Option<ClientError> {
        let attempted = self.pool_bytes.saturating_add(additional);
        if attempted > self.limits.pool_bytes {
            Some(
                ClientError::ResourceLimitExceeded {
                    resource: ClientResource::PoolBytes,
                    attempted,
                    limit: self.limits.pool_bytes,
                },
            )
        } else {
            None
        }
    }

    pub open spec fn server_pool_byte_fault(
        additional: u64,
        server_bytes: u64,
        server_limit: u64,
    ) -> Option<ClientError> {
        let attempted = server_bytes.saturating_add(additional);
        if attempted > server_limit {
            Some(
                ClientError::ResourceLimitExceeded {
                    resource: ClientResource::ServerPoolBytes,
                    attempted,
                    limit: server_limit,
                },
            )
        } else {
            None
        }
    }

    // Requests that create objects or write pool memory.

    /// A request whose payload is the id of a new object of a fixed kind.
    pub open spec fn install_new_id(
        self,
        interface: Interface,
        opcode: u16,
        payload: Seq<u8>,
        created: Interface,
    ) -> (ClientModel, Option<Fault>) {
        match requests::size_fault(payload, 4) {
            Some(error) => self.refuse(ClientError::Malformed { interface, opcode, error }),
            None => self.install(ObjectId(bytes::le32_at(payload, 0)), created),
        }
    }

    pub open spec fn bind(self, payload: Seq<u8>) -> (ClientModel, Option<Fault>) {
        match requests::bind_fault(payload) {
            Some(error) => self.refuse(
                ClientError::Malformed { interface: Interface::Registry, opcode: 1, error },
            ),
            None => {
                let name = text::text_at(payload, 4);
                let end = text::text_end(payload, 4)->0;
                let version = bytes::le32_at(payload, end);
                let new_id = ObjectId(bytes::le32_at(payload, end + 4));
                match Interface::named(name) {
                    None => (self, Some(Fault::UnknownInterface(name))),
                    Some(target) => {
                        let required = client::required_cap(target);
                        if required is Some && !self.capabilities.spec_contains(required->0) {
                            self.refuse(
                                ClientError::PermissionDenied {
                                    interface: target,
                                    required: required->0,
                                    new_id,
                                },
                            )
                        } else {
                            match self.install_fault(new_id) {
                                Some(e) => self.refuse(e),
                                None => if target == Interface::ShellManager {
                                    ClientModel {
                                        shell_manager_id: Some(new_id),
                                        shell_manager_version: Some(version),
                                        ..self.with_object(new_id, target)
                                    }.done()
                                } else {
                                    self.with_object(new_id, target).done()
                                },
                            }
                        }
                    },
                }
            },
        }
    }

    pub open spec fn create_surface(self, payload: Seq<u8>) -> (ClientModel, Option<Fault>) {
        match requests::size_fault(payload, 4) {
            Some(error) => self.refuse(
                ClientError::Malformed { interface: Interface::Compositor, opcode: 1, error },
            ),
            None => {
                let id = ObjectId(bytes::le32_at(payload, 0));
                match capacity_fault(
                    ClientResource::Surfaces,
                    self.surfaces.dom().len() as int,
                    1,
                    self.limits.surfaces,
                ) {
                    Some(e) => self.refuse(e),
                    None => match self.install_fault(id) {
                        Some(e) => self.refuse(e),
                        None => ClientModel {
                            surfaces: self.surfaces.insert(id, SurfaceModel::fresh(id)),
                            ..self.with_object(id, Interface::Surface)
                        }.done(),
                    },
                }
            },
        }
    }

    pub open spec fn ask_frame(self, surface_id: ObjectId, payload: Seq<u8>) -> (
        ClientModel,
        Option<Fault>,
    ) {
        match requests::size_fault(payload, 4) {
            Some(error) => self.refuse(
                ClientError::Malformed { interface: Interface::Surface, opcode: 4, error },
            ),
            None => {
                let id = ObjectId(bytes::le32_at(payload, 0));
                if !self.surfaces.contains_key(surface_id) {
                    self.refuse(ClientError::UnknownSurface { surface_id })
                } else {
                    match self.install_fault(id) {
                        Some(e) => self.refuse(e),
                        None => {
                            let surface = self.surfaces[surface_id];
                            ClientModel {
                                surfaces: self.surfaces.insert(
                                    surface_id,
                                    SurfaceModel {
                                        pending_frame_callbacks:
                                            surface.pending_frame_callbacks.push(id),
                                        ..surface
                                    },
                                ),
                                ..self.with_object(id, Interface::Callback)
                            }.done()
                        },
                    }
                }
            },
        }
    }

    /// Why a pool may not be made, if it may not.
    pub open spec fn pool_fault(self, payload: Seq<u8>, server_bytes: u64, server_limit: u64) -> Option<
        ClientError,
    > {
        let request = ShmCreatePool::held_by(payload);
        let many = capacity_fault(
            ClientResource::Pools,
            self.pools.dom().len() as int,
            1,
            self.limits.pools,
        );
        let large = self.pool_byte_fault(request.size as u64);
        let crowded = ClientModel::server_pool_byte_fault(
            request.size as u64,
            server_bytes,
            server_limit,
        );
        match requests::size_fault(payload, 8) {
            Some(error) => Some(
                ClientError::Malformed { interface: Interface::Shm, opcode: 1, error },
            ),
            None => if request.size > MAX_POOL_SIZE {
                Some(ClientError::PoolTooLarge { requested: request.size, max: MAX_POOL_SIZE })
            } else if many is Some {
                many
            } else if large is Some {
                large
            } else if crowded is Some {
                crowded
            } else {
                self.install_fault(request.new_id)
            },
        }
    }

    /// The state with a new pool in the given memory.
    pub open spec fn with_pool(self, request: ShmCreatePool, storage: Seq<u8>) -> ClientModel {
        ClientModel {
            pools: self.pools.insert(request.new_id, PoolModel { size: request.size, storage }),
            pool_bytes: self.pool_bytes.saturating_add(request.size as u64),
            ..self.with_object(request.new_id, Interface::ShmPool)
        }
    }

    /// `granted` says whether the memory could be had.
    pub open spec fn create_pool(
        self,
        payload: Seq<u8>,
        server_bytes: u64,
        server_limit: u64,
        granted: bool,
    ) -> (ClientModel, Option<Fault>) {
        let request = ShmCreatePool::held_by(payload);
        match self.pool_fault(payload, server_bytes, server_limit) {
            Some(e) => self.refuse(e),
            None => if !granted {
                self.refuse(ClientError::PoolAllocationFailed { requested: request.size })
            } else {
                self.with_pool(request, Seq::new(request.size as nat, |i: int| 0u8)).done()
            },
        }
    }

    pub open spec fn create_buffer(self, pool_id: ObjectId, payload: Seq<u8>) -> (
        ClientModel,
        Option<Fault>,
    ) {
        match requests::size_fault(payload, 24) {
            Some(error) => self.refuse(
                ClientError::Malformed { interface: Interface::ShmPool, opcode: 1, error },
            ),
            None => {
                let request = ShmPoolCreateBuffer::held_by(payload);
                let info = BufferInfo {
                    pool_id,
                    offset: request.offset,
                    width: request.width,
                    height: request.height,
                    stride: request.stride,
                    format: request.format,
                };
                if !self.pools.contains_key(pool_id) {
                    self.refuse(ClientError::UnknownPool { pool_id })
                } else if info.end() > self.pools[pool_id].size {
                    self.refuse(
                        ClientError::BufferOutOfPool {
                            pool_id,
                            pool_size: self.pools[pool_id].size,
                            byte_end: info.end() as u64,
                        },
                    )
                } else {
                    match capacity_fault(
                        ClientResource::Buffers,
                        self.buffers.dom().len() as int,
                        1,
                        self.limits.buffers,
                    ) {
                        Some(e) => self.refuse(e),
                        None => match self.install_fault(request.new_id) {
                            Some(e) => self.refuse(e),
                            None => ClientModel {
                                buffers: self.buffers.insert(request.new_id, info),
                                ..self.with_object(request.new_id, Interface::Buffer)
                            }.done(),
                        },
                    }
                }
            },
        }
    }

    /// Whether the buffer lies inside a pool that is there.
    pub open spec fn is_backed(self, buffer_id: ObjectId) -> bool {
        &&& self.buffers.contains_key(buffer_id)
        &&& self.pools.contains_key(self.buffers[buffer_id].pool_id)
        &&& self.buffers[buffer_id].end() <= self.pools[self.buffers[buffer_id].pool_id].size
        &&& self.buffers[buffer_id].end() <= self.pools[self.buffers[buffer_id].pool_id].storage.len()
    }

    /// The memory of a buffer, if all of it is there.
    pub open spec fn buffer_memory(self, buffer_id: ObjectId) -> Option<Seq<u8>> {
        if !self.buffers.contains_key(buffer_id) {
            None
        } else {
            let info = self.buffers[buffer_id];
            if !self.pools.contains_key(info.pool_id) || info.end()
                > self.pools[info.pool_id].storage.len() {
                None
            } else {
                Some(self.pools[info.pool_id].storage.subrange(info.offset as int, info.end()))
            }
        }
    }

    /// Why a strided write may not touch the pool while `surface_id` shows
    /// what it shows.
    pub open spec fn write_fault(
        self,
        surface_id: ObjectId,
        pool_id: ObjectId,
        at: int,
        row_bytes: int,
        rows: int,
        stride: int,
    ) -> Option<ClientError> {
        let current = self.surfaces[surface_id].current_buffer;
        if current is None {
            None
        } else {
            let buffer_id = current->0.buffer_id;
            if !self.is_backed(buffer_id) {
                Some(ClientError::PoolWriteInvalidCurrentBacking { surface_id, buffer_id })
            } else if self.buffers[buffer_id].pool_id == pool_id && some_row_meets(
                at,
                row_bytes,
                rows,
                stride,
                self.buffers[buffer_id].offset as int,
                self.buffers[buffer_id].end(),
            ) {
                Some(
                    ClientError::PoolWriteIntersectsCurrentBuffer { pool_id, surface_id, buffer_id },
                )
            } else {
                None
            }
        }
    }

    /// Why a strided write may not touch the pool, judged surface by surface
    /// in ascending order.
    pub open spec fn writes_fault(
        self,
        pool_id: ObjectId,
        at: int,
        row_bytes: int,
        rows: int,
        stride: int,
    ) -> Option<ClientError> {
        if row_bytes == 0 || rows == 0 {
            None
        } else {
            self.write_fault_among(
                ordered::ascending_keys(self.surfaces.dom()),
                pool_id,
                at,
                row_bytes,
                rows,
                stride,
                0,
            )
        }
    }

    /// The first fault of a strided write among the listed surfaces.
    pub open spec fn write_fault_among(
        self,
        ids: Seq<ObjectId>,
        pool_id: ObjectId,
        at: int,
        row_bytes: int,
        rows: int,
        stride: int,
        from: nat,
    ) -> Option<ClientError>
        decreases ids.len() - from,
    {
        if from >= ids.len() {
            None
        } else {
            match self.write_fault(ids[from as int], pool_id, at, row_bytes, rows, stride) {
                Some(e) => Some(e),
                None => self.write_fault_among(
                    ids,
                    pool_id,
                    at,
                    row_bytes,
                    rows,
                    stride,
                    from + 1,
                ),
            }
        }
    }

    pub open spec fn with_storage(self, pool_id: ObjectId, storage: Seq<u8>) -> ClientModel {
        ClientModel {
            pools: self.pools.insert(
                pool_id,
                PoolModel { size: self.pools[pool_id].size, storage },
            ),
            ..self
        }
    }

    pub open spec fn write_pool(self, pool_id: ObjectId, payload: Seq<u8>) -> (
        ClientModel,
        Option<Fault>,
    ) {
        match requests::pool_write_fault(payload) {
            Some(error) => self.refuse(
                ClientError::Malformed { interface: Interface::ShmPool, opcode: 4, error },
            ),
            None => {
                let at = bytes::le32_at(payload, 0) as int;
                let data = payload.skip(4);
                if !self.pools.contains_key(pool_id) {
                    self.refuse(ClientError::UnknownPool { pool_id })
                } else if at + data.len() > self.pools[pool_id].storage.len() {
                    self.refuse(
                        ClientError::BufferOutOfPool {
                            pool_id,
                            pool_size: self.pools[pool_id].size,
                            byte_end: arith::min_int(at + data.len(), usize::MAX as int) as u64,
                        },
                    )
                } else {
                    match self.writes_fault(
                        pool_id,
                        at,
                        data.len() as int,
                        1,
                        data.len() as int,
                    ) {
                        Some(e) => self.refuse(e),
                        None => self.with_storage(
                            pool_id,
                            overlaid(self.pools[pool_id].storage, at, data),
                        ).done(),
                    }
                }
            },
        }
    }

    pub open spec fn write_pool_rows(self, pool_id: ObjectId, payload: Seq<u8>) -> (
        ClientModel,
        Option<Fault>,
    ) {
        match requests::pool_write_rows_fault(payload) {
            Some(error) => self.refuse(
                ClientError::Malformed { interface: Interface::ShmPool, opcode: 5, error },
            ),
            None => {
                let at = bytes::le32_at(payload, 0);
                let row_bytes = bytes::le32_at(payload, 4);
                let rows = bytes::le32_at(payload, 8);
                let stride = bytes::le32_at(payload, 12);
                let end = at + (rows - 1) * stride + row_bytes;
                if row_bytes == 0 || rows == 0 || stride < row_bytes || end > u64::MAX {
                    self.refuse(ClientError::InvalidPoolWriteRows { row_bytes, rows, stride })
                } else if !self.pools.contains_key(pool_id) {
                    self.refuse(ClientError::UnknownPool { pool_id })
                } else if end > self.pools[pool_id].size || end > self.pools[pool_id].storage.len() {
                    self.refuse(
                        ClientError::BufferOutOfPool {
                            pool_id,
                            pool_size: self.pools[pool_id].size,
                            byte_end: end as u64,
                        },
                    )
                } else {
                    match self.writes_fault(
                        pool_id,
                        at as int,
                        row_bytes as int,
                        rows as int,
                        stride as int,
                    ) {
                        Some(e) => self.refuse(e),
                        None => self.with_storage(
                            pool_id,
                            rows_overlaid(
                                self.pools[pool_id].storage,
                                at as int,
                                stride as int,
                                row_bytes as int,
                                payload.skip(16),
                                rows as nat,
                            ),
                        ).done(),
                    }
                }
            },
        }
    }

    pub open spec fn get_pointer(self, payload: Seq<u8>) -> (ClientModel, Option<Fault>) {
        match requests::size_fault(payload, 4) {
            Some(error) => self.refuse(
                ClientError::Malformed { interface: Interface::Seat, opcode: 1, error },
            ),
            None => {
                let id = ObjectId(bytes::le32_at(payload, 0));
                if self.pointer_id is Some {
                    self.refuse(ClientError::PointerAlreadyBound { existing: self.pointer_id->0 })
                } else {
                    match self.install_fault(id) {
                        Some(e) => self.refuse(e),
                        None => ClientModel {
                            pointer_id: Some(id),
                            ..self.with_object(id, Interface::Pointer)
                        }.done(),
                    }
                }
            },
        }
    }

    pub open spec fn get_keyboard(self, payload: Seq<u8>) -> (ClientModel, Option<Fault>) {
        match requests::size_fault(payload, 4) {
            Some(error) => self.refuse(
                ClientError::Malformed { interface: Interface::Seat, opcode: 2, error },
            ),
            None => {
                let id = ObjectId(bytes::le32_at(payload, 0));
                if self.keyboard_id is Some {
                    self.refuse(ClientError::KeyboardAlreadyBound { existing: self.keyboard_id->0 })
                } else {
                    match self.install_fault(id) {
                        Some(e) => self.refuse(e),
                        None => ClientModel {
                            keyboard_id: Some(id),
                            ..self.with_object(id, Interface::Keyboard)
                        }.done(),
                    }
                }
            },
        }
    }

    pub open spec fn get_toplevel(self, payload: Seq<u8>) -> (ClientModel, Option<Fault>) {
        match requests::size_fault(payload, 8) {
            Some(error) => self.refuse(
                ClientError::Malformed { interface: Interface::XdgShell, opcode: 1, error },
            ),
            None => {
                let request = XdgShellGetToplevel::held_by(payload);
                let surface_id = request.surface_id;
                let id = request.new_id;
                if !self.is_object(surface_id, Interface::Surface) {
                    self.refuse(ClientError::ToplevelSurfaceNotFound { surface_id })
                } else if self.toplevel_by_surface.contains_key(surface_id) {
                    self.refuse(
                        ClientError::SurfaceAlreadyHasToplevel {
                            surface_id,
                            existing_toplevel: self.toplevel_by_surface[surface_id],
                        },
                    )
                } else {
                    match capacity_fault(
                        ClientResource::Toplevels,
                        self.toplevels.dom().len() as int,
                        1,
                        self.limits.toplevels,
                    ) {
                        Some(e) => self.refuse(e),
                        None => match self.install_fault(id) {
                            Some(e) => self.refuse(e),
                            None => self.with_toplevel(id, surface_id).done(),
                        },
                    }
                }
            },
        }
    }

    /// The state after a surface has become a toplevel.
    pub open spec fn with_toplevel(self, id: ObjectId, surface_id: ObjectId) -> ClientModel {
        let offset = self.next_toplevel_offset;
        ClientModel {
            toplevels: self.toplevels.insert(
                id,
                ToplevelModel {
                    ordinal: self.next_toplevel_ordinal,
                    ..ToplevelModel::fresh(id, surface_id, offset, offset)
                },
            ),
            next_toplevel_ordinal: (self.next_toplevel_ordinal + 1) as u32,
            surfaces: if self.surfaces.contains_key(surface_id) {
                self.surfaces.insert(
                    surface_id,
                    SurfaceModel { had_toplevel_role: true, ..self.surfaces[surface_id] },
                )
            } else {
                self.surfaces
            },
            toplevel_by_surface: self.toplevel_by_surface.insert(surface_id, id),
            next_toplevel_offset: arith::sat_i32(offset + AUTO_LAYOUT_STEP),
            ..self.with_object(id, Interface::XdgToplevel)
        }
    }

    /// The effect of a request that creates an object or writes pool memory;
    /// other requests change nothing here.
    pub open spec fn auto_install(
        self,
        target: ObjectId,
        interface: Interface,
        opcode: u16,
        payload: Seq<u8>,
        server_bytes: u64,
        server_limit: u64,
        granted: bool,
    ) -> (ClientModel, Option<Fault>) {
        match (interface, opcode) {
            (Interface::Display, 1) => self.install_new_id(
                interface,
                opcode,
                payload,
                Interface::Callback,
            ),
            (Interface::Display, 2) => self.install_new_id(
                interface,
                opcode,
                payload,
                Interface::Registry,
            ),
            (Interface::Registry, 1) => self.bind(payload),
            (Interface::Compositor, 1) => self.create_surface(payload),
            (Interface::Surface, 4) => self.ask_frame(target, payload),
            (Interface::Shm, 1) => self.create_pool(payload, server_bytes, server_limit, granted),
            (Interface::ShmPool, 1) => self.create_buffer(target, payload),
            (Interface::ShmPool, 4) => self.write_pool(target, payload),
            (Interface::ShmPool, 5) => self.write_pool_rows(target, payload),
            (Interface::Seat, 1) => self.get_pointer(payload),
            (Interface::Seat, 2) => self.get_keyboard(payload),
            (Interface::XdgShell, 1) => self.get_toplevel(payload),
            _ => self.done(),
        }
    }

    // Requests that end or resize objects.

    /// Whether `end` is how far into the pool its buffers reach.
    pub open spec fn is_extent(self, pool_id: ObjectId, end: int) -> bool {
        &&& forall|b: ObjectId| #[trigger]
            self.buffers.contains_key(b) && self.buffers[b].pool_id == pool_id
                ==> self.buffers[b].end() <= end
        &&& end == 0 || exists|b: ObjectId| #[trigger]
            self.buffers.contains_key(b) && self.buffers[b].pool_id == pool_id
                && self.buffers[b].end() == end
        &&& end >= 0
    }

    /// How far into the pool its buffers reach.
    pub open spec fn pool_extent(self, pool_id: ObjectId) -> int {
        choose|end: int| self.is_extent(pool_id, end)
    }

    /// A pool's bytes after it is given a new size: cut off, or continued with
    /// zeros.
    pub open spec fn resized(storage: Seq<u8>, size: nat) -> Seq<u8> {
        Seq::new(
            size,
            |i: int|
                if i < storage.len() {
                    storage[i]
                } else {
                    0u8
                },
        )
    }

    /// Why a pool may not be given a new size, if it may not.
    pub open spec fn resize_fault(
        self,
        pool_id: ObjectId,
        payload: Seq<u8>,
        server_bytes: u64,
        server_limit: u64,
    ) -> Option<ClientError> {
        let size = bytes::le32_at(payload, 0);
        let additional = size.saturating_sub(self.pools[pool_id].size) as u64;
        let large = self.pool_byte_fault(additional);
        match requests::size_fault(payload, 4) {
            Some(error) => Some(
                ClientError::Malformed { interface: Interface::ShmPool, opcode: 2, error },
            ),
            None => if size > MAX_POOL_SIZE {
                Some(ClientError::PoolTooLarge { requested: size, max: MAX_POOL_SIZE })
            } else if !self.pools.contains_key(pool_id) {
                Some(ClientError::UnknownPool { pool_id })
            } else if size < self.pool_extent(pool_id) {
                Some(
                    ClientError::PoolResizeWouldTruncateBuffer {
                        pool_id,
                        requested: size,
                        required: self.pool_extent(pool_id) as u64,
                    },
                )
            } else if large is Some {
                large
            } else {
                ClientModel::server_pool_byte_fault(additional, server_bytes, server_limit)
            },
        }
    }

    /// A pool that is given a new size. `granted` says whether the memory for
    /// it could be had.
    pub open spec fn set_pool_size(self, pool_id: ObjectId, size: u32, granted: bool) -> (
        ClientModel,
        Option<Fault>,
    ) {
        let pool = self.pools[pool_id];
        if !self.pools.contains_key(pool_id) {
            self.refuse(ClientError::UnknownPool { pool_id })
        } else if size > pool.storage.len() && !granted {
            self.refuse(ClientError::PoolAllocationFailed { requested: size })
        } else {
            ClientModel {
                pools: self.pools.insert(
                    pool_id,
                    PoolModel { size, storage: ClientModel::resized(pool.storage, size as nat) },
                ),
                pool_bytes: self.pool_bytes.saturating_sub(pool.size as u64).saturating_add(
                    size as u64,
                ),
                ..self
            }.done()
        }
    }

    pub open spec fn resize_pool(
        self,
        pool_id: ObjectId,
        payload: Seq<u8>,
        server_bytes: u64,
        server_limit: u64,
        granted: bool,
    ) -> (ClientModel, Option<Fault>) {
        match self.resize_fault(pool_id, payload, server_bytes, server_limit) {
            Some(e) => self.refuse(e),
            None => self.set_pool_size(pool_id, bytes::le32_at(payload, 0), granted),
        }
    }

    /// The state after an object is destroyed whose id is not yet given back.
    pub open spec fn retire(self, id: ObjectId) -> ClientModel {
        ClientModel {
            objects: self.objects.remove(id),
            retired: self.retired.insert(id),
            ..self
        }
    }

    /// Whether some surface shows the buffer.
    pub open spec fn is_current(self, buffer_id: ObjectId) -> bool {
        exists|s: ObjectId| #[trigger]
            self.surfaces.contains_key(s) && self.surfaces[s].current_buffer is Some
                && self.surfaces[s].current_buffer->0.buffer_id == buffer_id
    }

    /// Tells the client that a buffer is no longer shown, if that is so.
    pub open spec fn release(self, buffer_id: Option<ObjectId>) -> ClientModel {
        if buffer_id is Some && !self.is_current(buffer_id->0) && self.is_object(
            buffer_id->0,
            Interface::Buffer,
        ) {
            self.emit(buffer_id->0, 1, Seq::empty())
        } else {
            self
        }
    }

    /// Whether some surface shows the buffer, or will with its next commit.
    pub open spec fn is_held(self, buffer_id: ObjectId) -> bool {
        exists|s: ObjectId| #[trigger]
            self.surfaces.contains_key(s) && self.surfaces[s].holds(buffer_id)
    }

    /// The destroyed buffers that nothing refers to any more.
    pub open spec fn dead_buffers(self) -> Set<ObjectId> {
        self.buffers.dom().filter(
            |b: ObjectId| !self.is_object(b, Interface::Buffer) && !self.is_held(b),
        )
    }

    pub open spec fn has_buffers(self, pool_id: ObjectId) -> bool {
        exists|b: ObjectId| #[trigger]
            self.buffers.contains_key(b) && self.buffers[b].pool_id == pool_id
    }

    /// The destroyed pools that no buffer lies in any more.
    pub open spec fn dead_pools(self) -> Set<ObjectId> {
        self.pools.dom().filter(
            |p: ObjectId| !self.is_object(p, Interface::ShmPool) && !self.has_buffers(p),
        )
    }

    pub open spec fn bury_buffer(self, id: ObjectId) -> ClientModel {
        ClientModel {
            buffers: self.buffers.remove(id),
            retired: self.retired.remove(id),
            ..self
        }.emit_delete_id(id)
    }

    pub open spec fn bury_pool(self, id: ObjectId) -> ClientModel {
        ClientModel {
            pools: self.pools.remove(id),
            pool_bytes: if self.pools.contains_key(id) {
                self.pool_bytes.saturating_sub(self.pools[id].size as u64)
            } else {
                self.pool_bytes
            },
            retired: self.retired.remove(id),
            ..self
        }.emit_delete_id(id)
    }

    pub open spec fn bury_buffers(self, ids: Seq<ObjectId>) -> ClientModel
        decreases ids.len(),
    {
        if ids.len() == 0 {
            self
        } else {
            self.bury_buffers(ids.drop_last()).bury_buffer(ids.last())
        }
    }

    pub open spec fn bury_pools(self, ids: Seq<ObjectId>) -> ClientModel
        decreases ids.len(),
    {
        if ids.len() == 0 {
            self
        } else {
            self.bury_pools(ids.drop_last()).bury_pool(ids.last())
        }
    }

    /// Frees what was destroyed and is no longer referred to: buffers first,
    /// then pools, each in ascending order, and gives their ids back.
    #[verifier::opaque]
    pub open spec fn reap(self) -> ClientModel {
        let without_buffers = self.bury_buffers(ordered::ascending_keys(self.dead_buffers()));
        without_buffers.bury_pools(ordered::ascending_keys(without_buffers.dead_pools()))
    }

    pub open spec fn destroy_surface(self, surface_id: ObjectId) -> (ClientModel, Option<Fault>) {
        if self.toplevel_by_surface.contains_key(surface_id) {
            self.refuse(
                ClientError::SurfaceHasToplevel {
                    surface_id,
                    toplevel_id: self.toplevel_by_surface[surface_id],
                },
            )
        } else {
            let known = self.surfaces.contains_key(surface_id);
            let shown = if known && self.surfaces[surface_id].current_buffer is Some {
                Some(self.surfaces[surface_id].current_buffer->0.buffer_id)
            } else {
                None
            };
            let pending = if known {
                self.surfaces[surface_id].pending_frame_callbacks
            } else {
                Seq::empty()
            };
            let retired = self.retire(surface_id);
            ClientModel {
                surfaces: self.surfaces.remove(surface_id),
                awaiting: callbacks_not_of(self.awaiting, surface_id),
                ready: self.ready.push(
                    BatchModel {
                        callback_data: None,
                        callbacks: asked_by(
                            surface_id,
                            callbacks_of(self.awaiting, surface_id) + pending,
                        ),
                        surface_delete_id: Some(surface_id),
                    },
                ),
                ..retired
            }.release(shown).reap().done()
        }
    }

    /// The effect of a request that ends or resizes an object; other requests
    /// change nothing here.
    pub open spec fn apply_resource_lifecycle(
        self,
        target: ObjectId,
        interface: Interface,
        opcode: u16,
        payload: Seq<u8>,
        server_bytes: u64,
        server_limit: u64,
        granted: bool,
    ) -> (ClientModel, Option<Fault>) {
        match (interface, opcode) {
            (Interface::ShmPool, 2) => self.resize_pool(
                target,
                payload,
                server_bytes,
                server_limit,
                granted,
            ),
            (Interface::ShmPool, 3) => self.retire(target).reap().done(),
            (Interface::Buffer, 1) => self.retire(target).reap().done(),
            (Interface::Surface, 1) => self.destroy_surface(target),
            _ => self.done(),
        }
    }

    /// Takes a surface's buffers and damage away, as when its window ends.
    pub open spec fn detach_surface(self, surface_id: ObjectId) -> ClientModel {
        if self.surfaces.contains_key(surface_id) {
            let surface = self.surfaces[surface_id];
            let shown = if surface.current_buffer is Some {
                Some(surface.current_buffer->0.buffer_id)
            } else {
                None
            };
            ClientModel {
                surfaces: self.surfaces.insert(
                    surface_id,
                    SurfaceModel {
                        pending_buffer: None,
                        pending_attach: false,
                        pending_damage: Seq::empty(),
                        pending_damage_unprovable: false,
                        current_buffer: None,
                        ..surface
                    },
                ),
                ..self
            }.release(shown).reap()
        } else {
            self.reap()
        }
    }

    // Surface state.

    pub open spec fn attach(self, surface_id: ObjectId, payload: Seq<u8>) -> (
        ClientModel,
        Option<Fault>,
    ) {
        match requests::size_fault(payload, 12) {
            Some(error) => self.refuse(
                ClientError::Malformed { interface: Interface::Surface, opcode: 2, error },
            ),
            None => {
                let request = SurfaceAttach::held_by(payload);
                if request.buffer_id != ObjectId(0) && !self.is_object(
                    request.buffer_id,
                    Interface::Buffer,
                ) {
                    self.refuse(ClientError::UnknownBuffer { buffer_id: request.buffer_id })
                } else if !self.surfaces.contains_key(surface_id) {
                    self.refuse(ClientError::UnknownSurface { surface_id })
                } else {
                    ClientModel {
                        surfaces: self.surfaces.insert(
                            surface_id,
                            SurfaceModel {
                                pending_attach: true,
                                pending_buffer: if request.buffer_id == ObjectId(0) {
                                    None
                                } else {
                                    Some(
                                        BufferAttachment {
                                            buffer_id: request.buffer_id,
                                            x: request.x,
                                            y: request.y,
                                        },
                                    )
                                },
                                ..self.surfaces[surface_id]
                            },
                        ),
                        ..self
                    }.done()
                }
            },
        }
    }

    pub open spec fn damage(self, surface_id: ObjectId, payload: Seq<u8>) -> (
        ClientModel,
        Option<Fault>,
    ) {
        match requests::size_fault(payload, 16) {
            Some(error) => self.refuse(
                ClientError::Malformed { interface: Interface::Surface, opcode: 3, error },
            ),
            None => {
                let request = SurfaceDamage::held_by(payload);
                let rect = DamageRect {
                    x: request.x,
                    y: request.y,
                    width: request.width,
                    height: request.height,
                };
                if !self.surfaces.contains_key(surface_id) {
                    self.refuse(ClientError::UnknownSurface { surface_id })
                } else if self.limits.damage_rects_per_surface == 0 {
                    self.done()
                } else {
                    let surface = self.surfaces[surface_id];
                    let room = surface.pending_damage.len() < self.limits.damage_rects_per_surface;
                    ClientModel {
                        surfaces: self.surfaces.insert(
                            surface_id,
                            SurfaceModel {
                                pending_damage: if room {
                                    surface.pending_damage.push(rect)
                                } else {
                                    seq![coalesced(surface.pending_damage, rect)]
                                },
                                pending_damage_unprovable: surface.pending_damage_unprovable
                                    || !room,
                                ..surface
                            },
                        ),
                        ..self
                    }.done()
                }
            },
        }
    }

    /// Whether two buffers share bytes of one pool.
    pub open spec fn overlap(self, a: ObjectId, b: ObjectId) -> bool {
        let x = self.buffers[a];
        let y = self.buffers[b];
        x.pool_id == y.pool_id && x.offset < y.end() && y.offset < x.end()
    }

    /// Why a surface may not show `candidate` beside what another surface shows.
    pub open spec fn alias_fault(
        self,
        surface_id: ObjectId,
        candidate: ObjectId,
        other: ObjectId,
    ) -> Option<ClientError> {
        let current = self.surfaces[other].current_buffer;
        if other == surface_id || current is None {
            None
        } else {
            let buffer_id = current->0.buffer_id;
            if !self.is_backed(buffer_id) {
                Some(
                    ClientError::SurfaceCommitInvalidBacking {
                        surface_id: other,
                        buffer_id,
                    },
                )
            } else if self.overlap(candidate, buffer_id) {
                Some(
                    ClientError::SurfaceCommitAliasedBuffer {
                        surface_id,
                        buffer_id: candidate,
                        conflicting_surface_id: other,
                        conflicting_buffer_id: buffer_id,
                    },
                )
            } else {
                None
            }
        }
    }

    /// The first such fault among the listed surfaces.
    pub open spec fn alias_fault_among(
        self,
        ids: Seq<ObjectId>,
        surface_id: ObjectId,
        candidate: ObjectId,
        from: nat,
    ) -> Option<ClientError>
        decreases ids.len() - from,
    {
        if from >= ids.len() {
            None
        } else {
            match self.alias_fault(surface_id, candidate, ids[from as int]) {
                Some(e) => Some(e),
                None => self.alias_fault_among(ids, surface_id, candidate, from + 1),
            }
        }
    }

    /// Why a surface's pending buffer may not be shown, if it may not.
    pub open spec fn commit_fault(self, surface_id: ObjectId) -> Option<ClientError> {
        if !self.surfaces.contains_key(surface_id) {
            Some(ClientError::UnknownSurface { surface_id })
        } else {
            let surface = self.surfaces[surface_id];
            if !surface.pending_attach || surface.pending_buffer is None {
                None
            } else {
                let candidate = surface.pending_buffer->0.buffer_id;
                let replaced = surface.current_buffer;
                if !self.is_backed(candidate) {
                    Some(
                        ClientError::SurfaceCommitInvalidBacking {
                            surface_id,
                            buffer_id: candidate,
                        },
                    )
                } else if replaced is Some && replaced->0.buffer_id != candidate && !self.is_backed(
                    replaced->0.buffer_id,
                ) {
                    Some(
                        ClientError::SurfaceCommitInvalidBacking {
                            surface_id,
                            buffer_id: replaced->0.buffer_id,
                        },
                    )
                } else if replaced is Some && replaced->0.buffer_id != candidate && self.overlap(
                    candidate,
                    replaced->0.buffer_id,
                ) {
                    Some(
                        ClientError::SurfaceCommitAliasedBuffer {
                            surface_id,
                            buffer_id: candidate,
                            conflicting_surface_id: surface_id,
                            conflicting_buffer_id: replaced->0.buffer_id,
                        },
                    )
                } else {
                    self.alias_fault_among(
                        ordered::ascending_keys(self.surfaces.dom()),
                        surface_id,
                        candidate,
                        0,
                    )
                }
            }
        }
    }

    pub open spec fn commit(self, surface_id: ObjectId) -> (ClientModel, Option<Fault>) {
        match self.commit_fault(surface_id) {
            Some(e) => self.refuse(e),
            None => {
                let surface = self.surfaces[surface_id];
                let shown = if surface.pending_attach {
                    surface.pending_buffer
                } else {
                    surface.current_buffer
                };
                let before = if surface.current_buffer is Some {
                    Some(surface.current_buffer->0.buffer_id)
                } else {
                    None
                };
                let after = if shown is Some {
                    Some(shown->0.buffer_id)
                } else {
                    None
                };
                ClientModel {
                    surfaces: self.surfaces.insert(
                        surface_id,
                        SurfaceModel {
                            current_buffer: shown,
                            pending_buffer: if surface.pending_attach {
                                None
                            } else {
                                surface.pending_buffer
                            },
                            pending_attach: false,
                            pending_damage: Seq::empty(),
                            pending_damage_unprovable: false,
                            commit_count: surface.commit_count.saturating_add(1),
                            pending_frame_callbacks: Seq::empty(),
                            ..surface
                        },
                    ),
                    awaiting: self.awaiting + asked_by(
                        surface_id,
                        surface.pending_frame_callbacks,
                    ),
                    ..self
                }.release(
                    if before != after {
                        before
                    } else {
                        None
                    },
                ).done()
            },
        }
    }

    /// Why a patch may not change bytes that another surface shows.
    pub open spec fn patch_alias_fault(
        self,
        surface_id: ObjectId,
        pool_id: ObjectId,
        start: int,
        end: int,
        other: ObjectId,
    ) -> Option<ClientError> {
        let current = self.surfaces[other].current_buffer;
        if other == surface_id || current is None {
            None
        } else {
            let buffer_id = current->0.buffer_id;
            if !self.is_backed(buffer_id) {
                Some(
                    ClientError::SurfacePatchInvalidAliasBacking {
                        other_surface_id: other,
                        buffer_id,
                    },
                )
            } else if self.buffers[buffer_id].pool_id == pool_id && start
                < self.buffers[buffer_id].end() && self.buffers[buffer_id].offset < end {
                Some(
                    ClientError::SurfacePatchAliasedCurrentBuffer {
                        surface_id,
                        other_surface_id: other,
                    },
                )
            } else {
                None
            }
        }
    }

    /// The first such fault among the listed surfaces.
    pub open spec fn patch_alias_fault_among(
        self,
        ids: Seq<ObjectId>,
        surface_id: ObjectId,
        pool_id: ObjectId,
        start: int,
        end: int,
        from: nat,
    ) -> Option<ClientError>
        decreases ids.len() - from,
    {
        if from >= ids.len() {
            None
        } else {
            match self.patch_alias_fault(surface_id, pool_id, start, end, ids[from as int]) {
                Some(e) => Some(e),
                None => self.patch_alias_fault_among(
                    ids,
                    surface_id,
                    pool_id,
                    start,
                    end,
                    from + 1,
                ),
            }
        }
    }

    /// Why a surface may not be patched, if it may not.
    pub open spec fn patch_fault(self, surface_id: ObjectId, payload: Seq<u8>) -> Option<
        ClientError,
    > {
        let x = bytes::le32_at(payload, 0) as i32;
        let y = bytes::le32_at(payload, 4) as i32;
        let width = bytes::le32_at(payload, 8);
        let height = bytes::le32_at(payload, 12);
        if payload.len() - 16 > MAX_SURFACE_PATCH_BYTES {
            Some(
                ClientError::SurfacePatchTooLarge {
                    bytes: (payload.len() - 16) as u64,
                    max: MAX_SURFACE_PATCH_BYTES,
                },
            )
        } else if requests::surface_patch_fault(payload) is Some {
            Some(
                ClientError::Malformed {
                    interface: Interface::Surface,
                    opcode: 8,
                    error: requests::surface_patch_fault(payload)->0,
                },
            )
        } else if !self.surfaces.contains_key(surface_id) {
            Some(ClientError::UnknownSurface { surface_id })
        } else {
            let surface = self.surfaces[surface_id];
            if surface.pending_attach || surface.pending_buffer is Some
                || surface.pending_damage.len() > 0 {
                Some(ClientError::SurfacePatchHasPendingState { surface_id })
            } else if surface.current_buffer is None {
                Some(ClientError::SurfacePatchNoCurrentBuffer { surface_id })
            } else {
                let buffer_id = surface.current_buffer->0.buffer_id;
                if !self.buffers.contains_key(buffer_id) {
                    Some(ClientError::UnknownBuffer { buffer_id })
                } else {
                    let buffer = self.buffers[buffer_id];
                    let pool_id = buffer.pool_id;
                    if buffer.format != BUFFER_FORMAT_ARGB8888 && buffer.format
                        != BUFFER_FORMAT_XRGB8888 {
                        Some(
                            ClientError::SurfacePatchUnsupportedFormat {
                                buffer_id,
                                format: buffer.format,
                            },
                        )
                    } else if !self.pools.contains_key(pool_id) {
                        Some(ClientError::UnknownPool { pool_id })
                    } else if buffer.stride < 4 * buffer.width || !self.is_backed(buffer_id) {
                        Some(ClientError::SurfacePatchInvalidBacking { buffer_id, pool_id })
                    } else if x < 0 || y < 0 || width == 0 || height == 0 || x + width
                        > buffer.width || y + height > buffer.height {
                        Some(
                            ClientError::SurfacePatchInvalidGeometry {
                                x,
                                y,
                                width,
                                height,
                                buffer_width: buffer.width,
                                buffer_height: buffer.height,
                            },
                        )
                    } else {
                        let start = buffer.offset + y * buffer.stride + 4 * x;
                        let end = buffer.offset + (y + height - 1) * buffer.stride + 4 * (x
                            + width);
                        self.patch_alias_fault_among(
                            ordered::ascending_keys(self.surfaces.dom()),
                            surface_id,
                            pool_id,
                            start,
                            end,
                            0,
                        )
                    }
                }
            }
        }
    }

    pub open spec fn patch(self, surface_id: ObjectId, payload: Seq<u8>) -> (
        ClientModel,
        Option<Fault>,
    ) {
        match self.patch_fault(surface_id, payload) {
            Some(e) => self.refuse(e),
            None => {
                let x = bytes::le32_at(payload, 0) as i32;
                let y = bytes::le32_at(payload, 4) as i32;
                let width = bytes::le32_at(payload, 8);
                let height = bytes::le32_at(payload, 12);
                let surface = self.surfaces[surface_id];
                let buffer = self.buffers[surface.current_buffer->0.buffer_id];
                let patched = self.with_storage(
                    buffer.pool_id,
                    rows_overlaid(
                        self.pools[buffer.pool_id].storage,
                        buffer.offset + y * buffer.stride + 4 * x,
                        buffer.stride as int,
                        4 * width,
                        payload.skip(16),
                        height as nat,
                    ),
                );
                ClientModel {
                    surfaces: self.surfaces.insert(
                        surface_id,
                        SurfaceModel {
                            commit_count: surface.commit_count.saturating_add(1),
                            ..surface
                        },
                    ),
                    ..patched
                }.done()
            },
        }
    }

    pub open spec fn apply_surface_state(
        self,
        surface_id: ObjectId,
        interface: Interface,
        opcode: u16,
        payload: Seq<u8>,
    ) -> (ClientModel, Option<Fault>) {
        match (interface, opcode) {
            (Interface::Surface, 2) => self.attach(surface_id, payload),
            (Interface::Surface, 3) => self.damage(surface_id, payload),
            (Interface::Surface, 7) => self.commit(surface_id),
            (Interface::Surface, 8) => self.patch(surface_id, payload),
            _ => self.done(),
        }
    }

    // Toplevel state.

    pub open spec fn with_toplevel_state(self, id: ObjectId, toplevel: ToplevelModel) -> ClientModel {
        ClientModel { toplevels: self.toplevels.insert(id, toplevel), ..self }
    }

    pub open spec fn apply_toplevel_state(
        self,
        toplevel_id: ObjectId,
        interface: Interface,
        opcode: u16,
        payload: Seq<u8>,
    ) -> (ClientModel, Option<Fault>) {
        if interface != Interface::XdgToplevel || (opcode != 1 && opcode != 2 && opcode != 5
            && opcode != 6) {
            self.done()
        } else if (opcode == 1 || opcode == 2) && requests::text_fault(payload) is Some {
            self.refuse(
                ClientError::Malformed {
                    interface,
                    opcode,
                    error: requests::text_fault(payload)->0,
                },
            )
        } else if !self.toplevels.contains_key(toplevel_id) {
            self.refuse(ClientError::UnknownToplevel { toplevel_id })
        } else {
            let toplevel = self.toplevels[toplevel_id];
            self.with_toplevel_state(
                toplevel_id,
                if opcode == 1 {
                    ToplevelModel { title: text::text_at(payload, 0), ..toplevel }
                } else if opcode == 2 {
                    ToplevelModel { app_id: text::text_at(payload, 0), ..toplevel }
                } else {
                    ToplevelModel { maximized: opcode == 5, ..toplevel }
                },
            ).done()
        }
    }

    /// Why a change of a title or an application id is not admitted, if it is
    /// not.
    pub open spec fn metadata_fault(
        self,
        toplevel_id: ObjectId,
        interface: Interface,
        opcode: u16,
        payload: Seq<u8>,
        server_bytes: u64,
        server_limit: u64,
    ) -> Option<ClientError> {
        if interface != Interface::XdgToplevel || (opcode != 1 && opcode != 2) {
            None
        } else if requests::text_frame_fault(payload) is Some {
            Some(
                ClientError::Malformed {
                    interface,
                    opcode,
                    error: requests::text_frame_fault(payload)->0,
                },
            )
        } else if !self.toplevels.contains_key(toplevel_id) {
            Some(ClientError::UnknownToplevel { toplevel_id })
        } else {
            let toplevel = self.toplevels[toplevel_id];
            let added = text::text_at(payload, 0).len() as u64;
            let replaced = (if opcode == 1 {
                toplevel.title.len()
            } else {
                toplevel.app_id.len()
            }) as u64;
            let kept = (if opcode == 1 {
                toplevel.app_id.len()
            } else {
                toplevel.title.len()
            }) as u64;
            let window_after = kept.saturating_add(added);
            let client_after = self.toplevel_metadata_bytes.saturating_sub(replaced).saturating_add(
                added,
            );
            let server_after = server_bytes.saturating_sub(replaced).saturating_add(added);
            if window_after > MAX_TOPLEVEL_METADATA_BYTES {
                Some(
                    ClientError::ResourceLimitExceeded {
                        resource: ClientResource::ToplevelMetadataBytesPerWindow,
                        attempted: window_after,
                        limit: MAX_TOPLEVEL_METADATA_BYTES,
                    },
                )
            } else if client_after > self.limits.toplevel_metadata_bytes {
                Some(
                    ClientError::ResourceLimitExceeded {
                        resource: ClientResource::ToplevelMetadataBytes,
                        attempted: client_after,
                        limit: self.limits.toplevel_metadata_bytes,
                    },
                )
            } else if server_after > server_limit {
                Some(
                    ClientError::ResourceLimitExceeded {
                        resource: ClientResource::ServerToplevelMetadataBytes,
                        attempted: server_after,
                        limit: server_limit,
                    },
                )
            } else {
                None
            }
        }
    }

    /// The bytes of titles and application ids after an admitted change.
    pub open spec fn metadata_after(
        self,
        toplevel_id: ObjectId,
        interface: Interface,
        opcode: u16,
        payload: Seq<u8>,
    ) -> u64 {
        if interface != Interface::XdgToplevel || (opcode != 1 && opcode != 2) {
            self.toplevel_metadata_bytes
        } else {
            let toplevel = self.toplevels[toplevel_id];
            let replaced = (if opcode == 1 {
                toplevel.title.len()
            } else {
                toplevel.app_id.len()
            }) as u64;
            self.toplevel_metadata_bytes.saturating_sub(replaced).saturating_add(
                text::text_at(payload, 0).len() as u64,
            )
        }
    }

    // Whole requests.

    /// Why the payload of a shell request is not what the request needs.
    pub open spec fn shell_payload_fault(interface: Interface, opcode: u16, payload: Seq<u8>) -> Option<
        ClientError,
    > {
        let size: int = match opcode {
            8 => 0,
            9 => 4,
            10 => 8,
            11 => 32,
            12 => 8,
            _ => payload.len() as int,
        };
        if interface != Interface::ShellManager || requests::size_fault(payload, size) is None {
            None
        } else {
            Some(
                ClientError::Malformed {
                    interface,
                    opcode,
                    error: requests::size_fault(payload, size)->0,
                },
            )
        }
    }

    /// Why all connections together hold too many windows for one more.
    pub open spec fn toplevel_budget_fault(
        interface: Interface,
        opcode: u16,
        budgets: ServerResourceBudgets,
    ) -> Option<ClientError> {
        if interface != Interface::XdgShell || opcode != 1 {
            None
        } else {
            capacity_fault(
                ClientResource::ServerToplevels,
                budgets.toplevels as int,
                1,
                budgets.toplevel_limit,
            )
        }
    }

    /// The journal with one more entry, the oldest dropped where it is full.
    pub open spec fn journalled(self, entry: HandledRequest) -> ClientModel {
        ClientModel {
            journal: if self.journal.len() == MAX_JOURNAL_ENTRIES {
                self.journal.skip(1).push(entry)
            } else {
                self.journal.push(entry)
            },
            ..self
        }
    }

    /// The answer to a sync: the callback fires and its id is given back.
    pub open spec fn answer_sync(self, callback_id: ObjectId) -> (ClientModel, Option<Fault>) {
        let done = events::callback_done_payload(0);
        match self.emit_fault(callback_id, 1, done) {
            Some(e) => (self.emit(callback_id, 1, done), Some(Fault::Error(e))),
            None => {
                let fired = self.emit(callback_id, 1, done).without_object(callback_id);
                let back = events::display_delete_id_payload(callback_id);
                (
                    fired.emit(ObjectId(1), 2, back),
                    match fired.emit_fault(ObjectId(1), 2, back) {
                        Some(e) => Some(Fault::Error(e)),
                        None => None,
                    },
                )
            },
        }
    }

    /// The state after the parts of a request that change state, before it is
    /// entered in the journal.
    #[verifier::opaque]
    pub open spec fn mutated(
        self,
        target: ObjectId,
        interface: Interface,
        opcode: u16,
        payload: Seq<u8>,
        budgets: ServerResourceBudgets,
        granted: bool,
    ) -> (ClientModel, Option<Fault>) {
        let created = self.auto_install(
            target,
            interface,
            opcode,
            payload,
            budgets.pool_bytes,
            budgets.pool_byte_limit,
            granted,
        );
        if created.1 is Some {
            (created.0.report(target, created.1->0), created.1)
        } else {
            let ended = created.0.apply_resource_lifecycle(
                target,
                interface,
                opcode,
                payload,
                budgets.pool_bytes,
                budgets.pool_byte_limit,
                granted,
            );
            if ended.1 is Some {
                (ended.0.report(target, ended.1->0), ended.1)
            } else {
                let shown = ended.0.apply_surface_state(target, interface, opcode, payload);
                if shown.1 is Some {
                    shown
                } else {
                    shown.0.reap().apply_toplevel_state(target, interface, opcode, payload)
                }
            }
        }
    }

    /// The effect of a request.
    #[verifier::opaque]
    pub open spec fn dispatched(
        self,
        header: MessageHeader,
        payload: Seq<u8>,
        budgets: ServerResourceBudgets,
        granted: bool,
    ) -> (ClientModel, Option<Fault>) {
        let target = header.object_id;
        let opcode = header.opcode;
        if !self.objects.contains_key(target) {
            self.refuse(ClientError::UnknownObject { id: target })
        } else {
            let interface = self.objects[target];
            let refused = request_fault(interface, opcode);
            let misshapen = ClientModel::shell_payload_fault(interface, opcode, payload);
            let crowded = ClientModel::toplevel_budget_fault(interface, opcode, budgets);
            let wordy = self.metadata_fault(
                target,
                interface,
                opcode,
                payload,
                budgets.toplevel_metadata_bytes,
                budgets.toplevel_metadata_byte_limit,
            );
            if refused is Some {
                self.refuse(refused->0)
            } else if misshapen is Some {
                self.refuse(misshapen->0)
            } else if crowded is Some {
                (self.report(target, Fault::Error(crowded->0)), Some(Fault::Error(crowded->0)))
            } else if wordy is Some {
                (self.report(target, Fault::Error(wordy->0)), Some(Fault::Error(wordy->0)))
            } else {
                let after = self.mutated(target, interface, opcode, payload, budgets, granted);
                if after.1 is Some {
                    after
                } else {
                    let noted = ClientModel {
                        toplevel_metadata_bytes: if interface == Interface::XdgToplevel && (opcode
                            == 1 || opcode == 2) {
                            self.metadata_after(target, interface, opcode, payload)
                        } else {
                            after.0.toplevel_metadata_bytes
                        },
                        ..after.0
                    }.journalled(
                        HandledRequest {
                            object_id: target,
                            interface,
                            opcode,
                            opcode_name: interface.request_name(opcode)->0,
                            payload_len: payload.len() as usize,
                            fd_passing: header.fd_passing,
                        },
                    );
                    if interface == Interface::Display && opcode == 1 {
                        noted.answer_sync(ObjectId(bytes::le32_at(payload, 0)))
                    } else {
                        noted.done()
                    }
                }
            }
        }
    }

    // Frame callbacks.

    /// The state after everything committed so far has been shown.
    pub open spec fn mark_presented(self, callback_data: u32) -> ClientModel {
        if self.awaiting.len() == 0 {
            self
        } else {
            ClientModel {
                ready: self.ready.push(
                    BatchModel {
                        callback_data: Some(callback_data),
                        callbacks: self.awaiting,
                        surface_delete_id: None,
                    },
                ),
                awaiting: Seq::empty(),
                ..self
            }
        }
    }

    pub open spec fn has_ready(self) -> bool {
        exists|i: int| 0 <= i < self.ready.len() && !(#[trigger] self.ready[i]).is_spent()
    }

    /// Whether the queue has room for so many events and bytes.
    pub open spec fn has_room(self, events: int, bytes: int) -> bool {
        &&& !self.overflowed
        &&& self.events.len() + events <= self.limits.pending_events
        &&& queue::total_bytes(self.events) + bytes <= self.limits.pending_event_bytes
    }

    /// Whether the first batch has something to report and the queue has room
    /// for it.
    pub open spec fn can_progress(self) -> bool {
        if self.ready.len() == 0 {
            false
        } else {
            let batch = self.ready[0];
            if batch.callbacks.len() > 0 && batch.callback_data is Some {
                self.has_room(2, 28)
            } else if !batch.is_spent() {
                self.has_room(1, 14)
            } else {
                false
            }
        }
    }

    /// Reports the first callback, or gives back the first surface id, that
    /// the batches hold.
    pub open spec fn complete_first(self) -> ClientModel {
        let batch = self.ready[0];
        if batch.callbacks.len() > 0 {
            let callback_id = batch.callbacks[0].1;
            let told = if batch.callback_data is Some {
                self.emit_done(callback_id, batch.callback_data->0)
            } else {
                self
            };
            let back = told.without_object(callback_id).emit_delete_id(callback_id);
            ClientModel {
                ready: self.ready.update(
                    0,
                    BatchModel { callbacks: batch.callbacks.skip(1), ..batch },
                ),
                ..back
            }
        } else {
            let surface_id = batch.surface_delete_id->0;
            let back = self.emit_delete_id(surface_id);
            ClientModel {
                ready: self.ready.update(0, BatchModel { surface_delete_id: None, ..batch }),
                retired: self.retired.remove(surface_id),
                ..back
            }
        }
    }

    /// Reports one decided callback, if there is one and the queue has room.
    pub open spec fn complete_ready(self) -> (ClientModel, FrameCallbackCompletion) {
        let trimmed = ClientModel { ready: unspent(self.ready), ..self };
        if trimmed.ready.len() == 0 {
            (trimmed, FrameCallbackCompletion::Empty)
        } else if !trimmed.can_progress() {
            (trimmed, FrameCallbackCompletion::Blocked)
        } else {
            let reported = trimmed.complete_first();
            (
                ClientModel { ready: unspent(reported.ready), ..reported },
                FrameCallbackCompletion::Completed,
            )
        }
    }

    /// The state without a window's title and application id.
    pub open spec fn release_metadata(self, toplevel: ToplevelModel) -> ClientModel {
        ClientModel {
            toplevel_metadata_bytes: self.toplevel_metadata_bytes.saturating_sub(
                arith::min_int(
                    (toplevel.title.len() + toplevel.app_id.len()) as int,
                    u64::MAX as int,
                ) as u64,
            ),
            ..self
        }
    }

    pub open spec fn after_configure_serial(self) -> ClientModel {
        ClientModel {
            next_configure_serial: self.next_configure_serial.saturating_add(1),
            ..self
        }
    }
}

/// Queueing an event changes the queue and nothing else.
pub broadcast proof fn lemma_emit_frame(
    c: ClientModel,
    object_id: ObjectId,
    opcode: u16,
    payload: Seq<u8>,
)
    ensures
        (#[trigger] c.emit(object_id, opcode, payload)) == (ClientModel {
            events: c.emit(object_id, opcode, payload).events,
            overflowed: c.emit(object_id, opcode, payload).overflowed,
            ..c
        }),
{
    reveal(ClientModel::emit);
}

} // verus!
