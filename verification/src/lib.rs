//! A display server: the state machine of every connection, and the server
//! that composes what connections draw into one picture, hands out input and
//! keeps the windows in order.
//!
//! * [`client`]: one connection, its objects, its memory and what it is told.
//! * [`server`]: all connections, the windows, input and the picture.
//! * [`present`]: bringing the screen up to date with the picture.
//! * [`schedule`]: how much is done in one turn, and for whom first.
//! * [`poll`]: waiting for activity.
//! * [`wire`], [`requests`], [`events`], [`objects`], [`ids`]: the protocol.
//! * [`protocol`], [`layout`]: keyboard layouts.
//!
//! Nothing here touches a socket, a file or a device. Whoever runs the server
//! reads and writes, and hands the bytes over.

pub mod arith;
pub mod bytes;
pub mod caps;
pub mod client;
pub mod compositor;
pub mod events;
pub mod ids;
pub mod input;
pub mod layout;
pub mod objects;
pub mod ordered;
pub mod poll;
pub mod present;
pub mod protocol;
pub mod requests;
pub mod schedule;
pub mod server;
pub mod stream;
pub mod sums;
pub mod text;
pub mod transport;
pub mod wire;

pub use caps::{Cap, CapSet};
pub use client::{
    interface_required_cap, BufferAttachment, BufferInfo, Client, ClientError, ClientLimits,
    ClientResource, DamageRect, Pool, Surface, Toplevel, AUTO_LAYOUT_STEP, MAX_CLIENT_BUFFERS,
    MAX_CLIENT_OBJECTS, MAX_CLIENT_POOLS, MAX_CLIENT_POOL_BYTES, MAX_CLIENT_SURFACES,
    MAX_CLIENT_TOPLEVELS, MAX_CLIENT_TOPLEVEL_METADATA_BYTES, MAX_JOURNAL_ENTRIES,
    MAX_PENDING_EVENTS, MAX_PENDING_EVENT_BYTES, MAX_POOL_SIZE, MAX_SURFACE_DAMAGE_RECTS,
    MAX_TOPLEVEL_METADATA_BYTES,
};
pub use compositor::{Framebuffer, BYTES_PER_PIXEL, DEFAULT_HEIGHT, DEFAULT_WIDTH};
pub use ids::{ClientId, IdAllocator, IdKind, ObjectId, ObjectIdAllocationError, WindowId};
pub use input::{
    decode_kbd_event, decode_mouse_event, drain_kbd_events_into, drain_mouse_events_into,
};
pub use objects::{Interface, Opcode, OpcodeError};
pub use server::damage::{OutputDamageRect, PresentationDamage};
pub use server::{
    HitResult, Server, ServerError, ServerLimits, MAX_FRAME_CALLBACK_COMPLETIONS_PER_TURN,
    MAX_SERVER_CLIENTS, MAX_SERVER_ORDINARY_CLIENTS, MAX_SERVER_POOL_BYTES,
    MAX_SERVER_SHELL_CLIENTS, MAX_SERVER_TOPLEVELS, MAX_SERVER_TOPLEVEL_METADATA_BYTES,
    MAX_SERVER_WINDOW_SNAPSHOT_BYTES, SHELL_FULL_OUTPUT_POOL_BYTES,
    SHELL_METADATA_BYTES_RESERVED_PER_CLIENT, SHELL_TOPLEVELS_RESERVED_PER_CLIENT,
};
pub use stream::{classify_initial_stream, InitialStreamClassification, LEGACY_RAW_BLIT_PIXELS};
pub use transport::{OutboundQueue, OutboundQueueFull, MAX_CONN_OUTBOUND_BYTES};
pub use wire::{detect_protocol_message, MessageHeader, WireError, HEADER_SIZE};
