//! One turn of the server: how much of everything is done in it, and in what
//! order.

use vstd::prelude::*;

use crate::client::MAX_TOPLEVEL_METADATA_BYTES;
use crate::server::MAX_SERVER_CLIENTS;
use crate::transport::MAX_CONN_OUTBOUND_BYTES;

pub mod accept;
pub mod conns;
pub mod order;
pub mod pace;
pub mod presentation;
pub mod requests;
pub mod shutdown;
pub mod turn;

verus! {

pub const ACCEPTS_PER_TURN: usize = 2;

pub const WATCH_READS_PER_TURN: usize = 2;

pub const REQUESTS_PER_CLIENT_PER_TURN: usize = 4;

pub const REQUESTS_PER_TURN: usize = 32;

pub const CLIENT_READ_ATTEMPTS_PER_TURN: usize = 4;

pub const CLIENT_WRITE_ATTEMPTS_PER_TURN: usize = 4;

pub const CLIENT_EVENT_BYTES_PER_TURN: usize = MAX_CONN_OUTBOUND_BYTES;

pub const CLIENT_DISCONNECTS_PER_TURN: usize = 1;

pub const SHUTDOWN_DRAIN_TURNS: usize = MAX_SERVER_CLIENTS;

pub const SHUTDOWN_QUIESCENCE_GRACE_MS: u64 = 100;

pub const PRESENT_FENCE_WRITES_PER_TURN: usize = 1;

/// How many bytes a socket takes in one write.
pub const CLIENT_SOCKET_WRITE_QUANTUM_BYTES: usize = 32768;

/// How many calls of the system one turn makes for connections: three to
/// accept one, two watched files, a read, a write or a close each, and a
/// fence.
pub const MAX_NON_INPUT_TRANSPORT_SYSCALLS_PER_TURN: usize = ACCEPTS_PER_TURN * 3
    + WATCH_READS_PER_TURN * 2 + CLIENT_READ_ATTEMPTS_PER_TURN + CLIENT_WRITE_ATTEMPTS_PER_TURN
    + CLIENT_DISCONNECTS_PER_TURN + PRESENT_FENCE_WRITES_PER_TURN;

/// A turn makes a bounded number of calls, and what its requests can have told
/// to one connection fits in one write.
pub proof fn law_turn_is_bounded()
    ensures
        MAX_NON_INPUT_TRANSPORT_SYSCALLS_PER_TURN <= 20,
        REQUESTS_PER_TURN * (MAX_TOPLEVEL_METADATA_BYTES + 21) + 14
            <= CLIENT_SOCKET_WRITE_QUANTUM_BYTES,
{
}

/// Whether a connection's next event fits in what is left of its queue.
pub fn pending_event_can_make_local_progress(
    next_event_bytes: Option<usize>,
    outbound_remaining: usize,
) -> (r: bool)
    ensures
        r == (next_event_bytes is Some && next_event_bytes->0 <= outbound_remaining),
{
    match next_event_bytes {
        Some(bytes) => bytes <= outbound_remaining,
        None => false,
    }
}

/// Whether to wait for activity: there is nothing left to do.
pub fn should_park_after_request_round(local_pending_work: bool) -> (r: bool)
    ensures
        r == !local_pending_work,
{
    !local_pending_work
}

/// Whether something can be done for a connection without waiting.
pub fn client_transport_can_make_local_progress(
    read_ready: bool,
    write_ready: bool,
    outbound_pending: bool,
    disconnect_pending: bool,
) -> (r: bool)
    ensures
        r == (read_ready || disconnect_pending || (write_ready && outbound_pending)),
{
    read_ready || disconnect_pending || (write_ready && outbound_pending)
}

} // verus!
