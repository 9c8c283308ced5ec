//! The connections in a turn: what is done for each, one step after another.

use vstd::prelude::*;

use crate::bytes::push_bytes;
use crate::client::model::ClientModel;
use crate::client::queue;
use crate::ids::ClientId;
use crate::poll::{FD_READ, FD_WRITE};
use crate::schedule::requests;
use crate::schedule::requests::{has_complete_protocol_request, RequestDrain};
use crate::schedule::shutdown::EAGAIN;
use crate::schedule::{
    pending_event_can_make_local_progress, CLIENT_DISCONNECTS_PER_TURN, CLIENT_EVENT_BYTES_PER_TURN,
    CLIENT_READ_ATTEMPTS_PER_TURN, CLIENT_WRITE_ATTEMPTS_PER_TURN, REQUESTS_PER_CLIENT_PER_TURN,
    REQUESTS_PER_TURN,
};
use crate::server::model::ServerModel;
use crate::server::Server;
use crate::stream;
use crate::stream::{classify_initial_stream, InitialStreamClassification};
use crate::transport::{OutboundQueue, MAX_CONN_OUTBOUND_BYTES};

verus! {

/// What a connection speaks, as far as that is known.
#[derive(Copy, Clone, Debug, PartialEq, Eq, Structural)]
pub enum StreamMode {
    Undecided,
    Protocol,
}

/// A connection and its socket.
pub struct Conn {
    pub server_fd: i32,
    pub client_id: ClientId,
    /// What was received and not yet looked at.
    pub pending: Vec<u8>,
    /// What is to be sent.
    pub outbound: OutboundQueue,
    pub stream_mode: StreamMode,
    /// Whether anything was done for the connection.
    pub served: bool,
    pub read_ready: bool,
    pub write_ready: bool,
    /// Whether the connection is to be closed.
    pub disconnect_pending: bool,
}

#[verifier::ext_equal]
pub struct ConnModel {
    pub server_fd: i32,
    pub client_id: ClientId,
    pub pending: Seq<u8>,
    pub outbound: Seq<u8>,
    pub outbound_limit: usize,
    pub stream_mode: StreamMode,
    pub served: bool,
    pub read_ready: bool,
    pub write_ready: bool,
    pub disconnect_pending: bool,
}

impl View for Conn {
    type V = ConnModel;

    open spec fn view(&self) -> ConnModel {
        ConnModel {
            server_fd: self.server_fd,
            client_id: self.client_id,
            pending: self.pending@,
            outbound: self.outbound@,
            outbound_limit: self.outbound.limit(),
            stream_mode: self.stream_mode,
            served: self.served,
            read_ready: self.read_ready,
            write_ready: self.write_ready,
            disconnect_pending: self.disconnect_pending,
        }
    }
}

pub open spec fn conn_models(conns: Seq<Conn>) -> Seq<ConnModel> {
    conns.map_values(|conn: Conn| conn@)
}

/// What is left of a turn.
#[derive(Copy, Clone, Debug, PartialEq, Eq, Structural)]
pub struct TurnBudget {
    pub requests: usize,
    pub reads: usize,
    pub writes: usize,
    pub disconnects: usize,
    pub event_bytes: usize,
    /// Whether something is left to do without waiting.
    pub local_pending_work: bool,
}

/// What to do next for a connection's requests.
#[derive(Copy, Clone, Debug, PartialEq, Eq, Structural)]
pub enum RequestStep {
    /// Nothing in this turn.
    Skip,
    /// Close it.
    Disconnect,
    /// Read from its socket.
    Read,
    /// Show the picture that it sent.
    Blit,
    /// Serve its requests.
    Serve,
}

/// What to do next for what is to be sent to a connection.
#[derive(Copy, Clone, Debug, PartialEq, Eq, Structural)]
pub enum TransportStep {
    /// Nothing in this turn.
    Skip,
    /// Close it.
    Disconnect,
    /// Write to its socket.
    Write,
}

impl TurnBudget {
    pub open spec fn whole() -> TurnBudget {
        TurnBudget {
            requests: REQUESTS_PER_TURN,
            reads: CLIENT_READ_ATTEMPTS_PER_TURN,
            writes: CLIENT_WRITE_ATTEMPTS_PER_TURN,
            disconnects: CLIENT_DISCONNECTS_PER_TURN,
            event_bytes: CLIENT_EVENT_BYTES_PER_TURN,
            local_pending_work: false,
        }
    }

    pub open spec fn with_work(self, work: bool) -> TurnBudget {
        TurnBudget { local_pending_work: self.local_pending_work || work, ..self }
    }

    /// What is left after a connection was closed, or after its closing was
    /// put off.
    pub open spec fn after_disconnect(self) -> TurnBudget {
        if self.disconnects == 0 {
            self.with_work(true)
        } else {
            TurnBudget { disconnects: (self.disconnects - 1) as usize, ..self.with_work(true) }
        }
    }

    /// What is left of a turn that has just begun.
    pub fn new() -> (budget: TurnBudget)
        ensures
            budget == TurnBudget::whole(),
    {
        TurnBudget {
            requests: REQUESTS_PER_TURN,
            reads: CLIENT_READ_ATTEMPTS_PER_TURN,
            writes: CLIENT_WRITE_ATTEMPTS_PER_TURN,
            disconnects: CLIENT_DISCONNECTS_PER_TURN,
            event_bytes: CLIENT_EVENT_BYTES_PER_TURN,
            local_pending_work: false,
        }
    }

    pub fn note_work(&mut self, work: bool)
        ensures
            *final(self) == old(self).with_work(work),
    {
        self.local_pending_work = self.local_pending_work || work;
    }

    /// Whether another request can be served.
    pub fn can_serve(&mut self) -> (r: bool)
        ensures
            r == (old(self).requests > 0),
            *final(self) == old(self).with_work(old(self).requests == 0),
    {
        if self.requests == 0 {
            self.local_pending_work = true;
            false
        } else {
            true
        }
    }

    /// How many requests of the next connection can be served.
    pub fn request_limit(&self) -> (limit: usize)
        ensures
            limit == if self.requests < REQUESTS_PER_CLIENT_PER_TURN {
                self.requests
            } else {
                REQUESTS_PER_CLIENT_PER_TURN
            },
    {
        if self.requests < REQUESTS_PER_CLIENT_PER_TURN {
            self.requests
        } else {
            REQUESTS_PER_CLIENT_PER_TURN
        }
    }

    /// Whether a connection can be closed in this turn.
    fn take_disconnect(&mut self) -> (r: bool)
        ensures
            r == (old(self).disconnects > 0),
            *final(self) == old(self).after_disconnect(),
    {
        self.local_pending_work = true;
        if self.disconnects == 0 {
            return false;
        }
        self.disconnects = self.disconnects - 1;
        true
    }
}

/// Where the next turn begins.
#[derive(Copy, Clone, Debug, PartialEq, Eq, Structural)]
pub struct Rotation {
    pub cursor: usize,
    pub hint: usize,
}

impl Rotation {
    pub fn new() -> (rotation: Rotation)
        ensures
            rotation == (Rotation { cursor: 0, hint: 0 }),
    {
        Rotation { cursor: 0, hint: 0 }
    }

    /// Begins a round.
    pub fn begin(&mut self)
        ensures
            *final(self) == (Rotation { hint: old(self).cursor, ..*old(self) }),
    {
        self.hint = self.cursor;
    }

    /// Notes that something was done for the connection in a place.
    pub fn note_served(&mut self, place: usize)
        ensures
            *final(self) == (Rotation {
                hint: if place == usize::MAX {
                    place
                } else {
                    (place + 1) as usize
                },
                ..*old(self)
            }),
    {
        self.hint = place.saturating_add(1);
    }

    /// Notes that the connection in a place was closed; another has taken its
    /// place.
    pub fn note_closed(&mut self, place: usize)
        ensures
            *final(self) == (Rotation { hint: place, ..*old(self) }),
    {
        self.hint = place;
    }

    /// Ends a round of `len` connections.
    pub fn finish(&mut self, len: usize)
        ensures
            *final(self) == (Rotation {
                cursor: if len == 0 {
                    0
                } else {
                    (old(self).hint as int % len as int) as usize
                },
                ..*old(self)
            }),
    {
        self.cursor = if len == 0 {
            0
        } else {
            self.hint % len
        };
    }
}

impl ConnModel {
    /// A connection that was just accepted. Something may have been sent
    /// already.
    pub open spec fn fresh(server_fd: i32, client_id: ClientId) -> ConnModel {
        ConnModel {
            server_fd,
            client_id,
            pending: Seq::empty(),
            outbound: Seq::empty(),
            outbound_limit: MAX_CONN_OUTBOUND_BYTES,
            stream_mode: StreamMode::Undecided,
            served: false,
            read_ready: true,
            write_ready: false,
            disconnect_pending: false,
        }
    }

    /// Whether there is a request to serve before anything is read.
    pub open spec fn has_buffered(self) -> bool {
        self.stream_mode == StreamMode::Protocol && requests::is_complete(self.pending)
    }

    /// The first step for a connection's requests.
    pub open spec fn first_step(self, budget: TurnBudget) -> (ConnModel, TurnBudget, RequestStep) {
        if self.disconnect_pending {
            self.closing_step(budget)
        } else if self.has_buffered() || !self.read_ready {
            (self, budget, RequestStep::Serve)
        } else if budget.reads == 0 {
            (self, budget.with_work(true), RequestStep::Skip)
        } else {
            (
                ConnModel { read_ready: false, ..self },
                TurnBudget { reads: (budget.reads - 1) as usize, ..budget },
                RequestStep::Read,
            )
        }
    }

    /// The step for a connection that is to be closed.
    pub open spec fn closing_step(self, budget: TurnBudget) -> (
        ConnModel,
        TurnBudget,
        RequestStep,
    ) {
        (
            self,
            budget.after_disconnect(),
            if budget.disconnects == 0 {
                RequestStep::Skip
            } else {
                RequestStep::Disconnect
            },
        )
    }

    /// The step after a read, if the connection is not to be closed.
    pub open spec fn serving_step(self, budget: TurnBudget) -> (
        ConnModel,
        TurnBudget,
        RequestStep,
    ) {
        if self.disconnect_pending {
            self.closing_step(budget)
        } else {
            (self, budget, RequestStep::Serve)
        }
    }

    /// The step after a read: what was read decides what the connection speaks,
    /// if that is not known.
    pub open spec fn read_step(self, budget: TurnBudget, rc: i32, received: Seq<u8>) -> (
        ConnModel,
        TurnBudget,
        RequestStep,
    ) {
        if rc == 0 && received.len() > 0 {
            let longer = ConnModel { pending: self.pending + received, ..self };
            if self.stream_mode == StreamMode::Protocol {
                longer.serving_step(budget)
            } else {
                match stream::classification(longer.pending) {
                    InitialStreamClassification::NeedMore => (longer, budget, RequestStep::Skip),
                    InitialStreamClassification::Protocol => ConnModel {
                        stream_mode: StreamMode::Protocol,
                        ..longer
                    }.serving_step(budget),
                    InitialStreamClassification::LegacyRawBlit => (
                        longer,
                        budget,
                        RequestStep::Blit,
                    ),
                    InitialStreamClassification::Invalid => ConnModel {
                        disconnect_pending: true,
                        ..longer
                    }.serving_step(budget),
                }
            }
        } else if rc != EAGAIN {
            ConnModel { disconnect_pending: true, ..self }.serving_step(budget)
        } else {
            self.serving_step(budget)
        }
    }

    /// The step after a picture that the connection sent was shown.
    pub open spec fn blit_step(self, budget: TurnBudget) -> (ConnModel, TurnBudget, RequestStep) {
        ConnModel { served: true, disconnect_pending: true, ..self }.serving_step(budget)
    }

    pub open spec fn sending(self) -> bool {
        self.outbound.len() > 0
    }

    pub open spec fn can_progress(self) -> bool {
        self.read_ready || self.disconnect_pending || (self.write_ready && self.sending())
    }

    /// The connection after activity of its socket.
    pub open spec fn woken(self, kind: u8) -> ConnModel {
        if kind == FD_READ {
            ConnModel { read_ready: true, ..self }
        } else if kind == FD_WRITE {
            ConnModel { write_ready: true, ..self }
        } else {
            self
        }
    }
}

impl ServerModel {
    /// Whether a connection's next event fits in what is left of its queue.
    pub open spec fn next_event_fits(self, conn: ConnModel) -> bool {
        &&& self.clients.contains_key(conn.client_id)
        &&& self.clients[conn.client_id].events.len() > 0
        &&& self.clients[conn.client_id].events[0].len() <= conn.outbound_limit
            - conn.outbound.len()
    }

    /// How many events of a connection are moved to what is to be sent to it.
    pub open spec fn events_moved(self, conn: ConnModel, budget: TurnBudget) -> nat {
        let room = conn.outbound_limit - conn.outbound.len();
        let max = if budget.event_bytes < room {
            budget.event_bytes as int
        } else {
            room
        };
        self.events_fitting(conn.client_id, max)
    }

    /// How many events of a connection fit in `max` bytes.
    pub open spec fn events_fitting(self, client_id: ClientId, max: int) -> nat {
        if !self.clients.contains_key(client_id) || queue::total_bytes(
            self.clients[client_id].events,
        ) == 0 || max <= 0 {
            0
        } else {
            queue::fitting(self.clients[client_id].events, max as nat, 0)
        }
    }

    /// The bytes of the first `n` events of a connection.
    pub open spec fn event_bytes(self, client_id: ClientId, n: nat) -> Seq<u8> {
        if n == 0 {
            Seq::empty()
        } else {
            queue::joined(self.clients[client_id].events.take(n as int))
        }
    }

    /// The state after the first `n` events of a connection were taken.
    #[verifier::opaque]
    pub open spec fn events_taken(self, client_id: ClientId, n: nat) -> ServerModel {
        if n == 0 {
            self
        } else {
            let client = self.clients[client_id];
            self.with_client(
                client_id,
                ClientModel { events: client.events.skip(n as int), ..client },
            )
        }
    }

    pub open spec fn bytes_moved(self, conn: ConnModel, budget: TurnBudget) -> Seq<u8> {
        self.event_bytes(conn.client_id, self.events_moved(conn, budget))
    }

    /// The server, the connection and the turn after events were moved.
    pub open spec fn moved(self, conn: ConnModel, budget: TurnBudget) -> (
        ServerModel,
        ConnModel,
        TurnBudget,
    ) {
        let n = self.events_moved(conn, budget);
        let bytes = self.bytes_moved(conn, budget);
        (
            self.events_taken(conn.client_id, n),
            ConnModel {
                outbound: conn.outbound + bytes,
                write_ready: conn.write_ready || bytes.len() > 0,
                ..conn
            },
            TurnBudget { event_bytes: (budget.event_bytes - bytes.len()) as usize, ..budget },
        )
    }

    /// Whether a connection has to be closed: it asked for it, or has more
    /// events than it may.
    pub open spec fn must_close(self, conn: ConnModel) -> bool {
        conn.disconnect_pending || (self.clients.contains_key(conn.client_id)
            && self.clients[conn.client_id].overflowed)
    }

    /// The first step for what is to be sent to a connection.
    pub open spec fn sending_step(self, conn: ConnModel, budget: TurnBudget) -> (
        ServerModel,
        ConnModel,
        TurnBudget,
        TransportStep,
    ) {
        if self.must_close(conn) {
            let closing = closing_step(
                ConnModel { disconnect_pending: true, ..conn },
                budget,
            );
            (self, closing.0, closing.1, closing.2)
        } else {
            let (server, filled, left) = self.moved(conn, budget);
            if !filled.sending() || !filled.write_ready {
                (
                    server,
                    filled,
                    left.with_work(server.next_event_fits(filled)),
                    TransportStep::Skip,
                )
            } else if left.writes == 0 {
                (server, filled, left.with_work(true), TransportStep::Skip)
            } else {
                (
                    server,
                    ConnModel { write_ready: false, ..filled },
                    TurnBudget { writes: (left.writes - 1) as usize, ..left },
                    TransportStep::Write,
                )
            }
        }
    }

    /// The step after a write.
    pub open spec fn written_step(
        self,
        conn: ConnModel,
        budget: TurnBudget,
        rc: i32,
        written: usize,
    ) -> (ConnModel, TurnBudget, TransportStep) {
        if rc == 0 && written > 0 {
            let after = ConnModel {
                outbound: if written <= conn.outbound.len() {
                    conn.outbound.skip(written as int)
                } else {
                    Seq::empty()
                },
                ..conn
            };
            self.after_write(after, budget)
        } else if rc != EAGAIN {
            self.after_write(ConnModel { disconnect_pending: true, ..conn }, budget)
        } else {
            self.after_write(conn, budget)
        }
    }

    pub open spec fn after_write(self, conn: ConnModel, budget: TurnBudget) -> (
        ConnModel,
        TurnBudget,
        TransportStep,
    ) {
        if conn.disconnect_pending {
            closing_step(conn, budget)
        } else {
            (conn, budget.with_work(self.next_event_fits(conn)), TransportStep::Skip)
        }
    }
}

/// The step for a connection that is to be closed.
pub open spec fn closing_step(conn: ConnModel, budget: TurnBudget) -> (
    ConnModel,
    TurnBudget,
    TransportStep,
) {
    (
        conn,
        budget.after_disconnect(),
        if budget.disconnects == 0 {
            TransportStep::Skip
        } else {
            TransportStep::Disconnect
        },
    )
}

/// No step takes more from a turn than there is, and every step that calls the
/// system takes something.
pub proof fn law_steps_keep_budget(
    server: ServerModel,
    conn: ConnModel,
    budget: TurnBudget,
    rc: i32,
    received: Seq<u8>,
)
    ensures
        ({
            let (_, after, step) = conn.first_step(budget);
            &&& after.reads <= budget.reads && after.disconnects <= budget.disconnects
            &&& step == RequestStep::Read ==> after.reads < budget.reads
            &&& step == RequestStep::Disconnect ==> after.disconnects < budget.disconnects
        }),
        ({
            let (_, after, step) = conn.read_step(budget, rc, received);
            &&& after.disconnects <= budget.disconnects && after.reads == budget.reads
            &&& step == RequestStep::Disconnect ==> after.disconnects < budget.disconnects
        }),
        ({
            let (_, _, after, step) = server.sending_step(conn, budget);
            &&& after.writes <= budget.writes && after.disconnects <= budget.disconnects
            &&& step == TransportStep::Write ==> after.writes < budget.writes
            &&& step == TransportStep::Disconnect ==> after.disconnects < budget.disconnects
        }),
{
}

/// Work that is put off for want of budget is not forgotten: the turn is noted
/// to have some left.
pub proof fn law_put_off_work_is_noted(conn: ConnModel, budget: TurnBudget)
    requires
        conn.can_progress() || conn.has_buffered(),
    ensures
        conn.first_step(budget).2 == RequestStep::Skip ==> conn.first_step(
            budget,
        ).1.local_pending_work,
{
}

impl Conn {
    /// A connection that was just accepted.
    pub fn new(server_fd: i32, client_id: ClientId) -> (conn: Conn)
        ensures
            conn@ == ConnModel::fresh(server_fd, client_id),
    {
        let conn = Conn {
            server_fd,
            client_id,
            pending: Vec::new(),
            outbound: OutboundQueue::new(),
            stream_mode: StreamMode::Undecided,
            served: false,
            read_ready: true,
            write_ready: false,
            disconnect_pending: false,
        };
        proof {
            assert(conn@ =~= ConnModel::fresh(server_fd, client_id));
        }
        conn
    }

    fn is_protocol(&self) -> (r: bool)
        ensures
            r == (self@.stream_mode == StreamMode::Protocol),
    {
        match self.stream_mode {
            StreamMode::Protocol => true,
            StreamMode::Undecided => false,
        }
    }

    /// The first step for the connection's requests.
    pub fn begin_requests(&mut self, budget: &mut TurnBudget) -> (step: RequestStep)
        ensures
            (final(self)@, *final(budget), step) == old(self)@.first_step(*old(budget)),
    {
        if self.disconnect_pending {
            return self.close_if_possible(budget);
        }
        let buffered_complete: bool = self.is_protocol() && has_complete_protocol_request(
            self.pending.as_slice(),
        );
        if buffered_complete || !self.read_ready {
            return RequestStep::Serve;
        }
        if budget.reads == 0 {
            budget.local_pending_work = true;
            return RequestStep::Skip;
        }
        budget.reads = budget.reads - 1;
        self.read_ready = false;
        RequestStep::Read
    }

    fn close_if_possible(&self, budget: &mut TurnBudget) -> (step: RequestStep)
        ensures
            (self@, *final(budget), step) == self@.closing_step(*old(budget)),
    {
        if budget.take_disconnect() {
            RequestStep::Disconnect
        } else {
            RequestStep::Skip
        }
    }

    fn go_on(&self, budget: &mut TurnBudget) -> (step: RequestStep)
        ensures
            (self@, *final(budget), step) == self@.serving_step(*old(budget)),
    {
        if self.disconnect_pending {
            self.close_if_possible(budget)
        } else {
            RequestStep::Serve
        }
    }

    /// The step after a read.
    pub fn note_read(&mut self, budget: &mut TurnBudget, rc: i32, received: &[u8]) -> (step:
        RequestStep)
        ensures
            (final(self)@, *final(budget), step) == old(self)@.read_step(
                *old(budget),
                rc,
                received@,
            ),
    {
        if rc == 0 && received.len() > 0 {
            push_bytes(&mut self.pending, received);
            if !self.is_protocol() {
                match classify_initial_stream(self.pending.as_slice()) {
                    InitialStreamClassification::NeedMore => {
                        return RequestStep::Skip;
                    },
                    InitialStreamClassification::Protocol => {
                        self.stream_mode = StreamMode::Protocol;
                    },
                    InitialStreamClassification::LegacyRawBlit => {
                        return RequestStep::Blit;
                    },
                    InitialStreamClassification::Invalid => {
                        self.disconnect_pending = true;
                    },
                }
            }
        } else if rc != EAGAIN {
            self.disconnect_pending = true;
        }
        self.go_on(budget)
    }

    /// The step after a picture that the connection sent was shown.
    pub fn note_blit(&mut self, budget: &mut TurnBudget) -> (step: RequestStep)
        ensures
            (final(self)@, *final(budget), step) == old(self)@.blit_step(*old(budget)),
    {
        self.served = true;
        self.disconnect_pending = true;
        self.go_on(budget)
    }

    /// Notes what became of the connection's requests. Says whether they were
    /// the first.
    pub fn note_requests(
        &mut self,
        budget: &mut TurnBudget,
        drain: RequestDrain,
        scene_mutated: bool,
    ) -> (first: bool)
        requires
            drain.dispatched <= old(budget).requests,
        ensures
            first == (drain.consumed > 0 && !old(self)@.served),
            final(self)@ == (ConnModel { served: old(self)@.served || first, ..old(self)@ }),
            *final(budget) == (TurnBudget {
                requests: (old(budget).requests - drain.dispatched) as usize,
                ..old(budget).with_work(drain.complete_remaining || scene_mutated)
            }),
    {
        budget.requests = budget.requests - drain.dispatched;
        budget.note_work(drain.complete_remaining || scene_mutated);
        if drain.consumed > 0 && !self.served {
            self.served = true;
            return true;
        }
        false
    }

    /// Moves events of the connection to what is to be sent to it. Says
    /// whether there were any.
    fn move_events(&mut self, budget: &mut TurnBudget, server: &mut Server) -> (any: bool)
        ensures
            (final(server)@, final(self)@, *final(budget)) == old(server)@.moved(
                old(self)@,
                *old(budget),
            ),
            any == (old(server)@.bytes_moved(old(self)@, *old(budget)).len() > 0),
    {
        let ghost conn = self@;
        let room: usize = self.outbound.remaining_capacity();
        let max: usize = if budget.event_bytes < room {
            budget.event_bytes
        } else {
            room
        };
        let moved = take_events(server, self.client_id, max);
        if moved.len() == 0 {
            proof {
                assert(conn.outbound + moved@ =~= conn.outbound);
            }
            return false;
        }
        budget.event_bytes = budget.event_bytes - moved.len();
        let appended = self.outbound.append(moved.as_slice());
        assert(appended is Ok);
        self.write_ready = true;
        true
    }

    /// The first step for what is to be sent to the connection, and whether
    /// events were moved there.
    pub fn begin_sending(&mut self, budget: &mut TurnBudget, server: &mut Server) -> (r: (
        TransportStep,
        bool,
    ))
        ensures
            (final(server)@, final(self)@, *final(budget), r.0) == old(server)@.sending_step(
                old(self)@,
                *old(budget),
            ),
            r.1 == (!old(server)@.must_close(old(self)@) && old(server)@.bytes_moved(
                old(self)@,
                *old(budget),
            ).len() > 0),
    {
        if server.client_event_queue_overflowed(self.client_id) {
            self.disconnect_pending = true;
        }
        if self.disconnect_pending {
            return (close_if_possible(budget), false);
        }
        let moved = self.move_events(budget, server);
        if self.outbound.is_empty() || !self.write_ready {
            let fits = self.next_event_fits(server);
            budget.note_work(fits);
            return (TransportStep::Skip, moved);
        }
        if budget.writes == 0 {
            budget.local_pending_work = true;
            return (TransportStep::Skip, moved);
        }
        budget.writes = budget.writes - 1;
        self.write_ready = false;
        (TransportStep::Write, moved)
    }

    /// Whether the connection's next event fits in what is left of its queue.
    fn next_event_fits(&self, server: &Server) -> (r: bool)
        ensures
            r == server@.next_event_fits(self@),
    {
        pending_event_can_make_local_progress(
            server.client_next_pending_event_bytes(self.client_id),
            self.outbound.remaining_capacity(),
        )
    }

    /// The step after a write.
    pub fn note_write(
        &mut self,
        budget: &mut TurnBudget,
        server: &Server,
        rc: i32,
        written: usize,
    ) -> (step: TransportStep)
        ensures
            (final(self)@, *final(budget), step) == server@.written_step(
                old(self)@,
                *old(budget),
                rc,
                written,
            ),
    {
        if rc == 0 && written > 0 {
            self.outbound.consume(written);
        } else if rc != EAGAIN {
            self.disconnect_pending = true;
        }
        if self.disconnect_pending {
            return close_if_possible(budget);
        }
        let fits = self.next_event_fits(server);
        budget.note_work(fits);
        TransportStep::Skip
    }
}

/// Takes the events of a connection that fit in `max` bytes.
fn take_events(server: &mut Server, client_id: ClientId, max: usize) -> (bytes: Vec<u8>)
    ensures
        ({
            let n = old(server)@.events_fitting(client_id, max as int);
            &&& final(server)@ == old(server)@.events_taken(client_id, n)
            &&& bytes@ == old(server)@.event_bytes(client_id, n)
            &&& bytes@.len() <= max
        }),
{
    proof {
        reveal(ServerModel::events_taken);
    }
    let ghost start = server@;
    let waiting: usize = match server.client_pending_event_bytes(client_id) {
        Some(n) => n,
        None => 0,
    };
    let none: Vec<u8> = Vec::new();
    proof {
        assert(none@ =~= Seq::<u8>::empty());
    }
    if waiting == 0 || max == 0 {
        return none;
    }
    let ghost events = start.clients[client_id].events;
    let ghost n = queue::fitting(events, max as nat, 0);
    proof {
        assert(events.take(0) =~= Seq::<Seq<u8>>::empty());
        queue::law_fitting(events, max as nat, 0);
        queue::law_joined_len(events.take(n as int));
    }
    match server.drain_client_events_bounded(client_id, max) {
        Some(bytes) => {
            proof {
                if n == 0 {
                    assert(events.skip(0) =~= events);
                    assert(server@.clients =~= start.clients);
                }
            }
            bytes
        },
        None => none,
    }
}

fn close_if_possible(budget: &mut TurnBudget) -> (step: TransportStep)
    ensures
        *final(budget) == old(budget).after_disconnect(),
        step == if old(budget).disconnects == 0 {
            TransportStep::Skip
        } else {
            TransportStep::Disconnect
        },
{
    if budget.take_disconnect() {
        TransportStep::Disconnect
    } else {
        TransportStep::Skip
    }
}

} // verus!
