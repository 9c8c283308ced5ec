use display_server::protocol::keymap::KeymapBundle;
use display_server::{
    Cap, CapSet, ClientId, Interface, MessageHeader, ObjectId, PresentationDamage, Server,
    HEADER_SIZE, MAX_CONN_OUTBOUND_BYTES, MAX_FRAME_CALLBACK_COMPLETIONS_PER_TURN,
    MAX_PENDING_EVENTS,
};
use display_server::poll::{
    build_wait_interests, decode_ready_interests, summarize_poll_readiness, CLOCK, EVENT_SIZE,
    FD_READ, FD_WRITE, MAX_SUBSCRIPTIONS,
};
use display_server::schedule::{
    client_transport_can_make_local_progress, pending_event_can_make_local_progress,
    should_park_after_request_round, ACCEPTS_PER_TURN, CLIENT_DISCONNECTS_PER_TURN,
    CLIENT_EVENT_BYTES_PER_TURN, CLIENT_READ_ATTEMPTS_PER_TURN, CLIENT_SOCKET_WRITE_QUANTUM_BYTES,
    CLIENT_WRITE_ATTEMPTS_PER_TURN, MAX_NON_INPUT_TRANSPORT_SYSCALLS_PER_TURN,
    PRESENT_FENCE_WRITES_PER_TURN, REQUESTS_PER_CLIENT_PER_TURN, REQUESTS_PER_TURN,
    SHUTDOWN_DRAIN_TURNS, SHUTDOWN_QUIESCENCE_GRACE_MS, WATCH_READS_PER_TURN,
};
use display_server::schedule::accept::{
    drain_accepts_bounded, drain_watch_records_bounded, EIO, FS_WATCH_EVENT_SIZE,
};
use display_server::schedule::order::{priority_first, rotating_indices};
use display_server::schedule::presentation::{
    complete_successful_frame_presentation, drain_ready_present_fences_bounded,
    frame_callback_lifecycle_requires_local_turn, take_ready_present_fence,
    take_ready_present_fence_with_deferred, PresentationSchedule,
};
use display_server::schedule::requests::drain_protocol_requests_bounded;
use display_server::schedule::shutdown::{ShutdownDrain, ShutdownTurnDecision, EAGAIN, EINTR};

/// Keymaps of which only the default can be used, and leaves every key alone.
fn keymaps() -> KeymapBundle {
    KeymapBundle {
        us_qwerty: b"PMKM\x01\0\0\0".to_vec(),
        uk_qwerty: Vec::new(),
        dvorak: Vec::new(),
    }
}

const EVENT_OFF_USERDATA: usize = 0;
const EVENT_OFF_TYPE: usize = 10;

fn protocol_request(object_id: ObjectId, opcode: u16, payload: &[u8]) -> Vec<u8> {
    let mut bytes = vec![0u8; HEADER_SIZE + payload.len()];
    MessageHeader::try_new(object_id, opcode, payload.len(), 0)
        .unwrap()
        .encode(&mut bytes[..HEADER_SIZE])
        .unwrap();
    bytes[HEADER_SIZE..].copy_from_slice(payload);
    bytes
}

fn registry_bind_payload(name: u32, interface: &str, new_id: ObjectId) -> Vec<u8> {
    let interface = interface.as_bytes();
    let padding = (4 - interface.len() % 4) % 4;
    let mut payload = Vec::new();
    payload.extend_from_slice(&name.to_le_bytes());
    payload.extend_from_slice(&(interface.len() as u32).to_le_bytes());
    payload.extend_from_slice(interface);
    payload.extend(core::iter::repeat_n(0, padding));
    payload.extend_from_slice(&1u32.to_le_bytes());
    payload.extend_from_slice(&new_id.raw().to_le_bytes());
    payload
}

fn poll_event(userdata: u64, event_type: u8) -> Vec<u8> {
    let mut event = vec![0u8; EVENT_SIZE];
    event[EVENT_OFF_USERDATA..EVENT_OFF_USERDATA + 8]
        .copy_from_slice(&userdata.to_le_bytes());
    event[EVENT_OFF_TYPE] = event_type;
    event
}

fn server_with_awaiting_frame_callback(
) -> (Server, ClientId, ObjectId) {
    let mut server = Server::new(&keymaps());
    let client = server.accept();
    let compositor = ObjectId::new(3);
    let surface = ObjectId::new(5);
    let callback = ObjectId::new(7);
    server
        .client_mut(client)
        .unwrap()
        .install_client_object(compositor, Interface::Compositor)
        .unwrap();
    server
        .dispatch_request(
            client,
            &protocol_request(compositor, 1, &surface.raw().to_le_bytes()),
        )
        .unwrap();
    server
        .dispatch_request(
            client,
            &protocol_request(surface, 4, &callback.raw().to_le_bytes()),
        )
        .unwrap();
    server
        .dispatch_request(client, &protocol_request(surface, 7, &[]))
        .unwrap();
    (server, client, callback)
}

#[test]
fn zero_deadline_poll_filters_clock_and_preserves_new_client_readiness() {
    let interests = [
        (40, FD_READ),
        (40, FD_WRITE),
        (41, FD_READ),
    ];
    let events = [
        poll_event(0, CLOCK),
        poll_event(2, FD_WRITE),
        poll_event(3, FD_READ),
    ]
    .concat();

    assert_eq!(
        decode_ready_interests(&interests, &events, 3, true),
        Ok(vec![
            (40, FD_WRITE),
            (41, FD_READ),
        ])
    );
    assert_eq!(
        decode_ready_interests(
            &interests,
            &poll_event(0, CLOCK),
            1,
            false,
        ),
        Err(EIO)
    );
}

#[test]
fn all_non_input_transport_phases_fit_the_twenty_call_turn_bound() {
    assert_eq!(
        CLIENT_EVENT_BYTES_PER_TURN,
        MAX_CONN_OUTBOUND_BYTES,
    );
    assert_eq!(
        MAX_NON_INPUT_TRANSPORT_SYSCALLS_PER_TURN,
        ACCEPTS_PER_TURN * 3
            + WATCH_READS_PER_TURN * 2
            + CLIENT_READ_ATTEMPTS_PER_TURN
            + CLIENT_WRITE_ATTEMPTS_PER_TURN
            + CLIENT_DISCONNECTS_PER_TURN
            + PRESENT_FENCE_WRITES_PER_TURN,
    );
    assert_eq!(MAX_NON_INPUT_TRANSPORT_SYSCALLS_PER_TURN, 20);
    assert_eq!(CLIENT_SOCKET_WRITE_QUANTUM_BYTES, 32 * 1024);
}

#[test]
fn authenticated_shells_receive_reserved_transport_order_without_starving_apps() {
    let order = [10, 11, 12, 13, 14, 15];
    let prioritized = priority_first(&order, |id| matches!(id, 11 | 14));
    assert_eq!(prioritized, [11, 14, 10, 12, 13, 15]);
    assert_eq!(
        &prioritized[..CLIENT_WRITE_ATTEMPTS_PER_TURN],
        &[11, 14, 10, 12],
    );
}

#[test]
fn capacity_blocked_pending_event_parks_until_a_complete_frame_can_move() {
    let next_event = Some(14);

    assert!(!pending_event_can_make_local_progress(next_event, 0));
    assert!(!pending_event_can_make_local_progress(next_event, 13));
    assert!(pending_event_can_make_local_progress(next_event, 14));
    assert!(!pending_event_can_make_local_progress(None, usize::MAX));
    assert!(should_park_after_request_round(
        pending_event_can_make_local_progress(next_event, 0),
    ));
    let outbound_capacity = 32;
    let before_partial_write = 24;
    let bytes_written = 6;
    let remaining_after_write = outbound_capacity - (before_partial_write - bytes_written);
    assert!(pending_event_can_make_local_progress(
        next_event,
        remaining_after_write,
    ));
}

#[test]
fn perpetual_accept_source_stops_at_budget_before_existing_phases() {
    let mut next_fd = 100;
    let mut phases = Vec::new();
    let accepted = drain_accepts_bounded(
        || {
            let fd = next_fd;
            next_fd += 1;
            fd
        },
        |fd| phases.push(format!("accept-{fd}")),
    )
    .unwrap();
    phases.extend(
        ["input", "signal", "client-read", "client-write", "present"].map(str::to_string),
    );

    assert_eq!(accepted, ACCEPTS_PER_TURN);
    assert_eq!(phases[ACCEPTS_PER_TURN], "input");
    assert_eq!(phases.last().unwrap(), "present");
}

#[test]
fn finite_accept_backlog_drains_before_eagain() {
    let mut backlog = std::collections::VecDeque::from([20, 21, 22]);
    let mut accepted = Vec::new();
    let result = drain_accepts_bounded(
        || backlog.pop_front().unwrap_or(-EAGAIN),
        |fd| accepted.push(fd),
    );
    assert_eq!(result, Ok(ACCEPTS_PER_TURN));
    assert_eq!(accepted, [20, 21]);
    assert_eq!(backlog, [22]);
    let result = drain_accepts_bounded(
        || backlog.pop_front().unwrap_or(-EAGAIN),
        |fd| accepted.push(fd),
    );
    assert_eq!(result, Err(-EAGAIN));
    assert_eq!(accepted, [20, 21, 22]);
    assert!(backlog.is_empty());
}

#[test]
fn sigterm_drain_requires_accept_and_client_transport_quiescence() {
    let mut shutdown = ShutdownDrain::default();
    shutdown.request(10);
    assert!(shutdown.requested());
    let mut backlog = std::collections::VecDeque::from([20, 21]);
    let mut clients = Vec::new();

    let first = drain_accepts_bounded(
        || backlog.pop_front().unwrap_or(-EAGAIN),
        |fd| clients.push((fd, true)),
    );
    shutdown.observe_accept_result(first);
    assert_eq!(first, Ok(ACCEPTS_PER_TURN));
    assert_eq!(
        shutdown.finish_turn(10, false, false),
        ShutdownTurnDecision::Continue,
    );

    let second = drain_accepts_bounded(
        || backlog.pop_front().unwrap_or(-EAGAIN),
        |fd| clients.push((fd, true)),
    );
    shutdown.observe_accept_result(second);
    assert_eq!(second, Err(-EAGAIN));
    assert!(clients.iter().any(|(_, read_ready)| *read_ready));
    assert_eq!(
        shutdown.finish_turn(10, false, true),
        ShutdownTurnDecision::Continue,
    );

    for (_, read_ready) in &mut clients {
        *read_ready = false;
    }
    assert_eq!(
        shutdown.finish_turn(10, false, false),
        ShutdownTurnDecision::WaitForDeadline(SHUTDOWN_QUIESCENCE_GRACE_MS),
    );
    assert_eq!(
        shutdown.finish_turn(109, false, false),
        ShutdownTurnDecision::WaitForDeadline(1),
    );
    assert_eq!(
        shutdown.finish_turn(110, false, false),
        ShutdownTurnDecision::Finish,
    );
}

#[test]
fn sigterm_drain_does_not_wait_on_idle_or_backpressured_clients() {
    let mut shutdown = ShutdownDrain::default();
    shutdown.request(500);
    shutdown.observe_accept_result(Err(-EAGAIN));

    assert!(!client_transport_can_make_local_progress(
        false, false, false, false,
    ));
    assert!(!client_transport_can_make_local_progress(
        false, true, false, false,
    ));
    assert!(!client_transport_can_make_local_progress(
        false, false, true, false,
    ));
    assert_eq!(
        shutdown.finish_turn(500, false, false),
        ShutdownTurnDecision::WaitForDeadline(SHUTDOWN_QUIESCENCE_GRACE_MS),
    );

    assert!(client_transport_can_make_local_progress(
        true, false, false, false,
    ));
    assert!(client_transport_can_make_local_progress(
        false, false, false, true,
    ));
    assert!(client_transport_can_make_local_progress(
        false, true, true, false,
    ));
    assert_eq!(
        shutdown.finish_turn(500, true, false),
        ShutdownTurnDecision::Continue,
    );
    assert_eq!(
        shutdown.finish_turn(500, false, true),
        ShutdownTurnDecision::Continue,
    );

    shutdown.observe_accept_result(Err(-EINTR));
    assert_eq!(
        shutdown.finish_turn(500, false, false),
        ShutdownTurnDecision::Continue,
    );
}

#[test]
fn sigterm_grace_rechecks_early_wakes_and_late_client_readiness() {
    let mut shutdown = ShutdownDrain::default();
    shutdown.request(1_000);
    shutdown.observe_accept_result(Err(-EAGAIN));

    assert_eq!(
        shutdown.finish_turn(1_000, false, false),
        ShutdownTurnDecision::WaitForDeadline(100),
    );
    assert_eq!(
        shutdown.finish_turn(1_025, false, false),
        ShutdownTurnDecision::WaitForDeadline(75),
        "an early unrelated wake cannot satisfy the grace deadline",
    );
    assert_eq!(
        shutdown.finish_turn(1_075, false, true),
        ShutdownTurnDecision::Continue,
        "client bytes becoming ready during grace must be drained",
    );
    assert_eq!(
        shutdown.finish_turn(1_099, false, false),
        ShutdownTurnDecision::WaitForDeadline(1),
    );
    assert_eq!(
        shutdown.finish_turn(1_100, false, false),
        ShutdownTurnDecision::Finish,
    );

    shutdown.request(2_000);
    assert_eq!(
        shutdown.finish_turn(1_100, false, false),
        ShutdownTurnDecision::Finish,
        "a repeated signal cannot move the original deadline",
    );
}

#[test]
fn sigterm_listener_wake_at_deadline_forces_another_accept_turn() {
    let mut shutdown = ShutdownDrain::default();
    shutdown.request(0);
    shutdown.observe_accept_result(Err(-EAGAIN));

    let readiness = summarize_poll_readiness(
        10,
        &[
            (10, FD_READ),
            (20, FD_READ),
        ],
    );
    assert!(readiness.listener_read_ready);
    assert_eq!(
        shutdown.finish_turn(100, false, readiness.listener_read_ready),
        ShutdownTurnDecision::Continue,
        "a connect after EAGAIN must survive the deadline boundary",
    );

    let unrelated = summarize_poll_readiness(
        10,
        &[
            (4, FD_READ),
            (20, FD_READ),
        ],
    );
    assert!(!unrelated.listener_read_ready);
    shutdown.observe_accept_result(Err(-EAGAIN));
    assert_eq!(
        shutdown.finish_turn(100, false, unrelated.listener_read_ready),
        ShutdownTurnDecision::Finish,
    );
}

#[test]
fn sigterm_drain_has_a_total_bound_under_perpetual_transport_readiness() {
    let mut shutdown = ShutdownDrain::default();
    shutdown.request(0);

    for turn in 1..SHUTDOWN_DRAIN_TURNS {
        shutdown.observe_accept_result(Ok(ACCEPTS_PER_TURN));
        assert!(client_transport_can_make_local_progress(
            true, false, false, false,
        ));
        assert!(
            shutdown.finish_turn(0, true, true) == ShutdownTurnDecision::Continue,
            "shutdown ended before the total drain bound on turn {turn}",
        );
    }
    shutdown.observe_accept_result(Ok(ACCEPTS_PER_TURN));
    assert_eq!(
        shutdown.finish_turn(0, true, true),
        ShutdownTurnDecision::Finish,
    );
    shutdown.request(1_000);
    assert_eq!(
        shutdown.finish_turn(0, true, true),
        ShutdownTurnDecision::Finish,
    );
}

#[test]
fn watch_drain_is_bounded_under_refill_and_drains_finite_queue() {
    let mut perpetual_reads = 0;
    assert_eq!(
        drain_watch_records_bounded(|_| {
            perpetual_reads += 1;
            Ok(FS_WATCH_EVENT_SIZE)
        }),
        Ok(true)
    );
    assert_eq!(perpetual_reads, WATCH_READS_PER_TURN);

    let mut remaining = 3;
    let mut finite_reads = 0;
    assert_eq!(
        drain_watch_records_bounded(|_| {
            finite_reads += 1;
            if remaining == 0 {
                Err(EAGAIN)
            } else {
                remaining -= 1;
                Ok(FS_WATCH_EVENT_SIZE)
            }
        }),
        Ok(true)
    );
    assert_eq!(finite_reads, WATCH_READS_PER_TURN);
    assert_eq!(remaining, 3 - WATCH_READS_PER_TURN);
    assert_eq!(
        drain_watch_records_bounded(|_| {
            finite_reads += 1;
            if remaining == 0 {
                Err(EAGAIN)
            } else {
                remaining -= 1;
                Ok(FS_WATCH_EVENT_SIZE)
            }
        }),
        Ok(true)
    );
    assert_eq!(finite_reads, 4);
    assert_eq!(remaining, 0);
}

#[test]
fn sixty_four_full_duplex_clients_fit_one_bounded_wait_set() {
    let clients = (0..64).map(|index| (100 + index, true)).collect::<Vec<_>>();
    let interests = build_wait_interests(10, 4, Some(11), Some(12), &[13, 14], &clients, false)
        .expect("listener/input/watch plus 64 read+write clients fit cap 256");
    assert_eq!(interests.len(), 6 + 64 * 2);
    for (fd, _) in &clients {
        assert!(interests.contains(&(*fd, FD_READ)));
        assert!(interests.contains(&(*fd, FD_WRITE)));
    }
    assert!(interests.len() <= MAX_SUBSCRIPTIONS);

    let shutdown_interests =
        build_wait_interests(10, 4, Some(11), Some(12), &[13, 14], &clients, true)
            .expect("shutdown listener and client transport fit the wait set");
    assert_eq!(shutdown_interests.len(), 1 + 64 * 2);
    assert!(shutdown_interests.contains(&(10, FD_READ)));
    for excluded in [4, 11, 12, 13, 14] {
        assert!(!shutdown_interests.iter().any(|(fd, _)| *fd == excluded));
    }
}

#[test]
fn protocol_request_quantum_retains_exact_complete_and_fragmented_suffix() {
    let request = protocol_request(ObjectId::display(), 2, &3u32.to_le_bytes());
    let mut pending = request.repeat(10);
    pending.extend_from_slice(&request[..5]);
    let mut seen = 0;

    let first =
        drain_protocol_requests_bounded(&mut pending, REQUESTS_PER_CLIENT_PER_TURN, |_| {
            seen += 1;
            true
        });
    assert_eq!(first.dispatched, REQUESTS_PER_CLIENT_PER_TURN);
    assert_eq!(first.consumed, request.len() * REQUESTS_PER_CLIENT_PER_TURN);
    assert!(first.complete_remaining);
    assert_eq!(pending, [request.repeat(6), request[..5].to_vec()].concat());
    assert!(!should_park_after_request_round(first.complete_remaining));

    let second = drain_protocol_requests_bounded(&mut pending, usize::MAX, |_| {
        seen += 1;
        true
    });
    assert_eq!(second.dispatched, 6);
    assert!(!second.complete_remaining);
    assert_eq!(pending, request[..5]);
    assert_eq!(seen, 10);
    assert!(should_park_after_request_round(second.complete_remaining));
}

#[test]
fn valid_surface_commit_flood_is_limited_before_full_recomposition() {
    let mut server = Server::new(&keymaps());
    let client = server.accept();
    let registry = ObjectId::new(3);
    let compositor = ObjectId::new(5);
    let surface = ObjectId::new(7);
    server
        .dispatch_request(
            client,
            &protocol_request(ObjectId::display(), 2, &registry.raw().to_le_bytes()),
        )
        .unwrap();
    server
        .dispatch_request(
            client,
            &protocol_request(
                registry,
                1,
                &registry_bind_payload(1, "pmd_compositor", compositor),
            ),
        )
        .unwrap();
    server
        .dispatch_request(
            client,
            &protocol_request(compositor, 1, &surface.raw().to_le_bytes()),
        )
        .unwrap();

    let commit = protocol_request(surface, 7, &[]);
    let mut pending = commit.repeat(REQUESTS_PER_CLIENT_PER_TURN + 2);
    let generation = server.scene_generation();
    server.begin_recomposition_batch();
    let drain = drain_protocol_requests_bounded(
        &mut pending,
        REQUESTS_PER_CLIENT_PER_TURN,
        |message| {
            let before = server.recomposition_serial();
            server.dispatch_request(client, message).unwrap();
            server.recomposition_serial() == before
        },
    );
    assert_eq!(drain.dispatched, 1);
    assert!(drain.stopped_early);
    assert_eq!(server.scene_generation(), generation);
    assert!(server.finish_recomposition_batch());
    assert_eq!(server.scene_generation().wrapping_sub(generation), 1);
    assert_eq!(pending, commit.repeat(REQUESTS_PER_CLIENT_PER_TURN + 1));
    assert!(drain.complete_remaining);
}

#[test]
fn global_request_budget_rotates_service_across_sixty_four_clients() {
    let request = protocol_request(ObjectId::display(), 2, &3u32.to_le_bytes());
    let mut pending = vec![request.repeat(REQUESTS_PER_CLIENT_PER_TURN); 64];
    let mut counts = [0usize; 64];
    let mut cursor = 0usize;

    let clients_per_turn = REQUESTS_PER_TURN / REQUESTS_PER_CLIENT_PER_TURN;
    for (round, expected_start) in [0usize, clients_per_turn].into_iter().enumerate() {
        assert_eq!(cursor, expected_start);
        let mut remaining = REQUESTS_PER_TURN;
        let mut last = None;
        for index in rotating_indices(pending.len(), cursor) {
            if remaining == 0 {
                break;
            }
            let drain = drain_protocol_requests_bounded(
                &mut pending[index],
                REQUESTS_PER_CLIENT_PER_TURN.min(remaining),
                |_| {
                    counts[index] += 1;
                    true
                },
            );
            remaining -= drain.dispatched;
            last = Some(index);
        }
        assert_eq!(remaining, 0);
        assert_eq!(
            counts.iter().sum::<usize>(),
            (round + 1) * REQUESTS_PER_TURN
        );
        cursor = (last.unwrap() + 1) % pending.len();
        assert_eq!(cursor, (round + 1) * clients_per_turn);
    }

    assert!(counts[..clients_per_turn * 2]
        .iter()
        .all(|count| *count == REQUESTS_PER_CLIENT_PER_TURN));
    assert!(counts[clients_per_turn * 2..]
        .iter()
        .all(|count| *count == 0));
}

#[test]
fn ready_scene_presents_once_inside_the_read_pass_before_flush() {
    let mut schedule = PresentationSchedule::default();
    let mut phases = Vec::new();
    for client in 0..3 {
        phases.push(format!("read-{client}"));
        if client == 0 {
            schedule.mark_scene_if(true);
        }
        if schedule.take_scene_ready(false) {
            phases.push("present".to_string());
        }
    }
    phases.push("flush".to_string());

    assert_eq!(phases, ["read-0", "present", "read-1", "read-2", "flush"]);
    assert!(!schedule.take_ready(false));
}

#[test]
fn continued_scan_prevents_starvation_across_repeated_dirty_turns() {
    let mut schedule = PresentationSchedule::default();
    let mut reads = [0u32; 6];
    let mut presents = 0u32;
    for _ in 0..32 {
        for (client, count) in reads.iter_mut().enumerate() {
            *count += 1;
            if client == 0 {
                schedule.mark_scene_if(true);
            }
            if schedule.take_scene_ready(false) {
                presents += 1;
            }
        }
    }

    assert_eq!(reads, [32; 6]);
    assert_eq!(presents, 32);
}

#[test]
fn deferred_focus_stays_dirty_until_shell_commit() {
    let mut schedule = PresentationSchedule::default();
    schedule.mark_frame_dirty();
    schedule.mark_scene_if(true);

    assert!(!schedule.take_scene_ready(true));
    assert!(schedule.take_scene_ready(false));
    assert!(!schedule.take_ready(false));
}

#[test]
fn pending_recomposition_cannot_consume_scene_or_damage_before_materialization() {
    let (mut server, client, callback) = server_with_awaiting_frame_callback();
    let mut schedule = PresentationSchedule::default();
    schedule.mark_scene_if(true);
    let generation = server.scene_generation();

    server.begin_recomposition_batch();
    server
        .dispatch_request(client, &protocol_request(ObjectId::new(5), 7, &[]))
        .unwrap();
    assert_eq!(server.scene_generation(), generation);
    assert!(server.presentation_deferred());
    assert!(!schedule.take_scene_ready(server.presentation_deferred()));
    assert_eq!(
        server.presentation_damage(),
        &PresentationDamage::Full,
    );
    assert_eq!(
        server
            .client(client)
            .unwrap()
            .awaiting_present_frame_callback_count(),
        1,
    );

    assert!(server.finish_recomposition_batch());
    assert!(!server.presentation_deferred());
    assert!(schedule.take_scene_ready(server.presentation_deferred()));
    let mut budget = MAX_FRAME_CALLBACK_COMPLETIONS_PER_TURN;
    assert_eq!(
        complete_successful_frame_presentation(
            &mut server,
            true,
            false,
            77,
            &mut budget,
        ),
        Ok(1),
    );
    assert_eq!(
        server.presentation_damage(),
        &PresentationDamage::Bounded(Vec::new()),
    );
    let events = server.drain_client_events(client).unwrap();
    let done = MessageHeader::decode(&events).unwrap();
    assert_eq!((done.object_id, done.opcode), (callback, 1));
}

#[test]
fn frame_only_dirty_waits_for_end_of_turn_presentation() {
    let mut schedule = PresentationSchedule::default();
    schedule.mark_frame_dirty();

    assert!(!schedule.take_scene_ready(false));
    assert!(schedule.take_ready(false));
    assert!(!schedule.take_ready(false));
}

#[test]
fn frame_callback_crosses_only_a_successful_nondeferred_present_boundary() {
    let (mut server, client, callback) = server_with_awaiting_frame_callback();
    let mut budget = MAX_FRAME_CALLBACK_COMPLETIONS_PER_TURN;
    assert_eq!(
        server.presentation_damage(),
        &PresentationDamage::Full,
    );

    assert_eq!(
        complete_successful_frame_presentation(
            &mut server,
            false,
            false,
            10,
            &mut budget,
        ),
        Err(())
    );
    assert_eq!(
        server
            .client(client)
            .unwrap()
            .awaiting_present_frame_callback_count(),
        1
    );
    assert_eq!(
        server.presentation_damage(),
        &PresentationDamage::Full,
        "a failed write cannot retire the pending comparison bound",
    );
    assert!(server.drain_client_events(client).unwrap().is_empty());

    assert_eq!(
        complete_successful_frame_presentation(&mut server, true, true, 11, &mut budget,),
        Ok(0)
    );
    assert_eq!(
        server
            .client(client)
            .unwrap()
            .awaiting_present_frame_callback_count(),
        1
    );
    assert_eq!(
        server.presentation_damage(),
        &PresentationDamage::Full,
        "a deferred boundary cannot retire presentation damage",
    );
    assert!(server.drain_client_events(client).unwrap().is_empty());

    let completed = complete_successful_frame_presentation(
        &mut server,
        true,
        false,
        12,
        &mut budget,
    )
    .unwrap();
    assert_eq!(completed, 1);
    assert_eq!(
        server.presentation_damage(),
        &PresentationDamage::Bounded(Vec::new()),
    );
    let events = server.drain_client_events(client).unwrap();
    let done = MessageHeader::decode(&events).unwrap();
    assert_eq!((done.object_id, done.opcode), (callback, 1));
    assert_eq!(&events[HEADER_SIZE..HEADER_SIZE + 4], &12u32.to_le_bytes());
    let deleted = MessageHeader::decode(&events[usize::from(done.length)..]).unwrap();
    assert_eq!((deleted.object_id, deleted.opcode), (ObjectId::display(), 2));
}

#[test]
fn end_turn_callback_events_force_one_transport_turn_without_capacity_spin() {
    let (mut server, client, _) = server_with_awaiting_frame_callback();
    let mut budget = MAX_FRAME_CALLBACK_COMPLETIONS_PER_TURN;
    let completed = complete_successful_frame_presentation(
        &mut server,
        true,
        false,
        20,
        &mut budget,
    )
    .unwrap();
    assert!(frame_callback_lifecycle_requires_local_turn(
        &server, completed
    ));
    let _ = server.drain_client_events(client).unwrap();

    let (mut blocked, blocked_client, _) = server_with_awaiting_frame_callback();
    blocked.mark_frame_callbacks_presented(21);
    for _ in 0..MAX_PENDING_EVENTS - 1 {
        blocked
            .client_mut(blocked_client)
            .unwrap()
            .emit_error(ObjectId::display(), 1, "")
            .unwrap();
    }
    assert!(!blocked.ready_frame_callback_lifecycle_can_progress());
    assert!(!frame_callback_lifecycle_requires_local_turn(&blocked, 0));
}

#[test]
fn authenticated_fence_waits_for_dirty_and_deferred_presentation() {

    let mut server = Server::new(&keymaps());
    let shell = server.accept_with_caps(CapSet::from_caps(&[Cap::Shell]));
    let registry = ObjectId::new(3);
    let shell_manager = ObjectId::new(5);
    server
        .dispatch_request(
            shell,
            &protocol_request(ObjectId::display(), 2, &registry.raw().to_le_bytes()),
        )
        .unwrap();
    server
        .dispatch_request(
            shell,
            &protocol_request(
                registry,
                1,
                &registry_bind_payload(5, "pmd_shell_manager", shell_manager),
            ),
        )
        .unwrap();
    server
        .dispatch_request(shell, &protocol_request(shell_manager, 8, &[]))
        .unwrap();

    let mut schedule = PresentationSchedule::default();
    schedule.mark_frame_dirty();
    schedule.mark_scene_if(true);

    assert_eq!(
        take_ready_present_fence_with_deferred(&mut server, &schedule, true),
        None,
        "a deferred scene must hold the authenticated marker",
    );
    assert_eq!(server.pending_present_fence_count(), 1);
    assert!(!schedule.take_scene_ready(true));
    assert_eq!(take_ready_present_fence(&mut server, &schedule), None);
    assert_eq!(server.pending_present_fence_count(), 1);

    assert!(schedule.take_scene_ready(false));
    assert_eq!(take_ready_present_fence(&mut server, &schedule), Some(1));
    assert_eq!(server.pending_present_fence_count(), 0);
}

#[test]
fn one_fence_write_per_turn_drains_two_shells_fairly_without_parking() {

    let mut server = Server::new(&keymaps());
    for _ in 0..2 {
        let shell = server.accept_with_caps(CapSet::from_caps(&[Cap::Shell]));
        let registry = ObjectId::new(3);
        let shell_manager = ObjectId::new(5);
        server
            .dispatch_request(
                shell,
                &protocol_request(ObjectId::display(), 2, &registry.raw().to_le_bytes()),
            )
            .unwrap();
        server
            .dispatch_request(
                shell,
                &protocol_request(
                    registry,
                    1,
                    &registry_bind_payload(5, "pmd_shell_manager", shell_manager),
                ),
            )
            .unwrap();
        server
            .dispatch_request(shell, &protocol_request(shell_manager, 8, &[]))
            .unwrap();
    }

    let presentation = PresentationSchedule::default();
    let mut emitted = Vec::new();

    let mut first_turn_budget = PRESENT_FENCE_WRITES_PER_TURN;
    assert!(drain_ready_present_fences_bounded(
        &mut server,
        &presentation,
        false,
        &mut first_turn_budget,
        |serial| {
            emitted.push(serial);
            true
        },
    ));
    assert_eq!(first_turn_budget, 0);
    assert_eq!(emitted, [1]);
    assert_eq!(server.pending_present_fence_count(), 1);
    let ready_fence_remains =
        server.pending_present_fence_count() > 0 && presentation.present_fence_ready(false);
    assert!(!should_park_after_request_round(ready_fence_remains));

    let mut second_turn_budget = PRESENT_FENCE_WRITES_PER_TURN;
    assert!(drain_ready_present_fences_bounded(
        &mut server,
        &presentation,
        false,
        &mut second_turn_budget,
        |serial| {
            emitted.push(serial);
            true
        },
    ));
    assert_eq!(second_turn_budget, 0);
    assert_eq!(emitted, [1, 2]);
    assert_eq!(server.pending_present_fence_count(), 0);
    assert!(should_park_after_request_round(false));
}

#[test]
fn disconnect_swap_remove_does_not_invalidate_the_unchanged_scan() {
    let mut clients = vec![0u32, 1, 2, 3];
    let mut visited = Vec::new();
    let mut idx = 0usize;
    while idx < clients.len() {
        let client = clients[idx];
        visited.push(client);
        if client == 1 {
            clients.swap_remove(idx);
            continue;
        }
        idx += 1;
    }

    visited.sort_unstable();
    assert_eq!(visited, [0, 1, 2, 3]);
    clients.sort_unstable();
    assert_eq!(clients, [0, 2, 3]);
}
