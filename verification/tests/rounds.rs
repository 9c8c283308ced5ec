use display_server::protocol::keymap::KeymapBundle;
use display_server::input::{
    decode_kbd_event, decode_mouse_event, drain_kbd_events_into, drain_mouse_events_into,
    DecodedKbdEvent, DecodedMouseEvent,
};
use display_server::poll::{
    asks_to_end, decode_ready_interests, encode_subscriptions, timeout_ns, EINVAL, EVENT_SIZE,
    FD_READ, FD_WRITE, MAX_SUBSCRIPTIONS, PollReadiness, SUBSCRIPTION_SIZE,
};
use display_server::schedule::accept::{after_watch_read, WatchStep, EIO, FS_WATCH_EVENT_SIZE};
use display_server::schedule::pace::{
    transport_is_ready, wait_after_turn, InputPriority, TurnStart, Wait,
};
use display_server::schedule::conns::{
    any_can_progress, find_conn, note_ready, shells_first, visit_order, wait_clients,
};
use display_server::schedule::requests::{has_complete_protocol_request, RequestDrain};
use display_server::schedule::shutdown::EAGAIN;
use display_server::schedule::turn::{
    Conn, RequestStep, Rotation, StreamMode, TransportStep, TurnBudget,
};
use display_server::schedule::{
    CLIENT_READ_ATTEMPTS_PER_TURN, CLIENT_WRITE_ATTEMPTS_PER_TURN, REQUESTS_PER_CLIENT_PER_TURN,
    REQUESTS_PER_TURN,
};
use display_server::{
    Cap, CapSet, ClientId, IdAllocator, IdKind, MessageHeader, ObjectId, OutboundQueue, Server,
    WireError, HEADER_SIZE, LEGACY_RAW_BLIT_PIXELS, MAX_CONN_OUTBOUND_BYTES,
};

/// Keymaps of which only the default can be used, and leaves every key alone.
fn keymaps() -> KeymapBundle {
    KeymapBundle {
        us_qwerty: b"PMKM\x01\0\0\0".to_vec(),
        uk_qwerty: Vec::new(),
        dvorak: Vec::new(),
    }
}

fn request() -> Vec<u8> {
    let mut bytes = vec![0u8; HEADER_SIZE];
    MessageHeader::try_new(ObjectId::new(1), 1, 4, 0).unwrap().encode(&mut bytes).unwrap();
    bytes.extend_from_slice(&[33, 0, 0, 0]);
    bytes
}

#[test]
fn a_connection_is_read_and_then_served() {
    let mut budget = TurnBudget::new();
    let mut conn = Conn::new(7, ClientId(1));
    assert_eq!(conn.begin_requests(&mut budget), RequestStep::Read);
    assert_eq!(budget.reads, CLIENT_READ_ATTEMPTS_PER_TURN - 1);
    assert!(!conn.read_ready);
    let message = request();
    assert_eq!(conn.note_read(&mut budget, 0, &message[..5]), RequestStep::Skip);
    assert_eq!(conn.stream_mode, StreamMode::Undecided);
    conn.read_ready = true;
    assert_eq!(conn.begin_requests(&mut budget), RequestStep::Read);
    assert_eq!(conn.note_read(&mut budget, 0, &message[5..]), RequestStep::Serve);
    assert_eq!(conn.stream_mode, StreamMode::Protocol);
    assert!(has_complete_protocol_request(&conn.pending));
    // A request that is there is served before anything more is read.
    conn.read_ready = true;
    assert_eq!(conn.begin_requests(&mut budget), RequestStep::Serve);
    assert_eq!(budget.reads, CLIENT_READ_ATTEMPTS_PER_TURN - 2);
}

#[test]
fn reads_are_limited_in_a_turn() {
    let mut budget = TurnBudget::new();
    budget.reads = 0;
    let mut conn = Conn::new(7, ClientId(1));
    assert_eq!(conn.begin_requests(&mut budget), RequestStep::Skip);
    assert!(budget.local_pending_work);
    assert!(conn.read_ready);
}

#[test]
fn a_connection_that_ends_or_fails_is_closed() {
    let mut budget = TurnBudget::new();
    let mut conn = Conn::new(7, ClientId(1));
    conn.begin_requests(&mut budget);
    assert_eq!(conn.note_read(&mut budget, 0, &[]), RequestStep::Disconnect);
    assert_eq!(budget.disconnects, 0);
    let mut second = Conn::new(8, ClientId(2));
    second.begin_requests(&mut budget);
    assert_eq!(second.note_read(&mut budget, 5, &[]), RequestStep::Skip);
    assert!(second.disconnect_pending);
    assert!(budget.local_pending_work);
    let mut third = Conn::new(9, ClientId(3));
    let mut budget = TurnBudget::new();
    third.begin_requests(&mut budget);
    assert_eq!(third.note_read(&mut budget, EAGAIN, &[]), RequestStep::Serve);
    assert!(!third.disconnect_pending);
}

#[test]
fn the_known_picture_is_shown_and_the_connection_closed() {
    let mut budget = TurnBudget::new();
    let mut conn = Conn::new(7, ClientId(1));
    conn.begin_requests(&mut budget);
    assert_eq!(conn.note_read(&mut budget, 0, &LEGACY_RAW_BLIT_PIXELS), RequestStep::Blit);
    assert_eq!(conn.note_blit(&mut budget), RequestStep::Disconnect);
    let mut other = Conn::new(8, ClientId(2));
    let mut budget = TurnBudget::new();
    other.begin_requests(&mut budget);
    assert_eq!(other.note_read(&mut budget, 0, &[0xff; 16]), RequestStep::Disconnect);
}

#[test]
fn served_requests_count_against_the_turn() {
    let mut budget = TurnBudget::new();
    assert_eq!(budget.request_limit(), REQUESTS_PER_CLIENT_PER_TURN);
    let mut conn = Conn::new(7, ClientId(1));
    let drain = RequestDrain {
        dispatched: 3,
        consumed: 42,
        complete_remaining: false,
        stopped_early: false,
    };
    assert!(conn.note_requests(&mut budget, drain, false));
    assert_eq!(budget.requests, REQUESTS_PER_TURN - 3);
    assert!(!budget.local_pending_work);
    let more = RequestDrain {
        dispatched: 1,
        consumed: 14,
        complete_remaining: true,
        stopped_early: false,
    };
    assert!(!conn.note_requests(&mut budget, more, false));
    assert!(budget.local_pending_work);
    budget.requests = 2;
    assert_eq!(budget.request_limit(), 2);
    assert!(budget.can_serve());
    budget.requests = 0;
    assert!(!budget.can_serve());
}

#[test]
fn events_move_to_the_socket_as_far_as_they_fit() {
    let mut server = Server::new(&keymaps());
    let id = server.accept();
    server.client_mut(id).unwrap().emit_delete_id(ObjectId::new(3)).unwrap();
    server.client_mut(id).unwrap().emit_delete_id(ObjectId::new(5)).unwrap();
    let mut conn = Conn::new(7, id);
    let mut budget = TurnBudget::new();
    budget.event_bytes = 20;
    let (step, moved) = conn.begin_sending(&mut budget, &mut server);
    assert_eq!((step, moved), (TransportStep::Write, true));
    assert_eq!(budget.event_bytes, 6);
    assert_eq!(budget.writes, CLIENT_WRITE_ATTEMPTS_PER_TURN - 1);
    assert_eq!(conn.outbound.as_slice().len(), 14);
    assert_eq!(conn.note_write(&mut budget, &server, 0, 10), TransportStep::Skip);
    assert_eq!(conn.outbound.as_slice().len(), 4);
    assert!(budget.local_pending_work);
    let mut budget = TurnBudget::new();
    budget.writes = 0;
    conn.write_ready = true;
    let (step, _) = conn.begin_sending(&mut budget, &mut server);
    assert_eq!(step, TransportStep::Skip);
    assert_eq!(conn.outbound.as_slice().len(), 18);
    assert!(budget.local_pending_work);
    let mut budget = TurnBudget::new();
    let (step, moved) = conn.begin_sending(&mut budget, &mut server);
    assert_eq!((step, moved), (TransportStep::Write, false));
    assert_eq!(conn.note_write(&mut budget, &server, 9, 0), TransportStep::Disconnect);
    assert!(conn.disconnect_pending);
}

#[test]
fn a_connection_with_too_many_events_is_closed() {
    let mut server = Server::new(&keymaps());
    let id = server.accept();
    for _ in 0..1025 {
        let _ = server.client_mut(id).unwrap().emit_delete_id(ObjectId::new(3));
    }
    assert!(server.client_event_queue_overflowed(id));
    let mut conn = Conn::new(7, id);
    let mut budget = TurnBudget::new();
    let (step, moved) = conn.begin_sending(&mut budget, &mut server);
    assert_eq!((step, moved), (TransportStep::Disconnect, false));
}

#[test]
fn rounds_begin_after_the_connection_served_last() {
    let mut rotation = Rotation::new();
    rotation.begin();
    rotation.note_served(2);
    rotation.finish(4);
    assert_eq!(rotation.cursor, 3);
    let conns: Vec<Conn> = (0..4).map(|i| Conn::new(i, ClientId(i as u32 + 1))).collect();
    let order: Vec<u32> = visit_order(&conns, rotation.cursor).iter().map(|id| id.0).collect();
    assert_eq!(order, vec![4, 1, 2, 3]);
    rotation.begin();
    rotation.note_closed(3);
    rotation.finish(3);
    assert_eq!(rotation.cursor, 0);
    rotation.finish(0);
    assert_eq!(rotation.cursor, 0);
}

#[test]
fn shells_are_sent_to_first() {
    let mut server = Server::new(&keymaps());
    let first = server.accept();
    let shell = server.accept_with_caps(CapSet::from_caps(&[Cap::Shell]));
    let second = server.accept();
    assert_eq!(
        shells_first(&server, &vec![first, shell, second]),
        vec![shell, first, second]
    );
}

#[test]
fn readiness_reaches_the_connections_it_is_about() {
    let mut conns: Vec<Conn> = (0..2).map(|i| Conn::new(10 + i, ClientId(i as u32 + 1))).collect();
    for conn in conns.iter_mut() {
        conn.read_ready = false;
    }
    assert!(!any_can_progress(&conns));
    note_ready(&mut conns, &[(11, FD_READ), (10, FD_WRITE), (99, FD_READ)]);
    assert!(conns[1].read_ready && !conns[1].write_ready);
    assert!(conns[0].write_ready && !conns[0].read_ready);
    assert!(any_can_progress(&conns));
    assert_eq!(find_conn(&conns, ClientId(2)), Some(1));
    assert_eq!(find_conn(&conns, ClientId(9)), None);
    conns[0].outbound.append(&[1]).unwrap();
    assert_eq!(wait_clients(&conns), vec![(10, true), (11, false)]);
}

#[test]
fn waits_are_laid_out_one_after_another() {
    let bytes = encode_subscriptions(&[(5, FD_READ), (6, FD_WRITE)], Some(9)).unwrap();
    assert_eq!(bytes.len(), 3 * SUBSCRIPTION_SIZE);
    assert_eq!(bytes[0..9], [1, 0, 0, 0, 0, 0, 0, 0, FD_READ]);
    assert_eq!(bytes[16..20], [5, 0, 0, 0]);
    assert_eq!(bytes[48..57], [2, 0, 0, 0, 0, 0, 0, 0, FD_WRITE]);
    assert_eq!(bytes[96..105], [0, 0, 0, 0, 0, 0, 0, 0, 0]);
    assert_eq!(bytes[112..116], [1, 0, 0, 0]);
    assert_eq!(bytes[120..128], [9, 0, 0, 0, 0, 0, 0, 0]);
    let many = vec![(1, FD_READ); MAX_SUBSCRIPTIONS];
    assert!(encode_subscriptions(&many, None).is_ok());
    assert_eq!(encode_subscriptions(&many, Some(1)), Err(EINVAL));
    assert_eq!(encode_subscriptions(&[], None), Err(EINVAL));
    assert_eq!(timeout_ns(3), 3_000_000);
    assert_eq!(timeout_ns(u64::MAX), u64::MAX);
}

#[test]
fn reports_name_what_was_waited_for() {
    let mut report = vec![0u8; EVENT_SIZE];
    report[0] = 2;
    report[10] = FD_WRITE;
    let interests = [(5, FD_READ), (6, FD_WRITE)];
    assert_eq!(
        decode_ready_interests(&interests, &report, 1, false),
        Ok(vec![(6, FD_WRITE)])
    );
    report[0] = 3;
    assert!(decode_ready_interests(&interests, &report, 1, false).is_err());
    assert!(decode_ready_interests(&interests, &report, 2, false).is_err());
}

#[test]
fn a_signal_can_ask_to_end() {
    assert!(asks_to_end(&[15, 0]));
    assert!(asks_to_end(&[2, 0, 15, 0]));
    assert!(!asks_to_end(&[2, 0]));
    assert!(!asks_to_end(&[15]));
    assert!(!asks_to_end(&[]));
}

#[test]
fn reports_of_changes_are_whole() {
    assert_eq!(after_watch_read(Ok(FS_WATCH_EVENT_SIZE)), WatchStep::Changed);
    assert_eq!(after_watch_read(Err(EAGAIN)), WatchStep::Quiet);
    assert_eq!(after_watch_read(Err(9)), WatchStep::Failed(9));
    assert_eq!(after_watch_read(Ok(FS_WATCH_EVENT_SIZE - 1)), WatchStep::Failed(EIO));
}

#[test]
fn what_waits_to_be_sent_keeps_its_order_and_its_limit() {
    let mut queue = OutboundQueue::new();
    queue.append(&[1, 2, 3]).unwrap();
    queue.append(&[4]).unwrap();
    assert_eq!(queue.as_slice(), &[1, 2, 3, 4]);
    queue.consume(2);
    assert_eq!(queue.as_slice(), &[3, 4]);
    assert_eq!(queue.remaining_capacity(), MAX_CONN_OUTBOUND_BYTES - 2);
    let big = vec![0u8; MAX_CONN_OUTBOUND_BYTES];
    assert!(queue.append(&big).is_err());
    assert_eq!(queue.as_slice(), &[3, 4]);
    queue.consume(99);
    assert!(queue.is_empty());
}

#[test]
fn a_header_is_read_back_and_checked() {
    let header = MessageHeader::try_new(ObjectId::new(0x0102_0304), 0x0506, 4, 1).unwrap();
    let mut bytes = vec![0u8; HEADER_SIZE];
    header.encode(&mut bytes).unwrap();
    assert_eq!(bytes[..4], [4, 3, 2, 1]);
    assert_eq!(bytes[4..6], [6, 5]);
    bytes.extend_from_slice(&[0; 4]);
    assert_eq!(MessageHeader::decode(&bytes).unwrap(), header);
    assert!(MessageHeader::decode(&bytes[..9]).is_err());
    assert!(matches!(
        MessageHeader::try_new(ObjectId::new(1), 1, 70_000, 0),
        Err(WireError::PayloadTooLarge { payload: 70_000 })
    ));
}

#[test]
fn names_belong_to_one_side() {
    assert_eq!(ObjectId::new(3).kind(), IdKind::Client);
    assert_eq!(ObjectId::new(4).kind(), IdKind::Server);
    assert!(ObjectId::null().is_null());
    assert_eq!(ObjectId::display().raw(), 1);
    let mut ids = IdAllocator::for_server();
    assert_eq!(ids.peek(), ObjectId::new(2));
    assert_eq!(ids.allocate().unwrap(), ObjectId::new(2));
    assert_eq!(ids.allocate().unwrap(), ObjectId::new(4));
}

fn mouse(kind: u32, x: i32, y: i32, a: u32, b: u32) -> Vec<u8> {
    [kind, x as u32, y as u32, a, b].iter().flat_map(|v| v.to_le_bytes()).collect()
}

#[test]
fn input_records_are_decoded() {
    assert_eq!(
        decode_mouse_event(&mouse(0, -3, 4, 0, 0)),
        Some((DecodedMouseEvent::Motion { x: -3, y: 4 }, 20))
    );
    assert_eq!(
        decode_mouse_event(&mouse(1, 1, 2, 5, 1)),
        Some((DecodedMouseEvent::Button { x: 1, y: 2, button: 5, state: 1 }, 20))
    );
    assert_eq!(
        decode_mouse_event(&mouse(2, 1, 2, 0, u32::MAX)),
        Some((DecodedMouseEvent::Wheel { x: 1, y: 2, delta_x: 0, delta_y: -1 }, 20))
    );
    assert_eq!(decode_mouse_event(&mouse(1, 1, 2, 5, 7)), None);
    assert_eq!(decode_mouse_event(&mouse(3, 1, 2, 0, 0)), None);
    assert_eq!(decode_mouse_event(&[0; 19]), None);
    assert_eq!(
        decode_kbd_event(&[4, 0, 0, 0, 1, 0, 0, 0]),
        Some((DecodedKbdEvent { key: 4, state: 1 }, 8))
    );
    assert_eq!(decode_kbd_event(&[4, 0, 0, 0, 2, 0, 0, 0]), None);
}

#[test]
fn input_moves_the_pointer() {
    let mut server = Server::new(&keymaps());
    let mut bytes = mouse(0, 5, 6, 0, 0);
    bytes.extend(mouse(0, 7, 8, 0, 0));
    bytes.extend([0; 7]);
    assert_eq!(drain_mouse_events_into(&bytes, &mut server), 2);
    assert_eq!(server.pointer_position(), (7, 8));
    assert_eq!(drain_kbd_events_into(&[4, 0, 0, 0, 1, 0, 0, 0, 9], &mut server), 1);
}

#[test]
fn what_input_changes_is_shown_first_but_not_twice_on_end() {
    let mut input = InputPriority::default();
    assert_eq!(input.note_input(false), TurnStart::ServeClients);
    assert_eq!(input.note_input(true), TurnStart::ShowInput);
    assert_eq!(input.note_input(true), TurnStart::ServeClients);
    assert_eq!(input.note_input(true), TurnStart::ShowInput);
    assert_eq!(input.note_input(false), TurnStart::ServeClients);
    assert_eq!(input.note_input(true), TurnStart::ShowInput);
}

#[test]
fn the_server_waits_only_when_nothing_is_left_to_do() {
    let wait = |timeout_ms: Option<u64>, transport_only: bool| Wait { timeout_ms, transport_only };
    assert_eq!(wait_after_turn(false, false, None), wait(None, false));
    assert_eq!(wait_after_turn(false, false, Some(40)), wait(Some(40), false));
    assert_eq!(wait_after_turn(true, false, Some(40)), wait(Some(0), false));
    assert_eq!(wait_after_turn(false, true, None), wait(Some(0), true));
    assert_eq!(wait_after_turn(true, true, Some(40)), wait(Some(0), true));
}

#[test]
fn a_look_that_was_cut_short_may_have_missed_something() {
    let mut conns = vec![Conn::new(40, ClientId(1))];
    conns[0].read_ready = false;
    let quiet = PollReadiness { listener_read_ready: false };
    assert!(transport_is_ready(None, &conns));
    assert!(!transport_is_ready(Some(quiet), &conns));
    assert!(transport_is_ready(Some(PollReadiness { listener_read_ready: true }), &conns));
    note_ready(&mut conns, &vec![(40, FD_READ)]);
    assert!(transport_is_ready(Some(quiet), &conns));
}
