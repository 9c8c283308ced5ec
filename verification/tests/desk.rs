use display_server::protocol::keymap::KeymapBundle;
use display_server::schedule::presentation::{
    present_fences_require_local_turn, PresentationSchedule,
};
use display_server::server::keyboard::{KEY_ALT_LEFT, KEY_F4};
use display_server::{
    Cap, CapSet, ClientError, ClientId, ClientResource, HitResult, Interface, MessageHeader,
    ObjectId, Server, ServerError, ServerLimits, WireError, HEADER_SIZE, MAX_SERVER_CLIENTS,
    MAX_SERVER_ORDINARY_CLIENTS, MAX_SERVER_POOL_BYTES, MAX_SERVER_SHELL_CLIENTS,
    SHELL_FULL_OUTPUT_POOL_BYTES,
};

/// Keymaps of which only the default can be used, and leaves every key alone.
fn keymaps() -> KeymapBundle {
    KeymapBundle {
        us_qwerty: b"PMKM\x01\0\0\0".to_vec(),
        uk_qwerty: Vec::new(),
        dvorak: Vec::new(),
    }
}

const COMPOSITOR: u32 = 3;
const SHM: u32 = 5;
const SHELL: u32 = 7;
const SEAT: u32 = 9;
const MANAGER: u32 = 11;
const POINTER: u32 = 13;
const KEYBOARD: u32 = 15;
const PRESSED: u32 = 1;
const RELEASED: u32 = 0;

fn words(values: &[u32]) -> Vec<u8> {
    let mut payload = Vec::new();
    for value in values {
        payload.extend_from_slice(&value.to_le_bytes());
    }
    payload
}

fn text(value: &str) -> Vec<u8> {
    let mut payload = words(&[value.len() as u32]);
    payload.extend_from_slice(value.as_bytes());
    while payload.len() % 4 != 0 {
        payload.push(0);
    }
    payload
}

fn message(object: u32, opcode: u16, payload: &[u8]) -> Vec<u8> {
    let mut bytes = vec![0u8; HEADER_SIZE];
    MessageHeader::try_new(ObjectId::new(object), opcode, payload.len(), 0)
        .unwrap()
        .encode(&mut bytes)
        .unwrap();
    bytes.extend_from_slice(payload);
    bytes
}

fn ask(server: &mut Server, client: ClientId, object: u32, opcode: u16, payload: &[u8]) {
    server
        .dispatch_request(client, &message(object, opcode, payload))
        .unwrap();
}

fn prepare(server: &mut Server, client: ClientId) {
    let state = server.client_mut(client).unwrap();
    for (id, interface) in [
        (COMPOSITOR, Interface::Compositor),
        (SHM, Interface::Shm),
        (SHELL, Interface::XdgShell),
        (SEAT, Interface::Seat),
    ] {
        state.install_client_object(ObjectId::new(id), interface).unwrap();
    }
}

fn app(server: &mut Server) -> ClientId {
    let client = server.accept();
    prepare(server, client);
    client
}

/// A shell that has bound its manager and follows windows.
fn shell(server: &mut Server) -> ClientId {
    let client = server.accept_with_caps(CapSet::from_caps(&[Cap::Shell]));
    prepare(server, client);
    server
        .client_mut(client)
        .unwrap()
        .install_client_object(ObjectId::new(17), Interface::Registry)
        .unwrap();
    let mut payload = words(&[5]);
    payload.extend(text("pmd_shell_manager"));
    payload.extend(words(&[2, MANAGER]));
    ask(server, client, 17, 1, &payload);
    ask(server, client, MANAGER, 1, &[]);
    client
}

/// Opens a window of one colour. Its surface is `at`, its toplevel `at + 2`,
/// its pool `at + 4` and its buffer `at + 6`.
fn open(server: &mut Server, client: ClientId, at: u32, width: u32, height: u32, colour: u8) {
    let size = 4 * width * height;
    ask(server, client, COMPOSITOR, 1, &words(&[at]));
    ask(server, client, SHELL, 1, &words(&[at + 2, at]));
    ask(server, client, SHM, 1, &words(&[at + 4, size]));
    let mut rows = words(&[0, 4 * width, height, 4 * width]);
    rows.extend(vec![colour; size as usize]);
    ask(server, client, at + 4, 5, &rows);
    ask(server, client, at + 4, 1, &words(&[at + 6, 0, width, height, 4 * width, 0]));
    ask(server, client, at, 2, &words(&[at + 6, 0, 0]));
    ask(server, client, at, 7, &[]);
}

fn events(server: &mut Server, client: ClientId) -> Vec<(u32, u16, Vec<u8>)> {
    let bytes = match server.drain_client_events(client) {
        Some(bytes) => bytes,
        None => return Vec::new(),
    };
    let mut list = Vec::new();
    let mut at = 0;
    while at < bytes.len() {
        let header = MessageHeader::decode(&bytes[at..]).unwrap();
        let end = at + header.length as usize;
        list.push((header.object_id.raw(), header.opcode, bytes[at + HEADER_SIZE..end].to_vec()));
        at = end;
    }
    list
}

fn pixel(server: &Server, x: u32, y: u32) -> u8 {
    server.framebuffer().pixel(x, y).unwrap()[0]
}

fn window(server: &Server, client: ClientId, toplevel: u32) -> u32 {
    server.window_id(client, ObjectId::new(toplevel)).unwrap()
}

#[test]
fn windows_are_placed_step_by_step_and_drawn_in_order() {
    let mut server = Server::with_framebuffer_size(200, 100, &keymaps());
    let client = app(&mut server);
    open(&mut server, client, 31, 40, 40, 0x11);
    open(&mut server, client, 41, 40, 40, 0x22);
    assert_eq!(pixel(&server, 0, 0), 0x11);
    assert_eq!(pixel(&server, 39, 39), 0x22);
    assert_eq!(pixel(&server, 31, 31), 0x11);
    assert_eq!(pixel(&server, 71, 71), 0x22);
    assert_eq!(pixel(&server, 72, 71), 0);
    assert_eq!(
        server.hit_test(35, 36),
        Some(HitResult {
            client_id: client,
            surface_id: ObjectId::new(41),
            local_x: 3,
            local_y: 4,
        })
    );
    assert_eq!(server.hit_test(150, 50), None);
    assert_eq!(server.keyboard_focus(), Some((client, ObjectId::new(41))));
    assert_eq!(server.window_z_order().len(), 2);
}

#[test]
fn a_minimized_window_is_neither_drawn_nor_hit() {
    let mut server = Server::with_framebuffer_size(100, 100, &keymaps());
    let client = app(&mut server);
    open(&mut server, client, 31, 10, 10, 0x11);
    let id = window(&server, client, 33);
    assert!(server.set_window_minimized(id, true));
    assert_eq!(pixel(&server, 0, 0), 0);
    assert_eq!(server.hit_test(1, 1), None);
    assert_eq!(server.keyboard_focus(), None);
    assert!(server.restore_window(id));
    assert_eq!(pixel(&server, 0, 0), 0x11);
    assert!(server.hit_test(1, 1).is_some());
    // It comes back without the focus.
    assert_eq!(server.keyboard_focus(), None);
    assert!(!server.set_window_minimized(id + 1, true));
}

#[test]
fn a_click_focuses_raises_and_is_told() {
    let mut server = Server::with_framebuffer_size(200, 100, &keymaps());
    let client = app(&mut server);
    ask(&mut server, client, SEAT, 1, &words(&[POINTER]));
    open(&mut server, client, 31, 40, 40, 0x11);
    open(&mut server, client, 41, 40, 40, 0x22);
    let low = window(&server, client, 33);
    let high = window(&server, client, 43);
    events(&mut server, client);
    server.inject_pointer_motion(5, 6);
    assert_eq!(
        events(&mut server, client),
        vec![(POINTER, 1, words(&[31, 5, 6]))]
    );
    let hit = server.inject_pointer_button(1, PRESSED).unwrap();
    assert_eq!(hit.surface_id, ObjectId::new(31));
    assert_eq!(
        server.window_z_order().iter().map(|w| w.0).collect::<Vec<u32>>(),
        vec![high, low]
    );
    assert_eq!(pixel(&server, 35, 35), 0x11);
    let told = events(&mut server, client);
    assert_eq!(told.last().unwrap(), &(POINTER, 2, words(&[1, 31, 5, 6, 1, PRESSED])));
    assert_eq!(server.pointer_position(), (5, 6));
}

#[test]
fn a_connection_that_goes_takes_everything_with_it() {
    let mut server = Server::with_framebuffer_size(100, 100, &keymaps());
    let stays = app(&mut server);
    let goes = app(&mut server);
    open(&mut server, stays, 31, 10, 10, 0x11);
    open(&mut server, goes, 31, 60, 60, 0x22);
    ask(&mut server, goes, 33, 1, &text("four"));
    assert_eq!(server.pool_bytes_len(), 400 + 14_400);
    assert_eq!(server.toplevel_metadata_bytes_len(), 4);
    let gone = window(&server, goes, 33);
    assert_eq!(server.window_owner(gone), Some((goes, ObjectId::new(33))));
    assert!(server.disconnect(goes).is_some());
    assert_eq!(server.pool_bytes_len(), 400);
    assert_eq!(server.toplevel_metadata_bytes_len(), 0);
    assert_eq!(server.window_owner(gone), None);
    assert_eq!(server.client_count(), 1);
    assert_eq!(server.window_z_order().len(), 1);
    assert_eq!(server.keyboard_focus(), Some((stays, ObjectId::new(31))));
    assert_eq!(pixel(&server, 50, 50), 0);
    assert_eq!(pixel(&server, 5, 5), 0x11);
    assert!(server.disconnect(goes).is_none());
    // The number of a window is not handed out again.
    open(&mut server, stays, 41, 4, 4, 0x33);
    assert!(window(&server, stays, 43) > gone);
}

#[test]
fn a_shell_lies_below_and_is_told_of_windows() {
    let mut server = Server::with_framebuffer_size(100, 100, &keymaps());
    let desktop = shell(&mut server);
    let client = app(&mut server);
    open(&mut server, client, 31, 10, 10, 0x11);
    let first = window(&server, client, 33);
    open(&mut server, desktop, 31, 100, 100, 0x44);
    let wallpaper = window(&server, desktop, 33);
    assert_eq!(
        server.window_z_order().iter().map(|w| w.0).collect::<Vec<u32>>(),
        vec![wallpaper, first]
    );
    assert_eq!(pixel(&server, 5, 5), 0x11);
    assert_eq!(pixel(&server, 50, 50), 0x44);
    // Another window can have the focus, so the shell does not take it.
    assert_eq!(server.keyboard_focus(), Some((client, ObjectId::new(31))));
    let told = events(&mut server, desktop);
    let mut created = words(&[first]);
    created.extend(text(""));
    created.extend(text(""));
    assert!(told.contains(&(MANAGER, 1, created)));
    assert!(told.contains(&(MANAGER, 3, words(&[first]))));
    ask(&mut server, client, 33, 1, &text("Paint"));
    let mut renamed = words(&[first]);
    renamed.extend(text("Paint"));
    assert_eq!(events(&mut server, desktop), vec![(MANAGER, 4, renamed)]);
    ask(&mut server, client, 33, 3, &[]);
    let told = events(&mut server, desktop);
    assert!(told.contains(&(MANAGER, 2, words(&[first]))));
}

#[test]
fn maximizing_and_back_keeps_the_place() {
    let mut server = Server::with_framebuffer_size(100, 80, &keymaps());
    let client = app(&mut server);
    open(&mut server, client, 31, 10, 10, 0x11);
    open(&mut server, client, 41, 20, 30, 0x22);
    server.set_taskbar_height_px(8);
    assert_eq!((server.work_area_width(), server.work_area_height()), (100, 72));
    events(&mut server, client);
    ask(&mut server, client, 43, 5, &[]);
    let toplevel = server.client(client).unwrap().toplevel(ObjectId::new(43)).unwrap();
    assert_eq!((toplevel.x, toplevel.y, toplevel.maximized), (0, 0, true));
    let (object, opcode, payload) = events(&mut server, client).pop().unwrap();
    assert_eq!((object, opcode), (43, 1));
    assert_eq!(payload[4..], words(&[100, 72, 1 + 2])[..]);
    ask(&mut server, client, 43, 6, &[]);
    let toplevel = server.client(client).unwrap().toplevel(ObjectId::new(43)).unwrap();
    assert_eq!((toplevel.x, toplevel.y, toplevel.maximized), (32, 32, false));
    let (_, _, payload) = events(&mut server, client).pop().unwrap();
    assert_eq!(payload[4..], words(&[20, 30, 2])[..]);
}

#[test]
fn a_dragged_window_follows_the_pointer() {
    let mut server = Server::with_framebuffer_size(200, 200, &keymaps());
    let client = app(&mut server);
    open(&mut server, client, 31, 10, 10, 0x11);
    server.inject_pointer_motion(3, 3);
    ask(&mut server, client, 33, 7, &words(&[1]));
    assert!(server.is_dragging());
    server.inject_pointer_motion(53, 23);
    let toplevel = server.client(client).unwrap().toplevel(ObjectId::new(33)).unwrap();
    assert_eq!((toplevel.x, toplevel.y), (50, 20));
    assert_eq!(pixel(&server, 50, 20), 0x11);
    assert_eq!(pixel(&server, 3, 3), 0);
    assert_eq!(server.inject_pointer_button(1, RELEASED), None);
    assert!(!server.is_dragging());
    let toplevel = server.client(client).unwrap().toplevel(ObjectId::new(33)).unwrap();
    assert_eq!((toplevel.normal_x, toplevel.normal_y), (50, 20));
    // A resize asks for the size that the edge is dragged to.
    events(&mut server, client);
    ask(&mut server, client, 33, 8, &words(&[1, 8]));
    server.inject_pointer_motion(60, 99);
    let (_, _, payload) = events(&mut server, client).pop().unwrap();
    assert_eq!(payload[4..], words(&[17, 10, 2 + 4])[..]);
    assert!(server.end_drag().is_some());
    assert!(server.end_drag().is_none());
}

#[test]
fn keys_go_to_the_focus() {
    let mut server = Server::with_framebuffer_size(50, 50, &keymaps());
    let client = app(&mut server);
    ask(&mut server, client, SEAT, 2, &words(&[KEYBOARD]));
    open(&mut server, client, 31, 10, 10, 0x11);
    events(&mut server, client);
    assert_eq!(server.inject_keyboard_key(4, PRESSED), Some((client, ObjectId::new(31))));
    assert_eq!(
        events(&mut server, client),
        vec![(KEYBOARD, 1, words(&[31, 4, PRESSED]))]
    );
    server.set_keyboard_focus(None);
    events(&mut server, client);
    assert_eq!(server.inject_keyboard_key(4, RELEASED), None);
    assert!(events(&mut server, client).is_empty());
}

#[test]
fn the_close_shortcut_is_the_shells_until_the_key_is_let_go() {
    let mut server = Server::with_framebuffer_size(100, 100, &keymaps());
    let desktop = shell(&mut server);
    ask(&mut server, desktop, MANAGER, 6, &words(&[10]));
    let client = app(&mut server);
    ask(&mut server, client, SEAT, 2, &words(&[KEYBOARD]));
    open(&mut server, client, 31, 10, 10, 0x11);
    let id = window(&server, client, 33);
    events(&mut server, client);
    events(&mut server, desktop);
    server.inject_keyboard_key(KEY_ALT_LEFT, PRESSED);
    events(&mut server, client);
    server.inject_keyboard_key(KEY_F4, PRESSED);
    assert_eq!(events(&mut server, desktop), vec![(MANAGER, 9, words(&[id]))]);
    server.inject_keyboard_key(KEY_F4, PRESSED);
    server.inject_keyboard_key(KEY_ALT_LEFT, RELEASED);
    assert_eq!(
        events(&mut server, client),
        vec![(KEYBOARD, 1, words(&[31, KEY_ALT_LEFT, RELEASED]))]
    );
    server.inject_keyboard_key(KEY_F4, RELEASED);
    assert!(events(&mut server, client).is_empty());
    assert!(events(&mut server, desktop).is_empty());
    // Without Alt the key is the window's.
    server.inject_keyboard_key(KEY_F4, PRESSED);
    assert_eq!(
        events(&mut server, client),
        vec![(KEYBOARD, 1, words(&[31, KEY_F4, PRESSED]))]
    );
}

#[test]
fn the_work_area_goes_with_the_shell_that_keeps_it() {
    let mut server = Server::with_framebuffer_size(100, 100, &keymaps());
    let first = shell(&mut server);
    let second = shell(&mut server);
    ask(&mut server, first, MANAGER, 6, &words(&[10]));
    ask(&mut server, second, MANAGER, 6, &words(&[30]));
    assert_eq!(server.work_area_height(), 70);
    server.disconnect(first);
    assert_eq!(server.work_area_height(), 70);
    server.disconnect(second);
    assert_eq!(server.work_area_height(), 100);
}

#[test]
fn places_for_shells_are_kept_apart() {
    let mut server = Server::new(&keymaps());
    for _ in 0..MAX_SERVER_ORDINARY_CLIENTS {
        server.try_accept().unwrap();
    }
    assert!(matches!(
        server.try_accept(),
        Err(ServerError::ClientLimitExceeded { attempted, limit })
            if attempted == MAX_SERVER_ORDINARY_CLIENTS + 1 && limit == MAX_SERVER_ORDINARY_CLIENTS
    ));
    for _ in 0..MAX_SERVER_SHELL_CLIENTS {
        server.try_accept_with_caps(CapSet::from_caps(&[Cap::Shell])).unwrap();
    }
    assert_eq!(server.client_count(), MAX_SERVER_CLIENTS);
    assert!(matches!(
        server.try_accept_with_caps(CapSet::from_caps(&[Cap::Shell])),
        Err(ServerError::ShellClientLimitExceeded { attempted: 3, limit: 2 })
    ));
}

#[test]
fn memory_for_shells_is_kept_back() {
    let mut server = Server::new(&keymaps());
    let ordinary = app(&mut server);
    let desktop = shell(&mut server);
    let reserved = SHELL_FULL_OUTPUT_POOL_BYTES * MAX_SERVER_SHELL_CLIENTS as u64;
    let left = MAX_SERVER_POOL_BYTES - reserved;
    ask(&mut server, ordinary, SHM, 1, &words(&[31, 64 * 1024 * 1024]));
    let rest = (left - 64 * 1024 * 1024) as u32;
    assert!(matches!(
        server.dispatch_request(ordinary, &message(SHM, 1, &words(&[33, rest + 1]))),
        Err(ServerError::Client(ClientError::ResourceLimitExceeded {
            resource: ClientResource::ServerPoolBytes,
            attempted,
            limit,
        })) if attempted == left + 1 && limit == left
    ));
    ask(&mut server, ordinary, SHM, 1, &words(&[33, rest]));
    assert_eq!(server.pool_bytes_len(), left);
    ask(&mut server, desktop, SHM, 1, &words(&[33, reserved as u32]));
    assert_eq!(server.pool_bytes_len(), MAX_SERVER_POOL_BYTES);
}

#[test]
fn windows_of_all_connections_are_limited() {
    let limits = ServerLimits { toplevels: 3, ..ServerLimits::default() };
    let mut server = Server::with_limits(50, 50, limits, &keymaps());
    let client = app(&mut server);
    open(&mut server, client, 31, 2, 2, 1);
    ask(&mut server, client, COMPOSITOR, 1, &words(&[41]));
    assert!(matches!(
        server.dispatch_request(client, &message(SHELL, 1, &words(&[43, 41]))),
        Err(ServerError::Client(ClientError::ResourceLimitExceeded {
            resource: ClientResource::ServerToplevels,
            attempted: 2,
            limit: 1,
        }))
    ));
    ask(&mut server, client, 33, 3, &[]);
    ask(&mut server, client, SHELL, 1, &words(&[43, 41]));
}

#[test]
fn messages_that_cannot_be_read_are_refused() {
    let mut server = Server::new(&keymaps());
    assert!(matches!(
        server.dispatch_request(ClientId(9), &message(1, 1, &words(&[3]))),
        Err(ServerError::NoSuchClient { id }) if id == ClientId(9)
    ));
    let client = server.accept();
    assert!(matches!(
        server.dispatch_request(client, &[1, 2, 3]),
        Err(ServerError::Wire(_))
    ));
}

#[test]
fn a_batch_composes_the_picture_once() {
    let mut server = Server::with_framebuffer_size(60, 60, &keymaps());
    let client = app(&mut server);
    open(&mut server, client, 31, 10, 10, 0x11);
    let before = server.scene_generation();
    server.begin_recomposition_batch();
    open(&mut server, client, 41, 10, 10, 0x22);
    open(&mut server, client, 51, 10, 10, 0x33);
    assert_eq!(server.scene_generation(), before);
    assert!(server.presentation_deferred());
    assert_eq!(pixel(&server, 33, 33), 0);
    assert!(server.finish_recomposition_batch());
    assert_eq!(server.scene_generation(), before + 1);
    assert_eq!(pixel(&server, 33, 33), 0x22);
    server.begin_recomposition_batch();
    assert!(!server.finish_recomposition_batch());
    assert_eq!(server.scene_generation(), before + 1);
}

#[test]
fn windows_of_one_process_get_numbers_of_their_own() {
    let mut server = Server::with_framebuffer_size(60, 60, &keymaps());
    let first = server.try_accept_with_credentials(CapSet::empty(), 77).unwrap();
    let second = server.try_accept_with_credentials(CapSet::empty(), 77).unwrap();
    let other = server.try_accept_with_credentials(CapSet::empty(), 78).unwrap();
    for client in [first, second, other] {
        prepare(&mut server, client);
        assert!(server.can_number_window(client));
        open(&mut server, client, 31, 2, 2, 1);
    }
    let ordinal = |server: &Server, client: ClientId| {
        server.client(client).unwrap().toplevel(ObjectId::new(33)).unwrap().ordinal
    };
    assert_eq!(ordinal(&server, first), 1);
    assert_eq!(ordinal(&server, second), 2);
    assert_eq!(ordinal(&server, other), 1);
}

#[test]
fn a_restore_hides_new_windows_and_puts_them_in_place() {
    let mut server = Server::with_framebuffer_size(100, 100, &keymaps());
    let desktop = shell(&mut server);
    let client = app(&mut server);
    ask(&mut server, desktop, MANAGER, 10, &words(&[5, 1000]));
    assert_eq!(server.restore_transaction_owner(), Some(desktop));
    assert_eq!(server.restore_poll_timeout_ms(), Some(1000));
    open(&mut server, client, 31, 10, 10, 0x11);
    let id = window(&server, client, 33);
    assert_eq!(pixel(&server, 0, 0), 0);
    assert_eq!(server.hit_test(1, 1), None);
    // While it is hidden its owner cannot move it about.
    ask(&mut server, client, 33, 5, &[]);
    assert!(!server.client(client).unwrap().toplevel(ObjectId::new(33)).unwrap().maximized);
    ask(&mut server, desktop, MANAGER, 11, &words(&[5, id, 200, 40, 20, 30, 0, 0]));
    let toplevel = server.client(client).unwrap().toplevel(ObjectId::new(33)).unwrap();
    assert_eq!((toplevel.x, toplevel.y), (80, 40));
    events(&mut server, desktop);
    // It has not taken the size yet, so the restore goes on.
    ask(&mut server, desktop, MANAGER, 12, &words(&[5, id]));
    assert_eq!(server.restore_transaction_owner(), Some(desktop));
    ask(&mut server, client, SHM, 1, &words(&[51, 2400]));
    ask(&mut server, client, 51, 1, &words(&[53, 0, 20, 30, 80, 0]));
    ask(&mut server, client, 31, 2, &words(&[53, 0, 0]));
    ask(&mut server, client, 31, 7, &[]);
    ask(&mut server, desktop, MANAGER, 12, &words(&[5, id]));
    assert_eq!(server.restore_transaction_owner(), None);
    assert_eq!(server.keyboard_focus(), Some((client, ObjectId::new(31))));
    assert!(server.hit_test(85, 45).is_some());
    let told = events(&mut server, desktop);
    assert_eq!(told.last().unwrap(), &(MANAGER, 8, words(&[5, 0, 1])));
}

#[test]
fn a_restore_that_takes_too_long_is_given_up() {
    let mut server = Server::with_framebuffer_size(100, 100, &keymaps());
    let desktop = shell(&mut server);
    let second = shell(&mut server);
    let client = app(&mut server);
    server.advance_monotonic_time(500);
    ask(&mut server, desktop, MANAGER, 10, &words(&[5, 1000]));
    ask(&mut server, second, MANAGER, 10, &words(&[6, 1000]));
    assert_eq!(events(&mut server, second).last().unwrap(), &(MANAGER, 8, words(&[6, 3, 0])));
    open(&mut server, client, 31, 10, 10, 0x11);
    events(&mut server, desktop);
    assert!(!server.advance_monotonic_time(1499));
    assert_eq!(server.restore_poll_timeout_ms(), Some(1));
    assert_eq!(server.hit_test(1, 1), None);
    assert!(server.advance_monotonic_time(1500));
    assert_eq!(server.restore_transaction_owner(), None);
    assert_eq!(pixel(&server, 0, 0), 0x11);
    assert!(server.hit_test(1, 1).is_some());
    assert_eq!(events(&mut server, desktop).last().unwrap(), &(MANAGER, 8, words(&[5, 2, 0])));
    assert!(!server.advance_monotonic_time(9000));
}

#[test]
fn a_restore_ends_with_the_shell_that_began_it() {
    let mut server = Server::with_framebuffer_size(100, 100, &keymaps());
    let desktop = shell(&mut server);
    let client = app(&mut server);
    ask(&mut server, desktop, MANAGER, 10, &words(&[5, 1000]));
    open(&mut server, client, 31, 10, 10, 0x11);
    server.disconnect(desktop);
    assert_eq!(server.restore_transaction_owner(), None);
    assert_eq!(pixel(&server, 0, 0), 0x11);
}

#[test]
fn a_shell_that_is_ready_gets_one_fence() {
    let mut server = Server::new(&keymaps());
    let desktop = shell(&mut server);
    ask(&mut server, desktop, MANAGER, 8, &[]);
    ask(&mut server, desktop, MANAGER, 8, &[]);
    assert_eq!(server.pending_present_fence_count(), 1);
    let mut schedule = PresentationSchedule::default();
    assert!(present_fences_require_local_turn(&server, &schedule));
    schedule.mark_frame_dirty();
    assert!(!present_fences_require_local_turn(&server, &schedule));
    assert!(schedule.take_ready(false));
    assert_eq!(server.take_pending_present_fence(), Some(1));
    assert_eq!(server.take_pending_present_fence(), None);
    assert!(!present_fences_require_local_turn(&server, &schedule));
}

#[test]
fn a_shell_that_follows_states_is_told_all_of_them() {
    let mut server = Server::with_framebuffer_size(100, 100, &keymaps());
    let desktop = shell(&mut server);
    let client = app(&mut server);
    open(&mut server, client, 31, 10, 20, 0x11);
    let id = window(&server, client, 33);
    events(&mut server, desktop);
    ask(&mut server, desktop, MANAGER, 9, &words(&[44]));
    let told = events(&mut server, desktop);
    assert_eq!(told.len(), 3);
    assert_eq!((told[0].0, told[0].1), (MANAGER, 5));
    assert_eq!(told[0].2[..8], words(&[44, id])[..]);
    assert_eq!(told[1], (MANAGER, 3, words(&[id])));
    assert_eq!(told[2], (MANAGER, 7, words(&[44])));
}

#[test]
fn a_registry_is_told_of_the_globals() {
    let mut server = Server::new(&keymaps());
    let client = server.accept();
    assert!(server.serve_request(client, &message(1, 2, &words(&[21]))));
    let told = events(&mut server, client);
    let names: Vec<Vec<u8>> = told.iter().map(|event| event.2[8..].to_vec()).collect();
    assert_eq!(told.len(), 4);
    assert!(told.iter().all(|event| event.0 == 21 && event.1 == 1));
    assert!(names[0].starts_with(b"pmd_compositor"));
    assert!(names[3].starts_with(b"pmd_seat"));
    let desktop = server.accept_with_caps(CapSet::from_caps(&[Cap::Shell]));
    server.serve_request(desktop, &message(1, 2, &words(&[21])));
    assert_eq!(events(&mut server, desktop).len(), 5);
}

#[test]
fn serving_says_whether_the_picture_changed() {
    let mut server = Server::with_framebuffer_size(50, 50, &keymaps());
    let client = app(&mut server);
    open(&mut server, client, 31, 4, 4, 1);
    assert!(server.serve_request(client, &message(31, 3, &words(&[0, 0, 1, 1]))));
    assert!(!server.serve_request(client, &message(31, 7, &[])));
}

#[test]
fn a_surface_that_was_a_window_is_not_drawn_as_background() {
    let mut server = Server::with_framebuffer_size(50, 50, &keymaps());
    let client = app(&mut server);
    open(&mut server, client, 31, 4, 4, 7);
    ask(&mut server, client, 33, 3, &[]);
    assert_eq!(pixel(&server, 0, 0), 0);
    ask(&mut server, client, 31, 2, &words(&[37, 0, 0]));
    ask(&mut server, client, 31, 7, &[]);
    assert_eq!(pixel(&server, 0, 0), 0);
    assert_eq!(server.window_z_order().len(), 0);
}

#[test]
fn callbacks_are_reported_to_connections_in_turn() {
    let mut server = Server::with_framebuffer_size(50, 50, &keymaps());
    let first = app(&mut server);
    let second = app(&mut server);
    for client in [first, second] {
        ask(&mut server, client, COMPOSITOR, 1, &words(&[31]));
        for callback in [41, 43] {
            ask(&mut server, client, 31, 4, &words(&[callback]));
        }
        ask(&mut server, client, 31, 7, &[]);
        events(&mut server, client);
    }
    server.mark_frame_callbacks_presented(5);
    assert_eq!(server.presented_frame_callback_count(), 4);
    let mut budget = 3;
    assert_eq!(server.drain_ready_frame_callback_lifecycle(&mut budget), 3);
    assert_eq!(budget, 0);
    assert_eq!(
        events(&mut server, first),
        vec![(41, 1, words(&[5])), (1, 2, words(&[41]))]
    );
    assert_eq!(events(&mut server, second).len(), 4);
    assert!(server.has_ready_frame_callback_lifecycle());
    let mut budget = 9;
    assert_eq!(server.drain_ready_frame_callback_lifecycle(&mut budget), 1);
    assert_eq!(budget, 8);
    assert_eq!(
        events(&mut server, first),
        vec![(43, 1, words(&[5])), (1, 2, words(&[43]))]
    );
}

#[test]
fn a_window_is_hit_where_its_toplevel_lies() {
    let mut server = Server::with_framebuffer_size(200, 100, &keymaps());
    let client = app(&mut server);
    open(&mut server, client, 31, 20, 10, 0x11);
    open(&mut server, client, 41, 20, 10, 0x22);
    ask(&mut server, client, 41, 2, &words(&[47, 7, 5]));
    ask(&mut server, client, 41, 7, &[]);
    assert_eq!(pixel(&server, 32 + 7, 32 + 5), 0x22);
    assert_eq!(pixel(&server, 32, 32), 0);
    let hit = |x: i32, y: i32| {
        server.hit_test(x, y).map(|h| (h.surface_id.raw(), h.local_x, h.local_y))
    };
    assert_eq!(hit(32, 32), Some((41, 0, 0)));
    assert_eq!(hit(51, 41), Some((41, 19, 9)));
    assert_eq!(hit(52, 41), None);
    assert_eq!(hit(51, 42), None);
    assert_eq!(hit(31, 32), None);
}

#[test]
fn what_connections_hold_is_counted_whatever_happens() {
    let limits = ServerLimits { pool_bytes: 400_000_000, ..ServerLimits::default() };
    let mut server = Server::with_limits(50, 50, limits, &keymaps());
    let check = |server: &Server, clients: &[ClientId]| {
        let held = |id: &ClientId| server.client(*id).map_or(0, |c| c.pool_bytes_len());
        let named = |id: &ClientId| server.client(*id).map_or(0, |c| c.toplevel_metadata_bytes_len());
        assert_eq!(server.pool_bytes_len(), clients.iter().map(held).sum::<u64>());
        assert_eq!(server.toplevel_metadata_bytes_len(), clients.iter().map(named).sum::<u64>());
        assert!(server.pool_bytes_len() <= limits.pool_bytes);
    };
    let first = app(&mut server);
    let second = app(&mut server);
    let clients = [first, second];
    check(&server, &clients);
    open(&mut server, first, 31, 4, 4, 1);
    open(&mut server, second, 31, 8, 8, 2);
    ask(&mut server, second, 33, 1, &text("a title"));
    assert_eq!(server.pool_bytes_len(), 64 + 256);
    assert_eq!(server.toplevel_metadata_bytes_len(), 7);
    check(&server, &clients);
    assert!(server.dispatch_request(first, &message(SHM, 1, &words(&[35, 64]))).is_err());
    assert!(server.dispatch_request(first, &message(99, 1, &[])).is_err());
    assert!(server.dispatch_request(first, &[1, 2, 3]).is_err());
    check(&server, &clients);
    assert_eq!(server.pool_bytes_len(), 64 + 256);
    server.disconnect(second);
    check(&server, &clients);
    assert_eq!((server.pool_bytes_len(), server.toplevel_metadata_bytes_len()), (64, 0));
    server.disconnect(first);
    check(&server, &clients);
    assert_eq!(server.pool_bytes_len(), 0);
}

#[test]
fn any_request_can_be_served_while_numbers_are_left() {
    let mut server = Server::with_framebuffer_size(50, 50, &keymaps());
    let client = app(&mut server);
    assert!(server.can_serve(client, &[]));
    assert!(server.can_serve(client, &message(COMPOSITOR, 1, &words(&[31]))));
    assert!(server.can_serve(client, &message(SHELL, 1, &words(&[33, 31]))));
    assert!(server.can_serve(ClientId(99), &message(SHELL, 1, &words(&[33, 31]))));
}

#[test]
fn limits_without_end_are_counted_too() {
    let limits = ServerLimits {
        clients: usize::MAX,
        shell_clients: 0,
        pool_bytes: u64::MAX,
        toplevels: usize::MAX,
        client_toplevel_metadata_bytes: u64::MAX,
        toplevel_metadata_bytes: u64::MAX,
    };
    let mut server = Server::with_limits(50, 50, limits, &keymaps());
    let first = app(&mut server);
    let second = app(&mut server);
    open(&mut server, first, 31, 4, 4, 1);
    open(&mut server, second, 31, 8, 8, 2);
    ask(&mut server, first, 33, 1, &text("one"));
    ask(&mut server, second, 33, 1, &text("three"));
    assert_eq!((server.pool_bytes_len(), server.toplevel_metadata_bytes_len()), (320, 8));
    assert!(server.dispatch_request(first, &message(SHM, 1, &words(&[91, u32::MAX]))).is_err());
    server.disconnect(first);
    assert_eq!((server.pool_bytes_len(), server.toplevel_metadata_bytes_len()), (256, 5));
}

#[test]
fn errors_of_the_layers_below_are_passed_on() {
    let wire = WireError::PayloadTooLarge { payload: 70_000 };
    let unknown = ClientError::UnknownObject { id: ObjectId::new(9) };
    assert_eq!(ServerError::from(wire.clone()), ServerError::Wire(wire.clone()));
    assert_eq!(ServerError::from(unknown.clone()), ServerError::Client(unknown));
    assert_eq!(ClientError::from(wire.clone()), ClientError::EncodeFailed(wire));
}
