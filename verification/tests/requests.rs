use display_server::client::{FrameCallbackCompletion, ServerResourceBudgets};
use display_server::{
    BufferInfo, Cap, CapSet, Client, ClientError, ClientId, ClientLimits, ClientResource,
    Interface, MessageHeader, ObjectId, HEADER_SIZE, MAX_JOURNAL_ENTRIES, MAX_POOL_SIZE,
};
use display_server::requests::{DecodeError, ShmCreatePool, MAX_SURFACE_PATCH_BYTES};

const COMPOSITOR: u32 = 3;
const SHM: u32 = 5;
const SHELL: u32 = 7;
const SEAT: u32 = 9;
const POOL: u32 = 11;
const BUFFER: u32 = 13;
const SURFACE: u32 = 15;
const TOPLEVEL: u32 = 17;
const OTHER: u32 = 19;
const SECOND: u32 = 21;
const THIRD: u32 = 23;
const MANAGER: u32 = 25;

fn words(values: &[u32]) -> Vec<u8> {
    let mut payload = Vec::new();
    for value in values {
        payload.extend_from_slice(&value.to_le_bytes());
    }
    payload
}

fn text(value: &str) -> Vec<u8> {
    let mut payload = words(&[value.len() as u32]);
    payload.extend_from_slice(value.as_bytes());
    while payload.len() % 4 != 0 {
        payload.push(0);
    }
    payload
}

fn ask(client: &mut Client, object: u32, opcode: u16, payload: &[u8]) -> Result<(), ClientError> {
    let header = MessageHeader::try_new(ObjectId::new(object), opcode, payload.len(), 0).unwrap();
    client.dispatch_request(header, payload)
}

fn client_with(limits: ClientLimits) -> Client {
    let mut client = Client::new_with_caps_and_limits(ClientId(1), CapSet::empty(), limits);
    for (id, interface) in [
        (COMPOSITOR, Interface::Compositor),
        (SHM, Interface::Shm),
        (SHELL, Interface::XdgShell),
        (SEAT, Interface::Seat),
    ] {
        client.install_client_object(ObjectId::new(id), interface).unwrap();
    }
    client
}

/// A connection with a pool of 256 bytes, a 4 by 4 buffer in it and a surface.
fn prepared() -> Client {
    let mut client = client_with(ClientLimits::default());
    ask(&mut client, SHM, 1, &words(&[POOL, 256])).unwrap();
    ask(&mut client, POOL, 1, &words(&[BUFFER, 0, 4, 4, 16, 0])).unwrap();
    ask(&mut client, COMPOSITOR, 1, &words(&[SURFACE])).unwrap();
    client
}

/// The same, with the buffer shown.
fn showing() -> Client {
    let mut client = prepared();
    ask(&mut client, SURFACE, 2, &words(&[BUFFER, 0, 0])).unwrap();
    ask(&mut client, SURFACE, 7, &[]).unwrap();
    client
}

fn event(object: u32, opcode: u16, payload: &[u8]) -> Vec<u8> {
    let mut bytes = vec![0u8; HEADER_SIZE];
    MessageHeader::try_new(ObjectId::new(object), opcode, payload.len(), 0)
        .unwrap()
        .encode(&mut bytes)
        .unwrap();
    bytes.extend_from_slice(payload);
    bytes
}

#[test]
fn a_request_of_an_object_that_is_not_there_is_refused() {
    let mut client = Client::new(ClientId(1));
    assert!(matches!(
        ask(&mut client, 99, 1, &[]),
        Err(ClientError::UnknownObject { id }) if id == ObjectId::new(99)
    ));
}

#[test]
fn an_opcode_that_is_none_or_an_event_is_refused() {
    let mut client = prepared();
    assert!(matches!(
        ask(&mut client, SURFACE, 99, &[]),
        Err(ClientError::UnknownOpcode { interface: Interface::Surface, opcode: 99 })
    ));
    assert!(matches!(
        ask(&mut client, TOPLEVEL, 1, &[]),
        Err(ClientError::UnknownObject { .. })
    ));
    client
        .install_client_object(ObjectId::new(TOPLEVEL), Interface::Pointer)
        .unwrap();
    assert!(matches!(
        ask(&mut client, TOPLEVEL, 1, &[]),
        Err(ClientError::WrongDirection { interface: Interface::Pointer, opcode: 1 })
    ));
}

#[test]
fn a_new_object_needs_a_free_name_of_the_client() {
    let mut client = prepared();
    assert!(matches!(
        ask(&mut client, COMPOSITOR, 1, &words(&[SURFACE])),
        Err(ClientError::DuplicateObject { id }) if id == ObjectId::new(SURFACE)
    ));
    assert!(matches!(
        ask(&mut client, COMPOSITOR, 1, &words(&[4])),
        Err(ClientError::IllegalBindTarget { requested }) if requested == ObjectId::new(4)
    ));
    assert!(matches!(
        ask(&mut client, COMPOSITOR, 1, &words(&[0])),
        Err(ClientError::IllegalBindTarget { .. })
    ));
}

#[test]
fn a_payload_of_the_wrong_size_is_malformed() {
    let mut client = prepared();
    assert!(matches!(
        ask(&mut client, COMPOSITOR, 1, &[1, 2]),
        Err(ClientError::Malformed {
            interface: Interface::Compositor,
            opcode: 1,
            error: DecodeError::Truncated,
        })
    ));
    assert!(matches!(
        ask(&mut client, SURFACE, 2, &words(&[BUFFER, 0, 0, 0])),
        Err(ClientError::Malformed {
            interface: Interface::Surface,
            opcode: 2,
            error: DecodeError::TrailingBytes,
        })
    ));
}

#[test]
fn binding_needs_a_known_name_and_the_capability() {
    let mut client = Client::new(ClientId(1));
    ask(&mut client, 1, 2, &words(&[27])).unwrap();
    let mut payload = words(&[1]);
    payload.extend(text("pmd_nothing"));
    payload.extend(words(&[1, 29]));
    assert!(matches!(
        ask(&mut client, 27, 1, &payload),
        Err(ClientError::UnknownInterfaceName { name }) if name == "pmd_nothing"
    ));
    let mut payload = words(&[5]);
    payload.extend(text("pmd_shell_manager"));
    payload.extend(words(&[2, MANAGER]));
    client.drain_pending_events();
    assert!(matches!(
        ask(&mut client, 27, 1, &payload),
        Err(ClientError::PermissionDenied {
            interface: Interface::ShellManager,
            required: Cap::Shell,
            new_id,
        }) if new_id == ObjectId::new(MANAGER)
    ));
    let mut told = words(&[MANAGER, 3]);
    told.extend(text("permission denied: pmd_shell_manager requires Cap::Shell"));
    assert_eq!(client.drain_pending_events(), event(1, 1, &told));
    assert_eq!(client.get(ObjectId::new(MANAGER)), None);

    let mut shell = Client::new_with_caps(ClientId(2), CapSet::from_caps(&[Cap::Shell]));
    ask(&mut shell, 1, 2, &words(&[27])).unwrap();
    ask(&mut shell, 27, 1, &payload).unwrap();
    assert_eq!(shell.get(ObjectId::new(MANAGER)), Some(Interface::ShellManager));
}

#[test]
fn a_sync_is_answered_and_its_name_given_back() {
    let mut client = Client::new(ClientId(1));
    ask(&mut client, 1, 1, &words(&[33])).unwrap();
    let mut expected = event(33, 1, &words(&[0]));
    expected.extend(event(1, 2, &words(&[33])));
    assert_eq!(client.drain_pending_events(), expected);
    assert_eq!(client.get(ObjectId::new(33)), None);
    ask(&mut client, 1, 1, &words(&[33])).unwrap();
}

#[test]
fn a_pool_has_a_largest_size_and_counts_its_bytes() {
    let mut client = client_with(ClientLimits { pool_bytes: 300, ..ClientLimits::default() });
    assert!(matches!(
        ask(&mut client, SHM, 1, &words(&[POOL, MAX_POOL_SIZE + 1])),
        Err(ClientError::PoolTooLarge { requested, max })
            if requested == MAX_POOL_SIZE + 1 && max == MAX_POOL_SIZE
    ));
    let mut told = words(&[SHM, 4]);
    told.extend(text("resource limit exceeded: PoolBytes requested=67108865 max=67108864"));
    assert_eq!(client.drain_pending_events(), event(1, 1, &told));
    ask(&mut client, SHM, 1, &words(&[POOL, 256])).unwrap();
    assert_eq!(client.pool_bytes_len(), 256);
    assert!(matches!(
        ask(&mut client, SHM, 1, &words(&[OTHER, 45])),
        Err(ClientError::ResourceLimitExceeded {
            resource: ClientResource::PoolBytes,
            attempted: 301,
            limit: 300,
        })
    ));
    let mut told = words(&[SHM, 4]);
    told.extend(text("resource limit exceeded: PoolBytes attempted=301 limit=300"));
    assert_eq!(client.drain_pending_events(), event(1, 1, &told));
    ask(&mut client, POOL, 2, &words(&[300])).unwrap();
    assert_eq!(client.pool_bytes_len(), 300);
    assert_eq!(client.pool_bytes(ObjectId::new(POOL)).unwrap().len(), 300);
    ask(&mut client, POOL, 3, &[]).unwrap();
    assert_eq!(client.pool_bytes_len(), 0);
}

#[test]
fn limits_refuse_one_more_of_each_resource() {
    let tight = ClientLimits {
        objects: 6,
        pools: 0,
        buffers: 0,
        surfaces: 0,
        toplevels: 0,
        ..ClientLimits::default()
    };
    let mut client = client_with(tight);
    let refused = |r: Result<(), ClientError>, wanted: ClientResource| {
        matches!(r, Err(ClientError::ResourceLimitExceeded { resource, .. }) if resource == wanted)
    };
    assert!(refused(ask(&mut client, SHM, 1, &words(&[POOL, 4])), ClientResource::Pools));
    assert!(refused(
        ask(&mut client, COMPOSITOR, 1, &words(&[SURFACE])),
        ClientResource::Surfaces
    ));
    ask(&mut client, SEAT, 1, &words(&[OTHER])).unwrap();
    assert!(refused(
        ask(&mut client, SEAT, 2, &words(&[SECOND])),
        ClientResource::Objects
    ));

    let mut client = client_with(ClientLimits {
        buffers: 0,
        toplevels: 0,
        ..ClientLimits::default()
    });
    ask(&mut client, SHM, 1, &words(&[POOL, 256])).unwrap();
    assert!(refused(
        ask(&mut client, POOL, 1, &words(&[BUFFER, 0, 4, 4, 16, 0])),
        ClientResource::Buffers
    ));
    ask(&mut client, COMPOSITOR, 1, &words(&[SURFACE])).unwrap();
    assert!(refused(
        ask(&mut client, SHELL, 1, &words(&[TOPLEVEL, SURFACE])),
        ClientResource::Toplevels
    ));
}

#[test]
fn budgets_of_all_connections_refuse_too() {
    let mut client = prepared();
    let budgets = ServerResourceBudgets {
        pool_bytes: 1000,
        pool_byte_limit: 1003,
        toplevels: 4,
        toplevel_limit: 4,
        toplevel_metadata_bytes: 10,
        toplevel_metadata_byte_limit: 12,
    };
    let mut ask_within = |object: u32, opcode: u16, payload: &[u8]| {
        let header =
            MessageHeader::try_new(ObjectId::new(object), opcode, payload.len(), 0).unwrap();
        client.dispatch_request_with_server_budgets(header, payload, budgets)
    };
    assert!(matches!(
        ask_within(SHM, 1, &words(&[OTHER, 4])),
        Err(ClientError::ResourceLimitExceeded {
            resource: ClientResource::ServerPoolBytes,
            attempted: 1004,
            limit: 1003,
        })
    ));
    assert!(matches!(
        ask_within(SHELL, 1, &words(&[TOPLEVEL, SURFACE])),
        Err(ClientError::ResourceLimitExceeded {
            resource: ClientResource::ServerToplevels,
            attempted: 5,
            limit: 4,
        })
    ));
    let roomy = ServerResourceBudgets { toplevel_limit: 5, ..budgets };
    let payload = words(&[TOPLEVEL, SURFACE]);
    let header = MessageHeader::try_new(ObjectId::new(SHELL), 1, payload.len(), 0).unwrap();
    client.dispatch_request_with_server_budgets(header, &payload, roomy).unwrap();
    let title = text("abc");
    let header = MessageHeader::try_new(ObjectId::new(TOPLEVEL), 1, title.len(), 0).unwrap();
    assert!(matches!(
        client.dispatch_request_with_server_budgets(header, &title, roomy),
        Err(ClientError::ResourceLimitExceeded {
            resource: ClientResource::ServerToplevelMetadataBytes,
            attempted: 13,
            limit: 12,
        })
    ));
}

#[test]
fn texts_of_windows_are_counted_and_limited() {
    let mut client =
        client_with(ClientLimits { toplevel_metadata_bytes: 8, ..ClientLimits::default() });
    ask(&mut client, COMPOSITOR, 1, &words(&[SURFACE])).unwrap();
    ask(&mut client, SHELL, 1, &words(&[TOPLEVEL, SURFACE])).unwrap();
    ask(&mut client, TOPLEVEL, 1, &text("Fünf")).unwrap();
    assert_eq!(client.toplevel_metadata_bytes_len(), 5);
    assert_eq!(client.toplevel(ObjectId::new(TOPLEVEL)).unwrap().title, "Fünf");
    assert!(matches!(
        ask(&mut client, TOPLEVEL, 2, &text("four")),
        Err(ClientError::ResourceLimitExceeded {
            resource: ClientResource::ToplevelMetadataBytes,
            attempted: 9,
            limit: 8,
        })
    ));
    ask(&mut client, TOPLEVEL, 2, &text("abc")).unwrap();
    ask(&mut client, TOPLEVEL, 1, &text("x")).unwrap();
    assert_eq!(client.toplevel_metadata_bytes_len(), 4);
    let long = "y".repeat(880);
    assert!(matches!(
        ask(&mut client, TOPLEVEL, 1, &text(&long)),
        Err(ClientError::ResourceLimitExceeded {
            resource: ClientResource::ToplevelMetadataBytesPerWindow,
            attempted: 883,
            limit: 880,
        })
    ));
    let mut broken = words(&[2]);
    broken.extend_from_slice(&[0xc3, 0x28, 0, 0]);
    assert!(matches!(
        ask(&mut client, TOPLEVEL, 1, &broken),
        Err(ClientError::Malformed {
            interface: Interface::XdgToplevel,
            opcode: 1,
            error: DecodeError::InvalidText,
        })
    ));
    assert_eq!(client.toplevel(ObjectId::new(TOPLEVEL)).unwrap().title, "x");
    assert_eq!(client.toplevel(ObjectId::new(TOPLEVEL)).unwrap().app_id, "abc");
}

#[test]
fn a_buffer_lies_inside_its_pool() {
    let mut client = prepared();
    assert!(matches!(
        ask(&mut client, POOL, 1, &words(&[OTHER, 200, 4, 4, 16, 0])),
        Err(ClientError::BufferOutOfPool { pool_id, pool_size: 256, byte_end: 264 })
            if pool_id == ObjectId::new(POOL)
    ));
    assert_eq!(
        client.buffer_info(ObjectId::new(BUFFER)),
        Some(&BufferInfo {
            pool_id: ObjectId::new(POOL),
            offset: 0,
            width: 4,
            height: 4,
            stride: 16,
            format: 0,
        })
    );
    assert_eq!(client.buffer_info(ObjectId::new(BUFFER)).unwrap().byte_end(), 64);
    assert!(matches!(
        ask(&mut client, POOL, 2, &words(&[63])),
        Err(ClientError::PoolResizeWouldTruncateBuffer { requested: 63, required: 64, .. })
    ));
    ask(&mut client, POOL, 2, &words(&[64])).unwrap();
}

#[test]
fn a_pool_without_memory_is_unknown() {
    let mut client = client_with(ClientLimits::default());
    client
        .install_client_object(ObjectId::new(POOL), Interface::ShmPool)
        .unwrap();
    assert!(matches!(
        ask(&mut client, POOL, 2, &words(&[4])),
        Err(ClientError::UnknownPool { pool_id }) if pool_id == ObjectId::new(POOL)
    ));
}

#[test]
fn writes_into_a_pool_land_where_they_are_meant() {
    let mut client = prepared();
    let mut payload = words(&[2]);
    payload.extend_from_slice(&[7, 8, 9]);
    ask(&mut client, POOL, 4, &payload).unwrap();
    assert_eq!(&client.pool_bytes(ObjectId::new(POOL)).unwrap()[..6], &[0, 0, 7, 8, 9, 0]);
    let mut payload = words(&[8, 2, 2, 4]);
    payload.extend_from_slice(&[1, 2, 3, 4]);
    ask(&mut client, POOL, 5, &payload).unwrap();
    assert_eq!(
        &client.pool_bytes(ObjectId::new(POOL)).unwrap()[8..16],
        &[1, 2, 0, 0, 3, 4, 0, 0]
    );
    let mut payload = words(&[8, 4, 2, 3]);
    payload.extend_from_slice(&[0; 8]);
    assert!(matches!(
        ask(&mut client, POOL, 5, &payload),
        Err(ClientError::InvalidPoolWriteRows { row_bytes: 4, rows: 2, stride: 3 })
    ));
}

#[test]
fn what_is_shown_cannot_be_written_over() {
    let mut client = showing();
    let mut payload = words(&[60]);
    payload.extend_from_slice(&[1, 1, 1, 1, 1]);
    assert!(matches!(
        ask(&mut client, POOL, 4, &payload),
        Err(ClientError::PoolWriteIntersectsCurrentBuffer { pool_id, surface_id, buffer_id })
            if pool_id == ObjectId::new(POOL)
                && surface_id == ObjectId::new(SURFACE)
                && buffer_id == ObjectId::new(BUFFER)
    ));
    assert_eq!(client.pool_bytes(ObjectId::new(POOL)).unwrap()[60], 0);
    let mut payload = words(&[64]);
    payload.extend_from_slice(&[5]);
    ask(&mut client, POOL, 4, &payload).unwrap();
    assert_eq!(client.pool_bytes(ObjectId::new(POOL)).unwrap()[64], 5);
}

#[test]
fn attaching_needs_a_buffer_and_a_surface() {
    let mut client = prepared();
    assert!(matches!(
        ask(&mut client, SURFACE, 2, &words(&[OTHER, 0, 0])),
        Err(ClientError::UnknownBuffer { buffer_id }) if buffer_id == ObjectId::new(OTHER)
    ));
    client
        .install_client_object(ObjectId::new(OTHER), Interface::Surface)
        .unwrap();
    assert!(matches!(
        ask(&mut client, OTHER, 2, &words(&[BUFFER, 0, 0])),
        Err(ClientError::UnknownSurface { surface_id }) if surface_id == ObjectId::new(OTHER)
    ));
    assert!(matches!(
        ask(&mut client, OTHER, 7, &[]),
        Err(ClientError::UnknownSurface { .. })
    ));
}

#[test]
fn two_surfaces_never_show_the_same_bytes() {
    let mut client = showing();
    ask(&mut client, COMPOSITOR, 1, &words(&[OTHER])).unwrap();
    ask(&mut client, POOL, 1, &words(&[SECOND, 32, 4, 4, 16, 0])).unwrap();
    ask(&mut client, OTHER, 2, &words(&[SECOND, 0, 0])).unwrap();
    assert!(matches!(
        ask(&mut client, OTHER, 7, &[]),
        Err(ClientError::SurfaceCommitAliasedBuffer {
            surface_id,
            buffer_id,
            conflicting_surface_id,
            conflicting_buffer_id,
        }) if surface_id == ObjectId::new(OTHER)
            && buffer_id == ObjectId::new(SECOND)
            && conflicting_surface_id == ObjectId::new(SURFACE)
            && conflicting_buffer_id == ObjectId::new(BUFFER)
    ));
    assert!(client.surface(ObjectId::new(OTHER)).unwrap().current_buffer.is_none());
    ask(&mut client, POOL, 1, &words(&[THIRD, 64, 4, 4, 16, 0])).unwrap();
    ask(&mut client, OTHER, 2, &words(&[THIRD, 0, 0])).unwrap();
    ask(&mut client, OTHER, 7, &[]).unwrap();
    assert!(client.surface(ObjectId::new(OTHER)).unwrap().current_buffer.is_some());
}

#[test]
fn a_replaced_buffer_is_released() {
    let mut client = showing();
    ask(&mut client, POOL, 1, &words(&[SECOND, 64, 4, 4, 16, 0])).unwrap();
    client.drain_pending_events();
    ask(&mut client, SURFACE, 2, &words(&[SECOND, 0, 0])).unwrap();
    ask(&mut client, SURFACE, 7, &[]).unwrap();
    assert_eq!(client.drain_pending_events(), event(BUFFER, 1, &[]));
    ask(&mut client, SURFACE, 2, &words(&[0, 0, 0])).unwrap();
    ask(&mut client, SURFACE, 7, &[]).unwrap();
    assert_eq!(client.drain_pending_events(), event(SECOND, 1, &[]));
    assert!(client.surface(ObjectId::new(SURFACE)).unwrap().current_buffer.is_none());
}

#[test]
fn a_destroyed_buffer_lives_on_while_it_is_shown() {
    let mut client = showing();
    ask(&mut client, BUFFER, 1, &[]).unwrap();
    ask(&mut client, POOL, 3, &[]).unwrap();
    assert!(client.buffer_bytes(ObjectId::new(BUFFER)).is_some());
    assert_eq!(client.pool_bytes_len(), 256);
    assert!(client.drain_pending_events().is_empty());
    // Its name is not free yet.
    assert!(matches!(
        ask(&mut client, COMPOSITOR, 1, &words(&[BUFFER])),
        Err(ClientError::DuplicateObject { .. })
    ));
    ask(&mut client, SURFACE, 2, &words(&[0, 0, 0])).unwrap();
    ask(&mut client, SURFACE, 7, &[]).unwrap();
    let mut expected = event(1, 2, &words(&[BUFFER]));
    expected.extend(event(1, 2, &words(&[POOL])));
    assert_eq!(client.drain_pending_events(), expected);
    assert_eq!(client.pool_bytes_len(), 0);
    ask(&mut client, COMPOSITOR, 1, &words(&[BUFFER])).unwrap();
}

fn patch(x: i32, y: i32, width: u32, height: u32, colour: u8) -> Vec<u8> {
    let mut payload = words(&[x as u32, y as u32, width, height]);
    payload.extend(vec![colour; (4 * width * height) as usize]);
    payload
}

#[test]
fn a_patch_changes_the_shown_buffer_in_place() {
    let mut client = showing();
    ask(&mut client, SURFACE, 8, &patch(1, 2, 2, 1, 9)).unwrap();
    let bytes = client.buffer_bytes(ObjectId::new(BUFFER)).unwrap();
    let mut expected = vec![0u8; 64];
    for i in 36..44 {
        expected[i] = 9;
    }
    assert_eq!(bytes, &expected[..]);
    assert_eq!(client.surface(ObjectId::new(SURFACE)).unwrap().commit_count, 2);
}

#[test]
fn a_patch_is_refused_where_it_cannot_be_right() {
    let mut client = prepared();
    assert!(matches!(
        ask(&mut client, SURFACE, 8, &patch(0, 0, 1, 1, 1)),
        Err(ClientError::SurfacePatchNoCurrentBuffer { .. })
    ));
    ask(&mut client, SURFACE, 3, &words(&[0, 0, 1, 1])).unwrap();
    assert!(matches!(
        ask(&mut client, SURFACE, 8, &patch(0, 0, 1, 1, 1)),
        Err(ClientError::SurfacePatchHasPendingState { .. })
    ));
    let mut client = showing();
    assert!(matches!(
        ask(&mut client, SURFACE, 8, &patch(3, 0, 2, 1, 1)),
        Err(ClientError::SurfacePatchInvalidGeometry {
            x: 3,
            y: 0,
            width: 2,
            height: 1,
            buffer_width: 4,
            buffer_height: 4,
        })
    ));
    let mut short = patch(0, 0, 2, 1, 1);
    short.pop();
    assert!(matches!(
        ask(&mut client, SURFACE, 8, &short),
        Err(ClientError::Malformed { interface: Interface::Surface, opcode: 8, .. })
    ));
    let big = vec![0u8; 16 + MAX_SURFACE_PATCH_BYTES + 4];
    assert!(matches!(
        ask(&mut client, SURFACE, 8, &big),
        Err(ClientError::SurfacePatchTooLarge { bytes: 32772, max: MAX_SURFACE_PATCH_BYTES })
    ));
    ask(&mut client, POOL, 1, &words(&[SECOND, 64, 4, 4, 16, 7])).unwrap();
    ask(&mut client, COMPOSITOR, 1, &words(&[OTHER])).unwrap();
    ask(&mut client, OTHER, 2, &words(&[SECOND, 0, 0])).unwrap();
    ask(&mut client, OTHER, 7, &[]).unwrap();
    assert!(matches!(
        ask(&mut client, OTHER, 8, &patch(0, 0, 1, 1, 1)),
        Err(ClientError::SurfacePatchUnsupportedFormat { format: 7, .. })
    ));
}

#[test]
fn damage_beyond_the_limit_is_folded_together() {
    let mut client =
        client_with(ClientLimits { damage_rects_per_surface: 2, ..ClientLimits::default() });
    ask(&mut client, COMPOSITOR, 1, &words(&[SURFACE])).unwrap();
    ask(&mut client, SURFACE, 3, &words(&[1, 1, 2, 2])).unwrap();
    ask(&mut client, SURFACE, 3, &words(&[8, 0, 1, 1])).unwrap();
    assert!(!client.surface(ObjectId::new(SURFACE)).unwrap().pending_damage_unprovable);
    ask(&mut client, SURFACE, 3, &words(&[0, 5, 3, 3])).unwrap();
    let surface = client.surface(ObjectId::new(SURFACE)).unwrap();
    assert!(surface.pending_damage_unprovable);
    assert_eq!(surface.pending_damage.len(), 1);
    let folded = surface.pending_damage[0];
    assert_eq!((folded.x, folded.y, folded.width, folded.height), (0, 0, 9, 8));
}

#[test]
fn a_surface_becomes_one_window_at_most() {
    let mut client = prepared();
    assert!(matches!(
        ask(&mut client, SHELL, 1, &words(&[TOPLEVEL, OTHER])),
        Err(ClientError::ToplevelSurfaceNotFound { surface_id })
            if surface_id == ObjectId::new(OTHER)
    ));
    ask(&mut client, SHELL, 1, &words(&[TOPLEVEL, SURFACE])).unwrap();
    assert!(matches!(
        ask(&mut client, SHELL, 1, &words(&[SECOND, SURFACE])),
        Err(ClientError::SurfaceAlreadyHasToplevel { existing_toplevel, .. })
            if existing_toplevel == ObjectId::new(TOPLEVEL)
    ));
    assert!(matches!(
        ask(&mut client, SURFACE, 1, &[]),
        Err(ClientError::SurfaceHasToplevel { surface_id, toplevel_id })
            if surface_id == ObjectId::new(SURFACE) && toplevel_id == ObjectId::new(TOPLEVEL)
    ));
    client
        .install_client_object(ObjectId::new(THIRD), Interface::XdgToplevel)
        .unwrap();
    assert!(matches!(
        ask(&mut client, THIRD, 5, &[]),
        Err(ClientError::UnknownToplevel { toplevel_id }) if toplevel_id == ObjectId::new(THIRD)
    ));
}

#[test]
fn a_seat_has_one_pointer_and_one_keyboard() {
    let mut client = prepared();
    ask(&mut client, SEAT, 1, &words(&[OTHER])).unwrap();
    assert!(matches!(
        ask(&mut client, SEAT, 1, &words(&[SECOND])),
        Err(ClientError::PointerAlreadyBound { existing }) if existing == ObjectId::new(OTHER)
    ));
    ask(&mut client, SEAT, 2, &words(&[SECOND])).unwrap();
    assert!(matches!(
        ask(&mut client, SEAT, 2, &words(&[THIRD])),
        Err(ClientError::KeyboardAlreadyBound { existing }) if existing == ObjectId::new(SECOND)
    ));
}

#[test]
fn a_full_queue_overflows_and_stays_so() {
    let mut client =
        client_with(ClientLimits { pending_events: 1, ..ClientLimits::default() });
    assert_eq!(client.emit_delete_id(ObjectId::new(SHM)).unwrap(), 14);
    assert!(matches!(
        client.emit_delete_id(ObjectId::new(SHM)),
        Err(ClientError::ResourceLimitExceeded {
            resource: ClientResource::PendingEvents,
            attempted: 2,
            limit: 1,
        })
    ));
    assert!(client.event_queue_overflowed());
    client.drain_pending_events();
    assert!(matches!(
        client.emit_delete_id(ObjectId::new(SHM)),
        Err(ClientError::EventQueueOverflowed)
    ));
    let mut client =
        client_with(ClientLimits { pending_event_bytes: 20, ..ClientLimits::default() });
    client.emit_delete_id(ObjectId::new(SHM)).unwrap();
    assert!(matches!(
        client.emit_delete_id(ObjectId::new(SHM)),
        Err(ClientError::ResourceLimitExceeded {
            resource: ClientResource::PendingEventBytes,
            attempted: 28,
            limit: 20,
        })
    ));
}

#[test]
fn an_event_that_does_not_fit_a_message_is_not_sent() {
    let mut client = prepared();
    let long = vec![0u8; 70_000];
    assert!(matches!(
        client.emit_raw(ObjectId::new(1), 1, &long),
        Err(ClientError::EncodeFailed(_))
    ));
    assert!(!client.event_queue_overflowed());
    assert_eq!(client.pending_events_len(), 0);
}

#[test]
fn whole_events_are_drained_in_order() {
    let mut client = prepared();
    client.drain_pending_events();
    client.emit_delete_id(ObjectId::new(41)).unwrap();
    client.emit_delete_id(ObjectId::new(43)).unwrap();
    client.emit_delete_id(ObjectId::new(45)).unwrap();
    assert_eq!(client.pending_event_bytes(), 42);
    assert_eq!(client.next_pending_event_bytes(), Some(14));
    let mut first = event(1, 2, &words(&[41]));
    first.extend(event(1, 2, &words(&[43])));
    assert_eq!(client.drain_pending_events_bounded(41), first);
    assert_eq!(client.drain_pending_events_bounded(13), Vec::<u8>::new());
    assert_eq!(client.drain_pending_events(), event(1, 2, &words(&[45])));
    assert_eq!(client.next_pending_event_bytes(), None);
}

#[test]
fn a_newer_title_takes_the_place_of_a_queued_one() {
    let mut client = prepared();
    client
        .install_client_object(ObjectId::new(MANAGER), Interface::ShellManager)
        .unwrap();
    client.drain_pending_events();
    client.emit_window_title_changed(ObjectId::new(MANAGER), 3, "old").unwrap();
    client.emit_window_focused(ObjectId::new(MANAGER), 3).unwrap();
    client.emit_window_title_changed(ObjectId::new(MANAGER), 3, "newer").unwrap();
    client.emit_window_title_changed(ObjectId::new(MANAGER), 4, "other").unwrap();
    let titled = |id: u32, title: &str| {
        let mut payload = words(&[id]);
        payload.extend(text(title));
        event(MANAGER, 4, &payload)
    };
    let mut expected = titled(3, "newer");
    expected.extend(event(MANAGER, 3, &words(&[3])));
    expected.extend(titled(4, "other"));
    assert_eq!(client.drain_pending_events(), expected);
}

#[test]
fn frame_callbacks_fire_once_their_picture_is_shown() {
    let mut client = showing();
    client.drain_pending_events();
    ask(&mut client, SURFACE, 4, &words(&[OTHER])).unwrap();
    assert_eq!(client.pending_frame_callback_count(), 1);
    ask(&mut client, SURFACE, 7, &[]).unwrap();
    assert_eq!(client.awaiting_present_frame_callback_count(), 1);
    assert_eq!(
        client.try_complete_ready_frame_callback_lifecycle(),
        FrameCallbackCompletion::Empty
    );
    client.mark_frame_callbacks_presented(77);
    assert_eq!(client.presented_frame_callback_count(), 1);
    assert_eq!(
        client.try_complete_ready_frame_callback_lifecycle(),
        FrameCallbackCompletion::Completed
    );
    let mut expected = event(OTHER, 1, &words(&[77]));
    expected.extend(event(1, 2, &words(&[OTHER])));
    assert_eq!(client.drain_pending_events(), expected);
    assert_eq!(client.get(ObjectId::new(OTHER)), None);
}

#[test]
fn callbacks_of_a_destroyed_surface_are_cancelled() {
    let mut client = prepared();
    ask(&mut client, SURFACE, 4, &words(&[OTHER])).unwrap();
    ask(&mut client, SURFACE, 7, &[]).unwrap();
    ask(&mut client, SURFACE, 4, &words(&[SECOND])).unwrap();
    client.drain_pending_events();
    ask(&mut client, SURFACE, 1, &[]).unwrap();
    assert_eq!(client.cancelled_frame_callback_lifecycle_count(), 3);
    for _ in 0..3 {
        assert_eq!(
            client.try_complete_ready_frame_callback_lifecycle(),
            FrameCallbackCompletion::Completed
        );
    }
    assert_eq!(
        client.try_complete_ready_frame_callback_lifecycle(),
        FrameCallbackCompletion::Empty
    );
    let mut expected = event(1, 2, &words(&[OTHER]));
    expected.extend(event(1, 2, &words(&[SECOND])));
    expected.extend(event(1, 2, &words(&[SURFACE])));
    assert_eq!(client.drain_pending_events(), expected);
}

#[test]
fn a_full_queue_blocks_callbacks_without_losing_them() {
    let mut client = client_with(ClientLimits { pending_events: 2, ..ClientLimits::default() });
    ask(&mut client, COMPOSITOR, 1, &words(&[SURFACE])).unwrap();
    ask(&mut client, SURFACE, 4, &words(&[OTHER])).unwrap();
    ask(&mut client, SURFACE, 7, &[]).unwrap();
    client.mark_frame_callbacks_presented(1);
    client.emit_delete_id(ObjectId::new(99)).unwrap();
    assert!(client.has_ready_frame_callback_lifecycle());
    assert!(!client.ready_frame_callback_lifecycle_can_progress());
    assert_eq!(
        client.try_complete_ready_frame_callback_lifecycle(),
        FrameCallbackCompletion::Blocked
    );
    assert!(!client.event_queue_overflowed());
    client.drain_pending_events();
    assert_eq!(
        client.try_complete_ready_frame_callback_lifecycle(),
        FrameCallbackCompletion::Completed
    );
}

#[test]
fn the_journal_keeps_the_newest_requests() {
    let mut client = prepared();
    client.drain_journal();
    for _ in 0..MAX_JOURNAL_ENTRIES {
        ask(&mut client, SURFACE, 3, &words(&[0, 0, 1, 1])).unwrap();
    }
    ask(&mut client, SURFACE, 7, &[]).unwrap();
    assert_eq!(client.journal_len(), MAX_JOURNAL_ENTRIES);
    let journal = client.drain_journal();
    let last = &journal[MAX_JOURNAL_ENTRIES - 1];
    assert_eq!((last.opcode, last.opcode_name, last.payload_len), (7, "commit", 0));
    assert_eq!((journal[0].opcode, journal[0].payload_len), (3, 16));
    assert_eq!(client.journal_len(), 0);
}

#[test]
fn a_refused_request_leaves_no_trace_in_the_journal() {
    let mut client = prepared();
    client.drain_journal();
    assert!(ask(&mut client, POOL, 1, &words(&[OTHER, 255, 4, 4, 16, 0])).is_err());
    assert_eq!(client.journal_len(), 0);
    assert_eq!(client.get(ObjectId::new(OTHER)), None);
    ask(&mut client, POOL, 1, &words(&[OTHER, 128, 4, 4, 16, 0])).unwrap();
}

#[test]
fn server_names_are_even_and_never_reused() {
    let mut client = Client::new(ClientId(1));
    let first = client.install_server_object(Interface::Callback).unwrap();
    assert_eq!(first, ObjectId::new(2));
    assert!(client.drop_object(first));
    assert!(!client.drop_object(first));
    assert_eq!(
        client.install_server_object(Interface::Callback).unwrap(),
        ObjectId::new(4)
    );
}

#[test]
fn configure_serials_count_up_from_one() {
    let mut client = Client::new(ClientId(1));
    assert_eq!(client.next_configure_serial(), 1);
    assert_eq!(client.next_configure_serial(), 2);
}

#[test]
fn backing_that_is_gone_is_noticed() {
    let mut client = showing();
    ask(&mut client, POOL, 1, &words(&[SECOND, 64, 4, 4, 4, 0])).unwrap();
    ask(&mut client, COMPOSITOR, 1, &words(&[OTHER])).unwrap();
    ask(&mut client, OTHER, 2, &words(&[SECOND, 0, 0])).unwrap();
    ask(&mut client, OTHER, 7, &[]).unwrap();
    assert!(matches!(
        ask(&mut client, OTHER, 8, &patch(0, 0, 1, 1, 1)),
        Err(ClientError::SurfacePatchInvalidBacking { buffer_id, pool_id })
            if buffer_id == ObjectId::new(SECOND) && pool_id == ObjectId::new(POOL)
    ));
    // What another surface shows is no longer there.
    client.buffers.remove(ObjectId::new(SECOND));
    assert!(matches!(
        ask(&mut client, SURFACE, 8, &patch(0, 0, 1, 1, 1)),
        Err(ClientError::SurfacePatchInvalidAliasBacking { other_surface_id, buffer_id })
            if other_surface_id == ObjectId::new(OTHER) && buffer_id == ObjectId::new(SECOND)
    ));
    let mut payload = words(&[200]);
    payload.push(1);
    assert!(matches!(
        ask(&mut client, POOL, 4, &payload),
        Err(ClientError::PoolWriteInvalidCurrentBacking { surface_id, buffer_id })
            if surface_id == ObjectId::new(OTHER) && buffer_id == ObjectId::new(SECOND)
    ));
    ask(&mut client, SURFACE, 2, &words(&[BUFFER, 0, 0])).unwrap();
    assert!(matches!(
        ask(&mut client, SURFACE, 7, &[]),
        Err(ClientError::SurfaceCommitInvalidBacking { surface_id, buffer_id })
            if surface_id == ObjectId::new(OTHER) && buffer_id == ObjectId::new(SECOND)
    ));
}

#[test]
fn a_patch_never_reaches_what_another_surface_shows() {
    let mut client = showing();
    ask(&mut client, POOL, 1, &words(&[SECOND, 64, 4, 4, 16, 0])).unwrap();
    ask(&mut client, COMPOSITOR, 1, &words(&[OTHER])).unwrap();
    ask(&mut client, OTHER, 2, &words(&[SECOND, 0, 0])).unwrap();
    ask(&mut client, OTHER, 7, &[]).unwrap();
    let overlapping = BufferInfo {
        offset: 32,
        ..*client.buffer_info(ObjectId::new(SECOND)).unwrap()
    };
    client.buffers.insert(ObjectId::new(SECOND), overlapping);
    ask(&mut client, SURFACE, 8, &patch(0, 0, 4, 2, 1)).unwrap();
    assert!(matches!(
        ask(&mut client, SURFACE, 8, &patch(0, 1, 1, 2, 1)),
        Err(ClientError::SurfacePatchAliasedCurrentBuffer { surface_id, other_surface_id })
            if surface_id == ObjectId::new(SURFACE) && other_surface_id == ObjectId::new(OTHER)
    ));
}

#[test]
fn memory_that_cannot_be_had_is_refused() {
    let mut client = Client::new(ClientId(1));
    let asked = ShmCreatePool { new_id: ObjectId::new(5), size: 8 };
    assert_eq!(
        client.install_pool(asked, None),
        Err(ClientError::PoolAllocationFailed { requested: 8 })
    );
    assert!(client.pool(ObjectId::new(5)).is_none());
    assert_eq!(client.install_pool(asked, Some(vec![7; 8])), Ok(()));
    assert_eq!(client.pool_bytes(ObjectId::new(5)).unwrap(), &[7; 8]);
    assert_eq!(
        client.set_pool_size(ObjectId::new(5), 16, false),
        Err(ClientError::PoolAllocationFailed { requested: 16 })
    );
    assert_eq!(client.pool_bytes_len(), 8);
    assert_eq!(client.set_pool_size(ObjectId::new(5), 4, false), Ok(()));
    assert_eq!(client.set_pool_size(ObjectId::new(5), 6, true), Ok(()));
    assert_eq!(client.pool_bytes(ObjectId::new(5)).unwrap(), &[7, 7, 7, 7, 0, 0]);
    assert_eq!(client.pool_bytes_len(), 6);
    assert_eq!(
        client.set_pool_size(ObjectId::new(7), 6, true),
        Err(ClientError::UnknownPool { pool_id: ObjectId::new(7) })
    );
}
