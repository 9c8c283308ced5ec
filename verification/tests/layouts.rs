use display_server::layout::KeyboardLayout;
use display_server::protocol::keymap::{
    choose_layout, layout_of, load_bundled, load_default, parse, poll_is_due, Keymap, KeymapBundle,
    KeymapError, KeymapPreferenceClock, KeymapPreferenceMonitor, KeymapPreferenceReadError,
    KeymapPreferenceRuntime, KeymapPreferenceSource, Scancode,
};
use display_server::{Interface, ObjectId, Server};

/// An image with the given keys: code, plain codepoint, shifted codepoint.
fn image(keys: &[(u8, u32, u32)]) -> Vec<u8> {
    let mut bytes = b"PMKM".to_vec();
    bytes.extend_from_slice(&1u16.to_le_bytes());
    bytes.extend_from_slice(&(keys.len() as u16).to_le_bytes());
    for (code, plain, shifted) in keys {
        bytes.push(*code);
        bytes.extend_from_slice(&plain.to_le_bytes());
        bytes.extend_from_slice(&shifted.to_le_bytes());
        bytes.extend_from_slice(&[0, 0]);
    }
    bytes
}

fn bundle() -> KeymapBundle {
    let letter = |c: char| c as u32;
    KeymapBundle {
        us_qwerty: image(&[
            (4, letter('a'), letter('A')),
            (5, letter('b'), letter('B')),
            (6, letter('c'), letter('C')),
        ]),
        uk_qwerty: image(&[(4, letter('a'), letter('A'))]),
        dvorak: image(&[
            (4, letter('b'), letter('C')),
            (5, letter('z'), 0),
        ]),
    }
}

#[test]
fn an_image_lists_keys() {
    let keymap = parse(&image(&[(4, 97, 65), (5, 98, 66)])).unwrap();
    assert_eq!(keymap.len(), 2);
    let entry = keymap.get(Scancode::KeyA).unwrap();
    assert_eq!((entry.codepoint_unshifted, entry.codepoint_shifted), (97, 65));
    assert!(keymap.get(Scancode::KeyC).is_none());
    assert!(Keymap::empty().is_empty());
}

#[test]
fn an_image_that_is_none_is_refused() {
    let mut wrong = image(&[(4, 97, 65)]);
    wrong[0] = b'X';
    assert!(matches!(parse(&wrong), Err(KeymapError::WrongMagic)));
    let mut version = image(&[(4, 97, 65)]);
    version[4] = 2;
    assert!(matches!(parse(&version), Err(KeymapError::UnsupportedVersion)));
    let mut short = image(&[(4, 97, 65)]);
    short.pop();
    assert!(matches!(parse(&short), Err(KeymapError::Truncated)));
    assert!(matches!(parse(&[]), Err(KeymapError::WrongMagic)));
    assert!(matches!(parse(b"PMKM"), Err(KeymapError::Truncated)));
    assert!(matches!(
        parse(&image(&[(0, 97, 65)])),
        Err(KeymapError::UnknownScancode(0))
    ));
}

#[test]
fn a_key_stands_for_the_key_of_the_same_meaning() {
    let all = bundle();
    let dvorak = load_bundled(&all, KeyboardLayout::Dvorak).unwrap();
    let qwerty = load_default(&all);
    assert_eq!(dvorak.map_to_logical_scancode(4, false, &qwerty), 5);
    assert_eq!(dvorak.map_to_logical_scancode(4, true, &qwerty), 6);
    assert_eq!(dvorak.map_to_logical_scancode(5, false, &qwerty), 5);
    assert_eq!(dvorak.map_to_logical_scancode(5, true, &qwerty), 5);
    assert_eq!(dvorak.map_to_logical_scancode(999, false, &qwerty), 999);
    for layout in [KeyboardLayout::UsQwerty, KeyboardLayout::UkQwerty, KeyboardLayout::Dvorak] {
        assert_eq!(KeyboardLayout::from_name(layout.as_str()), Some(layout));
    }
    assert_eq!(KeyboardLayout::from_name("nothing"), None);
}

#[test]
fn the_chosen_layout_decides_what_keys_mean() {
    let mut server = Server::with_framebuffer_size(10, 10, &bundle());
    let client = server.accept();
    let state = server.client_mut(client).unwrap();
    state.install_client_object(ObjectId::new(3), Interface::Compositor).unwrap();
    state.install_client_object(ObjectId::new(5), Interface::Seat).unwrap();
    let ask = |server: &mut Server, object: u32, opcode: u16, id: u32| {
        let header =
            display_server::MessageHeader::try_new(ObjectId::new(object), opcode, 4, 0).unwrap();
        let mut bytes = vec![0u8; 10];
        header.encode(&mut bytes).unwrap();
        bytes.extend_from_slice(&id.to_le_bytes());
        server.dispatch_request(client, &bytes).unwrap();
    };
    ask(&mut server, 3, 1, 7);
    ask(&mut server, 5, 2, 9);
    server.set_keyboard_focus(Some((client, ObjectId::new(7))));
    let all = bundle();
    server.set_keyboard_layout(KeyboardLayout::Dvorak, &all).unwrap();
    assert_eq!(server.keyboard_layout(), KeyboardLayout::Dvorak);
    server.drain_client_events(client);
    server.inject_keyboard_key(4, 1);
    let bytes = server.drain_client_events(client).unwrap();
    assert_eq!(bytes[10..22], [7, 0, 0, 0, 5, 0, 0, 0, 1, 0, 0, 0]);
    let mut broken = bundle();
    broken.uk_qwerty.pop();
    assert!(server.set_keyboard_layout(KeyboardLayout::UkQwerty, &broken).is_err());
    assert_eq!(server.keyboard_layout(), KeyboardLayout::Dvorak);
    server.set_keyboard_layout(KeyboardLayout::UsQwerty, &all).unwrap();
    server.inject_keyboard_key(4, 1);
    let bytes = server.drain_client_events(client).unwrap();
    assert_eq!(bytes[14..18], [4, 0, 0, 0]);
}

#[test]
fn a_name_chooses_a_layout_that_has_an_image() {
    let all = bundle();
    let dvorak = KeyboardLayout::Dvorak.as_str().to_string();
    assert_eq!(choose_layout(Some(dvorak.clone()), &all), Some(KeyboardLayout::Dvorak));
    assert_eq!(choose_layout(None, &all), Some(KeyboardLayout::UsQwerty));
    assert_eq!(choose_layout(Some("nothing".to_string()), &all), None);
    let broken = KeymapBundle { dvorak: Vec::new(), ..all };
    assert_eq!(choose_layout(Some(dvorak), &broken), None);
}

/// Preferences whose bytes are the name of a layout.
struct Names(Vec<Result<Option<Vec<u8>>, KeymapPreferenceReadError>>);

impl KeymapPreferenceSource for Names {
    fn read(&mut self) -> Result<Option<Vec<u8>>, KeymapPreferenceReadError> {
        self.0.remove(0)
    }

    fn keyboard_layout(
        &mut self,
        preferences: &Vec<u8>,
    ) -> Result<Option<String>, KeymapPreferenceReadError> {
        Ok(Some(String::from_utf8(preferences.clone()).unwrap()))
    }
}

struct Ticks(Vec<u64>);

impl KeymapPreferenceClock for Ticks {
    fn monotonic_ms(&mut self) -> u64 {
        self.0.remove(0)
    }
}

fn name(layout: KeyboardLayout) -> Result<Option<Vec<u8>>, KeymapPreferenceReadError> {
    Ok(Some(layout.as_str().as_bytes().to_vec()))
}

#[test]
fn the_preferences_are_followed() {
    let source = Names(vec![
        name(KeyboardLayout::Dvorak),
        Ok(Some(b"nothing".to_vec())),
        name(KeyboardLayout::UkQwerty),
        Ok(None),
    ]);
    let mut monitor = KeymapPreferenceMonitor::new(source, bundle());
    assert_eq!(monitor.current(), KeyboardLayout::Dvorak);
    assert!(!monitor.poll());
    assert_eq!(monitor.current(), KeyboardLayout::Dvorak);
    assert!(monitor.poll());
    assert_eq!(monitor.current(), KeyboardLayout::UkQwerty);
    assert!(monitor.poll());
    assert_eq!(monitor.current(), KeyboardLayout::UsQwerty);
}

#[test]
fn the_clock_is_looked_at_now_and_then() {
    let source = Names(vec![name(KeyboardLayout::UsQwerty), name(KeyboardLayout::Dvorak)]);
    let clock = Ticks(vec![1000, 1099, 1100]);
    let mut runtime = KeymapPreferenceRuntime::new(source, clock, bundle())
        .with_clock_check_every_iterations(2);
    assert!(!runtime.poll());
    assert!(!runtime.poll());
    assert_eq!(runtime.clock.0.len(), 1);
    assert!(runtime.poll());
    assert_eq!(runtime.current(), KeyboardLayout::Dvorak);
    assert!(poll_is_due(200, 100));
    assert!(!poll_is_due(199, 100));
    assert!(!poll_is_due(0, 100));
}

#[test]
fn what_a_look_gave_decides_the_layout() {
    let all = bundle();
    let unavailable = KeymapPreferenceReadError::Unavailable;
    let dvorak = Some(KeyboardLayout::Dvorak.as_str().to_string());
    assert_eq!(layout_of(Err(unavailable), &all), None);
    assert_eq!(layout_of(Ok(Some(Err(KeymapPreferenceReadError::Unavailable))), &all), None);
    assert_eq!(layout_of(Ok(None), &all), Some(KeyboardLayout::UsQwerty));
    assert_eq!(layout_of(Ok(Some(Ok(None))), &all), Some(KeyboardLayout::UsQwerty));
    assert_eq!(layout_of(Ok(Some(Ok(dvorak))), &all), Some(KeyboardLayout::Dvorak));
    assert_eq!(layout_of(Ok(Some(Ok(Some("nothing".to_string())))), &all), None);
}

#[test]
fn a_failed_look_keeps_the_layout_and_takes_its_turn() {
    let source = Names(vec![
        name(KeyboardLayout::Dvorak),
        Err(KeymapPreferenceReadError::Unavailable),
        name(KeyboardLayout::UkQwerty),
    ]);
    let clock = Ticks(vec![1000, 1100, 1150, 1200]);
    let mut runtime = KeymapPreferenceRuntime::new(source, clock, bundle())
        .with_clock_check_every_iterations(1);
    assert!(!runtime.poll());
    assert_eq!(runtime.current(), KeyboardLayout::Dvorak);
    assert_eq!(runtime.last_poll_ms, 1100);
    assert!(!runtime.poll());
    assert_eq!(runtime.monitor.source.0.len(), 1);
    assert!(runtime.poll());
    assert_eq!(runtime.current(), KeyboardLayout::UkQwerty);
    assert_eq!(runtime.last_poll_ms, 1200);
}

#[test]
fn a_look_counts_only_when_it_is_due() {
    let source = Names(vec![Ok(None)]);
    let mut runtime = KeymapPreferenceRuntime::new(source, Ticks(vec![1000]), bundle());
    assert!(!runtime.note_poll(1099, Some(KeyboardLayout::Dvorak)));
    assert_eq!((runtime.current(), runtime.last_poll_ms), (KeyboardLayout::UsQwerty, 1000));
    assert!(!runtime.note_poll(1100, None));
    assert_eq!((runtime.current(), runtime.last_poll_ms), (KeyboardLayout::UsQwerty, 1100));
    assert!(runtime.note_poll(1200, Some(KeyboardLayout::Dvorak)));
    assert_eq!((runtime.current(), runtime.last_poll_ms), (KeyboardLayout::Dvorak, 1200));
    assert!(runtime.note_refresh(1201, Some(KeyboardLayout::UkQwerty)));
    assert_eq!((runtime.current(), runtime.last_poll_ms), (KeyboardLayout::UkQwerty, 1201));
}

#[test]
fn the_default_layout_is_there_from_the_start() {
    // The other layouts are no keymaps, and none of them can be chosen.
    let all = KeymapBundle { uk_qwerty: Vec::new(), dvorak: b"PMKM".to_vec(), ..bundle() };
    let mut server = Server::with_framebuffer_size(10, 10, &all);
    assert_eq!(server.keyboard_layout(), KeyboardLayout::UsQwerty);
    assert_eq!(server.set_keyboard_layout(KeyboardLayout::UsQwerty, &all), Ok(false));
    assert_eq!(
        server.set_keyboard_layout(KeyboardLayout::UkQwerty, &all),
        Err(KeymapError::WrongMagic)
    );
    assert_eq!(
        server.set_keyboard_layout(KeyboardLayout::Dvorak, &all),
        Err(KeymapError::Truncated)
    );
    assert_eq!(server.keyboard_layout(), KeyboardLayout::UsQwerty);
    // The meaning of keys goes by the default layout that the server began
    // with, whatever default comes with a later choice.
    let later = KeymapBundle { us_qwerty: Vec::new(), ..bundle() };
    assert_eq!(server.set_keyboard_layout(KeyboardLayout::Dvorak, &later), Ok(true));
    let client = server.accept();
    server.client_mut(client).unwrap().install_client_object(ObjectId::new(3), Interface::Compositor).unwrap();
    server.client_mut(client).unwrap().install_client_object(ObjectId::new(5), Interface::Seat).unwrap();
    for (object, opcode, id) in [(3u32, 1u16, 7u32), (5, 2, 9)] {
        let header =
            display_server::MessageHeader::try_new(ObjectId::new(object), opcode, 4, 0).unwrap();
        let mut bytes = vec![0u8; 10];
        header.encode(&mut bytes).unwrap();
        bytes.extend_from_slice(&id.to_le_bytes());
        server.dispatch_request(client, &bytes).unwrap();
    }
    server.set_keyboard_focus(Some((client, ObjectId::new(7))));
    server.drain_client_events(client);
    server.inject_keyboard_key(4, 1);
    let bytes = server.drain_client_events(client).unwrap();
    assert_eq!(bytes[14..18], [5, 0, 0, 0]);
}
