use display_server::{
    classify_initial_stream, detect_protocol_message, InitialStreamClassification, MessageHeader,
    ObjectId, HEADER_SIZE, LEGACY_RAW_BLIT_PIXELS,
};

fn encode_header(object_id: ObjectId, opcode: u16, total_len: u16) -> Vec<u8> {
    let header = MessageHeader {
        object_id,
        opcode,
        length: total_len,
        fd_passing: 0,
    };
    let mut buf = vec![0u8; HEADER_SIZE];
    header.encode(&mut buf).unwrap();
    buf
}

#[test]
fn fragmented_protocol_prefix_is_never_classified_as_legacy_raw_blit() {
    let mut bytes = encode_header(ObjectId::display(), 2, 14);
    bytes.extend_from_slice(&ObjectId::new(3).raw().to_le_bytes());
    for split in 0..HEADER_SIZE {
        assert_eq!(
            classify_initial_stream(&bytes[..split]),
            InitialStreamClassification::NeedMore,
            "split at byte {split}"
        );
    }
    assert_eq!(
        classify_initial_stream(&bytes[..HEADER_SIZE]),
        InitialStreamClassification::Protocol,
        "a complete header locks the connection to protocol mode even when its payload is pending"
    );
    assert_eq!(
        classify_initial_stream(&bytes),
        InitialStreamClassification::Protocol
    );
}

#[test]
fn fragmented_legacy_fixture_waits_for_all_sixteen_bytes() {
    for split in 0..LEGACY_RAW_BLIT_PIXELS.len() {
        assert_eq!(
            classify_initial_stream(&LEGACY_RAW_BLIT_PIXELS[..split]),
            InitialStreamClassification::NeedMore,
            "split at byte {split}"
        );
    }
    assert_eq!(
        classify_initial_stream(&LEGACY_RAW_BLIT_PIXELS),
        InitialStreamClassification::LegacyRawBlit
    );
}

#[test]
fn malformed_nonlegacy_prefix_is_rejected_instead_of_bypassing_protocol() {
    let mut bytes = [0x55u8; 16];
    bytes[9] = 1;
    assert_eq!(
        classify_initial_stream(&bytes),
        InitialStreamClassification::Invalid
    );
}

#[test]
fn complete_protocol_message_with_sixteen_bytes_is_not_misclassified() {
    let mut bytes = encode_header(ObjectId::display(), 2, 16);
    bytes.extend_from_slice(&[0u8; 6]);
    assert_eq!(bytes.len(), LEGACY_RAW_BLIT_PIXELS.len());
    assert_eq!(
        classify_initial_stream(&bytes),
        InitialStreamClassification::Protocol
    );
}

#[test]
fn empty_input_is_not_a_protocol_message() {
    assert_eq!(detect_protocol_message(&[]), None);
}

#[test]
fn a_buffer_shorter_than_a_header_is_not_a_protocol_message() {
    assert_eq!(detect_protocol_message(&[0u8; 4]), None);
}

#[test]
fn a_well_formed_header_with_matching_length_is_a_protocol_message() {
    let bytes = encode_header(ObjectId::display(), 1, HEADER_SIZE as u16);
    assert_eq!(detect_protocol_message(&bytes), Some(HEADER_SIZE));
}

#[test]
fn a_header_with_length_below_header_size_returns_none() {
    let mut bytes = vec![0u8; HEADER_SIZE];
    bytes[0..4].copy_from_slice(&1u32.to_le_bytes());
    bytes[4..6].copy_from_slice(&1u16.to_le_bytes());
    bytes[6..8].copy_from_slice(&5u16.to_le_bytes());
    assert_eq!(detect_protocol_message(&bytes), None);
}

#[test]
fn a_header_with_length_field_smaller_than_bytes_returns_none() {
    let mut bytes = encode_header(ObjectId::display(), 1, HEADER_SIZE as u16);
    bytes.extend_from_slice(&[0xff; 6]);
    assert_eq!(detect_protocol_message(&bytes), None);
}

#[test]
fn a_header_with_length_field_larger_than_bytes_returns_none() {
    let bytes = encode_header(ObjectId::display(), 1, 20);
    assert_eq!(detect_protocol_message(&bytes), None);
}

#[test]
fn the_demo_clients_16_byte_rgba_payload_almost_never_decodes_as_a_header() {
    let bytes = [0x33u8; 16];
    assert_eq!(detect_protocol_message(&bytes), None);
}

#[test]
fn a_run_of_messages_is_not_one_message() {
    let one = encode_header(ObjectId::display(), 1, HEADER_SIZE as u16);
    let mut two = one.clone();
    two.extend_from_slice(&one);
    assert_eq!(two, [1, 0, 0, 0, 1, 0, 10, 0, 0, 0, 1, 0, 0, 0, 1, 0, 10, 0, 0, 0]);
    assert_eq!(detect_protocol_message(&two), None);
}

#[test]
fn more_bytes_do_not_mend_a_stream() {
    let mut bytes = encode_header(ObjectId::display(), 1, 5);
    assert_eq!(classify_initial_stream(&bytes), InitialStreamClassification::Invalid);
    for _ in 0..20 {
        bytes.push(0);
        assert_eq!(classify_initial_stream(&bytes), InitialStreamClassification::Invalid);
    }
}
