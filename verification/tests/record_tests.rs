use record_store::record::{DecodeError, Record};

#[test]
fn record_test_file_segment_from_plain_id() {
    assert_eq!(Record::get_file_segment(1), 0);
    assert_eq!(Record::get_file_segment(100), 0);
    assert_eq!(Record::get_file_segment(101), 1);
}

#[test]
fn encode_then_decode_returns_the_record() {
    let payload = br#"[null,1,"hello"]"#.to_vec();
    let record = Record::new(7, 1_700_000_000, payload);

    let mut frame: Vec<u8> = Vec::new();
    record.write_to(&mut frame);
    let decoded = Record::read_from(&frame).expect("a full frame should decode");

    assert_eq!(decoded, record);
}

#[test]
fn size_equals_frame_length() {
    let payload = br#"{"kind":"note","body":"hi"}"#.to_vec();
    let record = Record::new(1, 42, payload);

    let mut frame: Vec<u8> = Vec::new();
    record.write_to(&mut frame);

    assert_eq!(record.size(), frame.len() as u64);
    // 26 bytes of header and terminator around the payload.
    assert_eq!(record.size(), 26 + 27);
}

#[test]
fn frame_layout_is_fixed_header_payload_terminator() {
    let record = Record::new(0x0102030405060708, 0x1122334455667788, b"null".to_vec());

    let mut frame: Vec<u8> = Vec::new();
    record.write_to(&mut frame);

    assert_eq!(frame[0], 1); // version
    assert_eq!(&frame[1..9], &[1, 2, 3, 4, 5, 6, 7, 8]); // id, big-endian
    assert_eq!(&frame[9..17], &[0x11, 0x22, 0x33, 0x44, 0x55, 0x66, 0x77, 0x88]); // timestamp
    assert_eq!(&frame[17..25], &[0, 0, 0, 0, 0, 0, 0, 4]); // payload length
    assert_eq!(&frame[25..29], b"null"); // payload
    assert_eq!(frame[29], b'\n'); // terminator
    assert_eq!(frame.len(), 30);
}

#[test]
fn truncated_frames_are_rejected() {
    let record = Record::new(9, 77, b"[1,2,3]".to_vec());
    let mut frame: Vec<u8> = Vec::new();
    record.write_to(&mut frame);

    // Too short for the fixed-width header.
    assert_eq!(Record::read_from(&frame[..10]), Err(DecodeError::Truncated));
    // Header complete, but payload bytes missing.
    assert_eq!(
        Record::read_from(&frame[..27]),
        Err(DecodeError::Truncated)
    );
    // Everything but the terminator byte.
    assert_eq!(
        Record::read_from(&frame[..frame.len() - 1]),
        Err(DecodeError::Truncated)
    );
    // The untouched frame decodes.
    assert!(Record::read_from(&frame).is_ok());
}

#[test]
fn malformed_payload_is_rejected() {
    let record = Record::new(3, 5, b"not a structured payload".to_vec());
    let mut frame: Vec<u8> = Vec::new();
    record.write_to(&mut frame);

    assert_eq!(
        Record::read_from(&frame),
        Err(DecodeError::MalformedPayload)
    );
}

#[test]
fn terminator_value_is_not_validated() {
    let record = Record::new(4, 6, b"true".to_vec());
    let mut frame: Vec<u8> = Vec::new();
    record.write_to(&mut frame);

    // Corrupt the terminator: decoding still succeeds, the byte is skipped.
    let last = frame.len() - 1;
    frame[last] = b'x';
    let decoded = Record::read_from(&frame).expect("the terminator is not checked");
    assert_eq!(decoded, record);
}

#[test]
fn decode_reads_only_one_frame_from_the_front() {
    let first = Record::new(1, 100, b"[1]".to_vec());
    let second = Record::new(2, 200, b"[2]".to_vec());
    let mut stream: Vec<u8> = Vec::new();
    first.write_to(&mut stream);
    let first_len = stream.len();
    second.write_to(&mut stream);

    let decoded = Record::read_from(&stream).expect("the first frame should decode");
    assert_eq!(decoded, first);
    let decoded_second =
        Record::read_from(&stream[first_len..]).expect("the second frame should decode");
    assert_eq!(decoded_second, second);
}
