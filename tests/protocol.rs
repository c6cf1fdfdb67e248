use hermes::protocol::{
    crc32_fast, Decoder, Encoder, Message, MessageHeader, MessageType, HEADER_SIZE, MAGIC, MAX_PAYLOAD_SIZE, VERSION,
};

#[test]
fn test_encode_decode_single() {
    let mut encoder = Encoder::new(4096);

    let payload = b"Hello, Hermes!";
    encoder.encode(MessageType::Publish, 1, payload).unwrap();

    let mut decoder = Decoder::new(encoder.as_bytes());
    let (header, decoded_payload) = decoder.next().unwrap();

    let seq = header.sequence;
    assert_eq!(seq, 1);
    assert_eq!(decoded_payload, payload);
}

#[test]
fn test_encode_decode_batch() {
    let mut encoder = Encoder::new(4096);

    let messages: Vec<(&[u8], u64)> = vec![(b"Message 1", 1), (b"Message 2", 2), (b"Message 3", 3)];

    encoder.encode_batch(&messages).unwrap();

    let mut decoder = Decoder::new(encoder.as_bytes());
    let mut batch_iter = decoder.decode_batch().unwrap();

    let mut decoded = Vec::new();
    while let Some(item) = batch_iter.next() {
        decoded.push(item);
    }
    assert_eq!(decoded.len(), 3);
    assert_eq!(decoded[0].1, b"Message 1");
    assert_eq!(decoded[1].1, b"Message 2");
    assert_eq!(decoded[2].1, b"Message 3");
}

#[test]
fn test_encoder_reuse() {
    let mut encoder = Encoder::new(4096);

    encoder.encode(MessageType::Publish, 1, b"First").unwrap();
    encoder.reset();
    encoder.encode(MessageType::Publish, 2, b"Second").unwrap();

    let mut decoder = Decoder::new(encoder.as_bytes());
    let (header, _) = decoder.next().unwrap();

    let seq = header.sequence;
    assert_eq!(seq, 2);
}

#[test]
fn test_header_size() {
    assert_eq!(HEADER_SIZE, 32);
}

#[test]
fn test_header_roundtrip() {
    let header = MessageHeader::new(MessageType::Publish, 42, 100);
    let bytes = header.as_bytes();

    let parsed = MessageHeader::from_bytes(&bytes).unwrap();
    let seq = parsed.sequence;
    let len = parsed.payload_len;
    assert_eq!(seq, 42);
    assert_eq!(len, 100);
}

#[test]
fn test_message_parse() {
    let mut buf = vec![0u8; 64];
    let header = MessageHeader::new(MessageType::Publish, 1, 10);

    buf[..HEADER_SIZE].copy_from_slice(&header.as_bytes());
    buf[HEADER_SIZE..HEADER_SIZE + 10].copy_from_slice(b"HelloWorld");

    let msg = Message::from_bytes(&buf).unwrap();
    assert_eq!(msg.payload, b"HelloWorld");
}

#[test]
fn header_bytes_are_little_endian_and_packed() {
    let mut h = MessageHeader::new_at(MessageType::Heartbeat, 0x0102030405060708, 0x0000_0c0d, 0x1112131415161718);
    h.checksum = 0x21222324;
    let b = h.as_bytes();
    assert_eq!(
        b,
        vec![
            0x53, 0x4D, 0x52, 0x48, 1, 4, 0, 0, 0x08, 0x07, 0x06, 0x05, 0x04, 0x03, 0x02, 0x01, 0x18, 0x17, 0x16, 0x15,
            0x14, 0x13, 0x12, 0x11, 0x0d, 0x0c, 0x00, 0x00, 0x24, 0x23, 0x22, 0x21,
        ]
    );
    assert_eq!(MessageHeader::from_bytes(&b), Some(h));
}

#[test]
fn header_validity_follows_magic_version_and_length() {
    let good = MessageHeader::new_at(MessageType::Publish, 1, MAX_PAYLOAD_SIZE as u32, 0);
    assert!(good.is_valid());
    assert_eq!(good.total_size(), HEADER_SIZE + MAX_PAYLOAD_SIZE);

    let mut too_long = good;
    too_long.payload_len = MAX_PAYLOAD_SIZE as u32 + 1;
    assert!(!too_long.is_valid());

    let mut bad_magic = good;
    bad_magic.magic = MAGIC + 1;
    assert!(!bad_magic.is_valid());

    let mut bad_version = good;
    bad_version.version = VERSION + 1;
    assert!(!bad_version.is_valid());

    assert_eq!(MessageHeader::from_bytes(&bad_magic.as_bytes()), None);
    assert_eq!(MessageHeader::from_bytes(&good.as_bytes()[..31]), None);
}

#[test]
fn message_type_codes() {
    assert_eq!(MessageType::from_u8(1), Some(MessageType::Publish));
    assert_eq!(MessageType::from_u8(2), Some(MessageType::Subscribe));
    assert_eq!(MessageType::from_u8(3), Some(MessageType::Ack));
    assert_eq!(MessageType::from_u8(4), Some(MessageType::Heartbeat));
    assert_eq!(MessageType::from_u8(5), Some(MessageType::Batch));
    assert_eq!(MessageType::from_u8(0), None);
    assert_eq!(MessageType::from_u8(6), None);
    assert_eq!(MessageType::Batch.as_u8(), 5);
}

#[test]
fn checksum_values() {
    assert_eq!(crc32_fast(b""), 1);
    assert_eq!(crc32_fast(b"a"), 0x0062_0062);
    assert_eq!(crc32_fast(b"hello"), 0x062c_0215);
    assert_eq!(crc32_fast(b"Hello, Hermes!"), 0x242f_04c6);
    assert_eq!(crc32_fast(&vec![255u8; 70000]), 0xb938_5e91);
}

#[test]
fn encoder_fills_exactly_then_refuses() {
    let mut encoder = Encoder::new(HEADER_SIZE + 5);
    let frame = encoder.encode(MessageType::Publish, 7, b"hello").unwrap().to_vec();
    assert_eq!(frame.len(), HEADER_SIZE + 5);
    assert_eq!(encoder.available(), 0);
    assert!(encoder.encode(MessageType::Publish, 8, b"").is_none());
    assert!(encoder.encode(MessageType::Publish, 8, b"x").is_none());
    assert_eq!(encoder.as_bytes(), &frame[..]);
}

#[test]
fn encoder_refuses_oversized_payload() {
    let mut encoder = Encoder::new(2 * MAX_PAYLOAD_SIZE);
    let big = vec![0u8; MAX_PAYLOAD_SIZE + 1];
    assert!(encoder.encode(MessageType::Publish, 1, &big).is_none());
    assert_eq!(encoder.available(), 2 * MAX_PAYLOAD_SIZE);
    let max = vec![9u8; MAX_PAYLOAD_SIZE];
    assert!(encoder.encode(MessageType::Publish, 1, &max).is_some());
}

#[test]
fn encoded_frame_carries_checksum_and_fields() {
    let mut encoder = Encoder::new(256);
    let bytes = encoder.encode_at(MessageType::Publish, 99, b"hello", 123456).unwrap().to_vec();
    let h = MessageHeader::from_bytes(&bytes).unwrap();
    assert_eq!(h.magic, MAGIC);
    assert_eq!(h.version, VERSION);
    assert_eq!(h.msg_type, 1);
    assert_eq!(h.flags, 0);
    assert_eq!(h.sequence, 99);
    assert_eq!(h.timestamp_ns, 123456);
    assert_eq!(h.payload_len, 5);
    assert_eq!(h.checksum, 0x062c_0215);
    assert_eq!(&bytes[HEADER_SIZE..], b"hello");
}

#[test]
fn round_trip_keeps_type_sequence_and_payload() {
    let mut encoder = Encoder::new(4096);
    encoder.encode(MessageType::Subscribe, 5, b"").unwrap();
    encoder.encode(MessageType::Heartbeat, u64::MAX, b"ping").unwrap();
    let mut decoder = Decoder::new(encoder.as_bytes());
    let (head_a, pay_a) = decoder.next().unwrap();
    assert_eq!(head_a.msg_type, MessageType::Subscribe.as_u8());
    assert_eq!(head_a.sequence, 5);
    assert_eq!(pay_a, b"");
    let (head_b, pay_b) = decoder.next().unwrap();
    assert_eq!(head_b.msg_type, MessageType::Heartbeat.as_u8());
    assert_eq!(head_b.sequence, u64::MAX);
    assert_eq!(pay_b, b"ping");
    assert!(decoder.next().is_none());
    assert_eq!(decoder.remaining(), 0);
}

#[test]
fn decoder_stops_before_partial_frame() {
    let mut encoder = Encoder::new(4096);
    let first = encoder.encode(MessageType::Publish, 1, b"first frame").unwrap().to_vec();
    let second = encoder.encode(MessageType::Publish, 2, b"second frame").unwrap().to_vec();
    let mut buf = first.clone();
    buf.extend_from_slice(&second[..10]);

    let mut decoder = Decoder::new(&buf);
    let (h, p) = decoder.next().unwrap();
    assert_eq!(h.sequence, 1);
    assert_eq!(p, b"first frame");
    assert!(decoder.next().is_none());
    assert_eq!(decoder.data_pos(), first.len());
    assert_eq!(decoder.remaining(), 10);
}

#[test]
fn zero_checksum_is_not_verified_and_wrong_checksum_is_rejected() {
    let mut unchecked = MessageHeader::new_at(MessageType::Publish, 3, 4, 0);
    unchecked.checksum = 0;
    let mut buf = unchecked.as_bytes();
    buf.extend_from_slice(b"data");
    let mut decoder = Decoder::new(&buf);
    let (h, p) = decoder.next().unwrap();
    assert_eq!(h.checksum, 0);
    assert_eq!(p, b"data");

    let mut wrong = unchecked;
    wrong.checksum = crc32_fast(b"data") + 1;
    let mut buf = wrong.as_bytes();
    buf.extend_from_slice(b"data");
    let mut decoder = Decoder::new(&buf);
    assert!(decoder.next().is_none());
    assert_eq!(decoder.data_pos(), 0);

    let mut right = unchecked;
    right.checksum = crc32_fast(b"data");
    let mut buf = right.as_bytes();
    buf.extend_from_slice(b"data");
    assert!(Decoder::new(&buf).next().is_some());
}

#[test]
fn batch_round_trip_keeps_order_and_sequences() {
    let mut encoder = Encoder::new(4096);
    let messages: Vec<(&[u8], u64)> = vec![(b"alpha", 10), (b"", 11), (b"gamma", 12)];
    let bytes = encoder.encode_batch_at(&messages, 777).unwrap().to_vec();
    let outer = MessageHeader::from_bytes(&bytes).unwrap();
    assert_eq!(outer.msg_type, MessageType::Batch.as_u8());
    assert_eq!(outer.sequence, 10);
    assert_eq!(outer.checksum, 0);
    assert_eq!(outer.payload_len as usize, 3 * HEADER_SIZE + 10);
    assert_eq!(bytes.len(), 4 * HEADER_SIZE + 10);

    let mut decoder = Decoder::new(&bytes);
    let mut it = decoder.decode_batch().unwrap();
    for (payload, seq) in &messages {
        let (h, p) = it.next().unwrap();
        assert_eq!(h.msg_type, MessageType::Publish.as_u8());
        assert_eq!(h.sequence, *seq);
        assert_eq!(h.timestamp_ns, 777);
        assert_eq!(p, *payload);
    }
    assert!(it.next().is_none());
    assert_eq!(decoder.remaining(), 0);
}

#[test]
fn batch_refuses_empty_oversized_and_unfitting_lists() {
    let mut encoder = Encoder::new(4096);
    let empty: Vec<(&[u8], u64)> = Vec::new();
    assert!(encoder.encode_batch(&empty).is_none());

    let big = vec![0u8; MAX_PAYLOAD_SIZE];
    let too_much: Vec<(&[u8], u64)> = vec![(&big, 1)];
    let mut roomy = Encoder::new(4 * MAX_PAYLOAD_SIZE);
    assert!(roomy.encode_batch(&too_much).is_none());

    let mut small = Encoder::new(2 * HEADER_SIZE + 4);
    let fits: Vec<(&[u8], u64)> = vec![(b"abcd", 1)];
    assert!(small.encode_batch(&fits).is_some());
    assert!(small.encode_batch(&fits).is_none());
}

#[test]
fn decode_batch_consumes_a_non_batch_frame() {
    let mut encoder = Encoder::new(4096);
    encoder.encode(MessageType::Publish, 1, b"plain").unwrap();
    let mut decoder = Decoder::new(encoder.as_bytes());
    assert!(decoder.decode_batch().is_none());
    assert_eq!(decoder.remaining(), 0);
}
