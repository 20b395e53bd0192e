use wiretap::decode::{decode_message, DecodeError};
use wiretap::varint::{VarintReader, VarintStep};
use quick_protobuf::BytesReader;
use wiretap::messages::{
    ClientHello, CloseReason, ConnectionClosed, ConnectionUpsert, Direction, Envelope,
    OneOfpayload, PeerUpsert, ServerHello, SnapshotEnd, SnapshotStart, StreamChunk, StreamClosed,
    StreamUpsert, StringDef,
};
use wiretap::proto::WireMessage;
use wiretap::wire::{
    encode_envelope_frame, encode_frame, encode_typed, length_delimited, FrameError, FrameReader,
    MAX_MESSAGE_SIZE, PROTOCOL_VERSION, TYPE_CLIENT_HELLO, TYPE_ENVELOPE, TYPE_SERVER_HELLO,
};

/// Decodes a message the way quick-protobuf's own reader does, to check
/// that the library's encoding is what that crate reads.
fn decode_client_hello_with_quick_protobuf(bytes: &[u8]) -> ClientHello {
    let mut r = BytesReader::from_bytes(bytes);
    let mut msg = ClientHello {
        protocol_version: 0,
        peer_id: Vec::new(),
        client_name: String::new(),
        boot_id: Vec::new(),
        started_at_ns: 0,
    };
    while !r.is_eof() {
        match r.next_tag(bytes) {
            Ok(8) => msg.protocol_version = r.read_uint32(bytes).unwrap(),
            Ok(18) => msg.peer_id = r.read_bytes(bytes).unwrap().to_owned(),
            Ok(26) => msg.client_name = r.read_string(bytes).unwrap().to_owned(),
            Ok(34) => msg.boot_id = r.read_bytes(bytes).unwrap().to_owned(),
            Ok(40) => msg.started_at_ns = r.read_int64(bytes).unwrap(),
            Ok(t) => r.read_unknown(bytes, t).unwrap(),
            Err(e) => panic!("{e:?}"),
        }
    }
    msg
}

/// Feeds a frame to a reader byte by byte; returns the announced body
/// length and how many header bytes it took.
fn read_header(reader: &mut FrameReader, bytes: &[u8]) -> Result<(usize, usize), FrameError> {
    for (i, b) in bytes.iter().enumerate() {
        if let Some(n) = reader.feed(*b)? {
            return Ok((n, i + 1));
        }
    }
    panic!("header did not end");
}

#[test]
fn round_trip_client_hello() {
    let hello = ClientHello {
        protocol_version: PROTOCOL_VERSION,
        peer_id: vec![1, 2, 3],
        client_name: "test".to_owned(),
        boot_id: vec![4, 5, 6],
        started_at_ns: 1234567890,
    };

    let buf = encode_typed(TYPE_CLIENT_HELLO, &hello);
    let mut reader = FrameReader::new(TYPE_CLIENT_HELLO);
    let (len, header) = read_header(&mut reader, &buf).unwrap();
    assert_eq!(len, buf.len() - header);
    assert_eq!(len, hello.get_size());
    let decoded: ClientHello = decode_message(&buf[header..]).unwrap();
    assert_eq!(decoded, hello);
    assert_eq!(decode_client_hello_with_quick_protobuf(&buf[header..]), hello);
}

#[test]
fn round_trip_envelope() {
    let env = Envelope {
        seq: 42,
        observed_at_ns: 999,
        payload: OneOfpayload::stream_chunk(StreamChunk {
            stream_alias: 7,
            direction: Direction::DIRECTION_OUT,
            data: vec![0xde, 0xad],
        }),
    };

    let buf = encode_typed(TYPE_ENVELOPE, &env);
    let mut reader = FrameReader::new(TYPE_ENVELOPE);
    let (len, header) = read_header(&mut reader, &buf).unwrap();
    assert_eq!(len, buf.len() - header);
    let decoded: Envelope = decode_message(&buf[header..]).unwrap();
    assert_eq!(decoded, env);
    assert_eq!(encode_envelope_frame(&env), buf);
}

#[test]
fn wrong_type_rejected() {
    let hello = ClientHello {
        protocol_version: 0,
        peer_id: Vec::new(),
        client_name: String::new(),
        boot_id: Vec::new(),
        started_at_ns: 0,
    };
    let buf = encode_typed(TYPE_CLIENT_HELLO, &hello);
    let mut reader = FrameReader::new(TYPE_SERVER_HELLO);
    let mut result = Ok(None);
    for b in &buf {
        result = reader.feed(*b);
        if result != Ok(None) {
            break;
        }
    }
    assert!(result.is_err());
}

#[test]
fn default_fields_are_not_written() {
    let hello = ClientHello {
        protocol_version: 0,
        peer_id: Vec::new(),
        client_name: String::new(),
        boot_id: Vec::new(),
        started_at_ns: 0,
    };
    assert_eq!(encode_typed(TYPE_CLIENT_HELLO, &hello), vec![TYPE_CLIENT_HELLO, 0]);
    assert_eq!(hello.get_size(), 0);
    assert!(hello.fits());
}

#[test]
fn encodings_match_the_schema() {
    let def = StringDef { id: 1, value: "ab".to_owned() };
    let mut buf = Vec::new();
    def.write_message(&mut buf);
    assert_eq!(buf, vec![0x08, 0x01, 0x12, 0x02, b'a', b'b']);
    assert_eq!(def.get_size(), 6);

    // A negative int64 takes ten bytes.
    let server = ServerHello { protocol_version: 3, source_id: String::new(), last_acked_seq: 300 };
    let mut buf = Vec::new();
    server.write_message(&mut buf);
    assert_eq!(buf, vec![0x08, 0x03, 0x18, 0xac, 0x02]);

    let env = Envelope { seq: 1, observed_at_ns: -1, payload: OneOfpayload::snapshot_start(SnapshotStart {}) };
    let mut buf = Vec::new();
    env.write_message(&mut buf);
    let mut expected = vec![0x08, 0x01, 0x10];
    expected.extend_from_slice(&[0xff; 9]);
    expected.push(0x01);
    expected.extend_from_slice(&[90, 0x00]);
    assert_eq!(buf, expected);
    assert_eq!(env.get_size(), expected.len());

    let env = Envelope {
        seq: 0,
        observed_at_ns: 0,
        payload: OneOfpayload::string_def(StringDef { id: 0, value: "x".to_owned() }),
    };
    let mut buf = Vec::new();
    env.write_message(&mut buf);
    assert_eq!(buf, vec![0xa2, 0x01, 0x03, 0x12, 0x01, b'x']);
}

#[test]
fn frame_round_trip() {
    let body = b"client hello body".to_vec();
    let frame = encode_frame(TYPE_CLIENT_HELLO, &body);
    assert_eq!(frame[0], TYPE_CLIENT_HELLO);
    let mut reader = FrameReader::new(TYPE_CLIENT_HELLO);
    let (len, header) = read_header(&mut reader, &frame).unwrap();
    assert_eq!(len, body.len());
    assert_eq!(&frame[header..], &body[..]);
}

#[test]
fn frame_round_trip_long_body() {
    let body = vec![0xabu8; 300];
    let frame = encode_frame(TYPE_ENVELOPE, &body);
    // 300 = 0b10_0101100: length varint 0xac 0x02
    assert_eq!(&frame[..3], &[TYPE_ENVELOPE, 0xac, 0x02]);
    let mut reader = FrameReader::new(TYPE_ENVELOPE);
    let (len, header) = read_header(&mut reader, &frame).unwrap();
    assert_eq!((len, header), (300, 3));
    assert_eq!(&frame[header..], &body[..]);
}

#[test]
fn frame_wrong_type_rejected() {
    let frame = encode_frame(TYPE_CLIENT_HELLO, b"");
    let mut reader = FrameReader::new(TYPE_SERVER_HELLO);
    assert_eq!(
        reader.feed(frame[0]),
        Err(FrameError::UnexpectedType { got: TYPE_CLIENT_HELLO, want: TYPE_SERVER_HELLO })
    );
}

#[test]
fn frame_too_large_rejected() {
    let too_big = MAX_MESSAGE_SIZE + 1;
    let mut bytes = vec![TYPE_ENVELOPE];
    let mut buf = unsigned_varint::encode::u64_buffer();
    bytes.extend_from_slice(unsigned_varint::encode::u64(too_big, &mut buf));
    let mut reader = FrameReader::new(TYPE_ENVELOPE);
    assert_eq!(read_header(&mut reader, &bytes), Err(FrameError::TooLarge(too_big)));
}

#[test]
fn frame_largest_body_accepted() {
    let mut bytes = vec![TYPE_ENVELOPE];
    let mut buf = unsigned_varint::encode::u64_buffer();
    bytes.extend_from_slice(unsigned_varint::encode::u64(MAX_MESSAGE_SIZE, &mut buf));
    let mut reader = FrameReader::new(TYPE_ENVELOPE);
    assert_eq!(read_header(&mut reader, &bytes).unwrap().0, MAX_MESSAGE_SIZE as usize);
}

#[test]
fn frame_length_varint_overflow() {
    let mut reader = FrameReader::new(TYPE_ENVELOPE);
    assert_eq!(reader.feed(TYPE_ENVELOPE), Ok(None));
    for _ in 0..9 {
        assert_eq!(reader.feed(0x80), Ok(None));
    }
    assert_eq!(reader.feed(0x80), Err(FrameError::VarintOverflow));
}

#[test]
fn length_delimited_prefixes_length() {
    let def = StringDef { id: 1, value: "ab".to_owned() };
    assert_eq!(length_delimited(&def), vec![6, 0x08, 0x01, 0x12, 0x02, b'a', b'b']);
    let empty = StringDef { id: 0, value: String::new() };
    assert_eq!(length_delimited(&empty), vec![0]);
}

#[test]
fn frame_lengths_are_minimal_leb128() {
    for (len, header) in [
        (0usize, vec![0u8]),
        (127, vec![0x7f]),
        (128, vec![0x80, 0x01]),
        (16384, vec![0x80, 0x80, 0x01]),
    ] {
        let frame = encode_frame(TYPE_ENVELOPE, &vec![0u8; len]);
        assert_eq!(frame[0], TYPE_ENVELOPE);
        assert_eq!(&frame[1..1 + header.len()], &header[..]);
        assert_eq!(frame.len(), 1 + header.len() + len);
    }
}

#[test]
fn varint_reader_reads_values() {
    let mut r = VarintReader::new();
    assert_eq!(r.push(0x96), VarintStep::More);
    assert_eq!(r.push(0x01), VarintStep::Done(150));

    // Trailing zero groups are accepted here.
    let mut r = VarintReader::new();
    assert_eq!(r.push(0x81), VarintStep::More);
    assert_eq!(r.push(0x00), VarintStep::Done(1));

    // Bits past 64 are dropped.
    let mut r = VarintReader::new();
    for _ in 0..9 {
        assert_eq!(r.push(0xff), VarintStep::More);
    }
    assert_eq!(r.push(0x7f), VarintStep::Done(u64::MAX));

    let mut r = VarintReader::new();
    for _ in 0..9 {
        assert_eq!(r.push(0x80), VarintStep::More);
    }
    assert_eq!(r.push(0x80), VarintStep::Overflow);
}

#[test]
fn decode_reads_every_record_back() {
    let records = vec![
        OneOfpayload::snapshot_start(SnapshotStart {}),
        OneOfpayload::snapshot_end(SnapshotEnd {}),
        OneOfpayload::string_def(StringDef { id: 7, value: "/meshsub/1.1.0".to_owned() }),
        OneOfpayload::peer_upsert(PeerUpsert { peer_alias: 3, peer_id: vec![0, 36, 8, 1] }),
        OneOfpayload::connection_upsert(ConnectionUpsert {
            conn_alias: 1,
            peer_alias: 3,
            remote_addr: "/ip4/1.2.3.4/tcp/1234".to_owned(),
            local_addr: String::new(),
            direction: Direction::DIRECTION_OUT,
            transport_id: 0,
            security_id: 5,
            muxer_id: 70000,
            opened_at_ns: -42,
        }),
        OneOfpayload::connection_closed(ConnectionClosed { conn_alias: 1, closed_at_ns: 99 }),
        OneOfpayload::stream_upsert(StreamUpsert {
            stream_alias: 2,
            conn_alias: 1,
            direction: Direction::DIRECTION_IN,
            protocol_id: 7,
            opened_at_ns: 100,
        }),
        OneOfpayload::stream_closed(StreamClosed {
            stream_alias: 2,
            closed_at_ns: 200,
            reason: CloseReason::CLOSE_REASON_CONN_CLOSED,
        }),
        OneOfpayload::stream_chunk(StreamChunk { stream_alias: 2, direction: Direction::DIRECTION_OUT, data: vec![1; 200] }),
        OneOfpayload::none,
    ];
    for payload in records {
        let env = Envelope { seq: u64::MAX, observed_at_ns: i64::MIN, payload };
        let mut buf = Vec::new();
        env.write_message(&mut buf);
        let decoded: Envelope = decode_message(&buf).unwrap();
        assert_eq!(decoded, env);
    }
    let server = ServerHello { protocol_version: 3, source_id: "ingest-1".to_owned(), last_acked_seq: 12 };
    let mut buf = Vec::new();
    server.write_message(&mut buf);
    assert_eq!(decode_message::<ServerHello>(&buf), Ok(server));
}

#[test]
fn decode_fields_last_wins_and_unknown_skipped() {
    // last_acked_seq twice, then unknown fields of wire types 0, 1, 2 and 5.
    let bytes = [
        0x18, 0x05, 0x18, 0x07, // last_acked_seq = 5, then 7
        0x20, 0x96, 0x01, // field 4, varint
        0x29, 1, 2, 3, 4, 5, 6, 7, 8, // field 5, fixed64
        0x32, 0x02, 0xaa, 0xbb, // field 6, length-delimited
        0x3d, 1, 2, 3, 4, // field 7, fixed32
        0x08, 0x03, // protocol_version = 3
    ];
    let hello: ServerHello = decode_message(&bytes).unwrap();
    assert_eq!(hello, ServerHello { protocol_version: 3, source_id: String::new(), last_acked_seq: 7 });
    // An unknown enum number reads as the default.
    let chunk: StreamChunk = decode_message(&[0x10, 0x09]).unwrap();
    assert_eq!(chunk.direction, Direction::DIRECTION_UNKNOWN);
    // The empty buffer is the record with every field at its default.
    assert_eq!(decode_message::<ServerHello>(&[]).unwrap().last_acked_seq, 0);
}

#[test]
fn decode_errors() {
    // A truncated varint, and a string that runs past the buffer.
    assert_eq!(decode_message::<ServerHello>(&[0x18, 0x96]), Err(DecodeError::UnexpectedEndOfBuffer));
    assert_eq!(decode_message::<ServerHello>(&[0x12, 0x05, b'a']), Err(DecodeError::UnexpectedEndOfBuffer));
    // A string that is not UTF-8.
    assert_eq!(decode_message::<ServerHello>(&[0x12, 0x01, 0xff]), Err(DecodeError::Utf8));
    // Ten bytes of a varint with no end.
    assert_eq!(decode_message::<ServerHello>(&[0x18, 0x80, 0x80, 0x80, 0x80, 0x80, 0x80, 0x80, 0x80, 0x80, 0x80]), Err(DecodeError::Varint));
    // Group wire types, and wire types 6 and 7.
    assert_eq!(decode_message::<ServerHello>(&[0x23]), Err(DecodeError::Deprecated));
    assert_eq!(decode_message::<ServerHello>(&[0x24]), Err(DecodeError::Deprecated));
    assert_eq!(decode_message::<ServerHello>(&[0x26]), Err(DecodeError::UnknownWireType(6)));
    assert_eq!(decode_message::<ServerHello>(&[0x27]), Err(DecodeError::UnknownWireType(7)));
    // A skipped field longer than what is left of the message.
    assert_eq!(decode_message::<ServerHello>(&[0x29, 1, 2, 3]), Err(DecodeError::Varint));
    assert_eq!(decode_message::<ServerHello>(&[0x32, 0x05, 1]), Err(DecodeError::Varint));
    // A payload whose own fields are broken.
    assert_eq!(decode_message::<Envelope>(&[0xd2, 0x01, 0x02, 0x1a, 0x05]), Err(DecodeError::UnexpectedEndOfBuffer));
}

#[test]
fn default_messages_are_empty() {
    let env = Envelope::default();
    assert_eq!((env.seq, env.observed_at_ns), (0, 0));
    assert_eq!(env.payload, OneOfpayload::none);
    assert_eq!(env.get_size(), 0);
    let mut buf = Vec::new();
    env.write_message(&mut buf);
    assert!(buf.is_empty());
    assert_eq!(ClientHello::default().get_size(), 0);
    assert_eq!(ServerHello::default().get_size(), 0);
    assert_eq!(StringDef::default().get_size(), 0);
    assert_eq!(PeerUpsert::default().get_size(), 0);
    assert_eq!(ConnectionUpsert::default().get_size(), 0);
    assert_eq!(ConnectionClosed::default().get_size(), 0);
    assert_eq!(StreamUpsert::default().get_size(), 0);
    assert_eq!(StreamClosed::default().get_size(), 0);
    assert_eq!(StreamChunk::default().get_size(), 0);
    assert_eq!(SnapshotStart::default(), SnapshotStart {});
    assert_eq!(SnapshotEnd::default(), SnapshotEnd {});
    assert_eq!(StreamChunk::default().direction, Direction::DIRECTION_UNKNOWN);
    assert_eq!(StreamClosed::default().reason, CloseReason::CLOSE_REASON_UNKNOWN);
}

#[test]
fn predicted_size_is_what_is_written() {
    let env = Envelope {
        seq: 300,
        observed_at_ns: -5,
        payload: OneOfpayload::stream_chunk(StreamChunk {
            stream_alias: 7,
            direction: Direction::DIRECTION_OUT,
            data: vec![1; 200],
        }),
    };
    let mut buf = vec![9, 9];
    env.write_message(&mut buf);
    assert_eq!(buf.len(), 2 + env.get_size());
}
