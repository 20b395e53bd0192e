use wiretap::emitter::{CatchUp, Emitter};
use wiretap::messages::{CloseReason, Direction, OneOfpayload};
use wiretap::stream::{gather_prefix, ProtocolDetector, StreamTap, MAX_DETECT_BUF};

fn encode_ms_msg(msg: &[u8]) -> Vec<u8> {
    let mut len_buf = unsigned_varint::encode::usize_buffer();
    let encoded_len = unsigned_varint::encode::usize(msg.len(), &mut len_buf);
    let mut result = encoded_len.to_vec();
    result.extend_from_slice(msg);
    result
}

#[test]
fn detect_protocol_outbound() {
    let mut detector = ProtocolDetector::new(Direction::DIRECTION_OUT);
    let mut data = encode_ms_msg(b"/multistream/1.0.0\n");
    data.extend_from_slice(&encode_ms_msg(b"/meshsub/1.1.0\n"));
    let result = detector.feed_write(&data);
    assert_eq!(result.as_deref(), Some("/meshsub/1.1.0"));
    assert!(detector.is_done());
}

#[test]
fn detect_protocol_inbound() {
    let mut detector = ProtocolDetector::new(Direction::DIRECTION_IN);
    let mut data = encode_ms_msg(b"/multistream/1.0.0\n");
    data.extend_from_slice(&encode_ms_msg(b"/ipfs/id/1.0.0\n"));
    let result = detector.feed_read(&data);
    assert_eq!(result.as_deref(), Some("/ipfs/id/1.0.0"));
}

#[test]
fn detect_protocol_incremental() {
    let mut detector = ProtocolDetector::new(Direction::DIRECTION_OUT);
    let header = encode_ms_msg(b"/multistream/1.0.0\n");
    let proto = encode_ms_msg(b"/meshsub/1.1.0\n");
    assert!(detector.feed_write(&header).is_none());
    assert!(!detector.is_done());
    let result = detector.feed_write(&proto);
    assert_eq!(result.as_deref(), Some("/meshsub/1.1.0"));
}

#[test]
fn detect_ignores_wrong_direction() {
    let mut detector = ProtocolDetector::new(Direction::DIRECTION_OUT);
    let mut data = encode_ms_msg(b"/multistream/1.0.0\n");
    data.extend_from_slice(&encode_ms_msg(b"/meshsub/1.1.0\n"));
    assert!(detector.feed_read(&data).is_none());
    assert!(!detector.is_done());
}

#[test]
fn detect_overflow_gives_up() {
    let mut detector = ProtocolDetector::new(Direction::DIRECTION_OUT);
    let big_data = vec![0u8; MAX_DETECT_BUF + 1];
    assert!(detector.feed_write(&big_data).is_none());
    assert!(detector.is_done());
}

#[test]
fn detect_byte_at_a_time() {
    let mut detector = ProtocolDetector::new(Direction::DIRECTION_OUT);
    let mut data = encode_ms_msg(b"/multistream/1.0.0\n");
    data.extend_from_slice(&encode_ms_msg(b"/libp2p/circuit/relay/0.2.0/hop\n"));
    let mut found = None;
    for byte in &data {
        if let Some(proto) = detector.feed_write(std::slice::from_ref(byte)) {
            found = Some(proto);
            break;
        }
    }
    assert_eq!(found.as_deref(), Some("/libp2p/circuit/relay/0.2.0/hop"));
}

#[test]
fn detect_without_trailing_newline() {
    let mut detector = ProtocolDetector::new(Direction::DIRECTION_IN);
    let mut data = encode_ms_msg(b"/multistream/1.0.0\n");
    data.extend_from_slice(&encode_ms_msg(b"/yamux/1.0.0"));
    assert_eq!(detector.feed_read(&data).as_deref(), Some("/yamux/1.0.0"));
}

#[test]
fn detect_rejects_non_utf8_and_keeps_waiting() {
    let mut detector = ProtocolDetector::new(Direction::DIRECTION_OUT);
    let mut data = encode_ms_msg(b"/multistream/1.0.0\n");
    data.extend_from_slice(&encode_ms_msg(&[0xff, 0xfe, b'\n']));
    assert!(detector.feed_write(&data).is_none());
    assert!(!detector.is_done());
}

#[test]
fn detect_rejects_non_minimal_varint() {
    let mut detector = ProtocolDetector::new(Direction::DIRECTION_OUT);
    // Length 1 written in two bytes (0x81 0x00) is not minimal.
    let data = vec![0x81, 0x00, b'x', 0x02, b'a', b'\n'];
    assert!(detector.feed_write(&data).is_none());
    assert!(!detector.is_done());
}

#[test]
fn finished_detector_stays_silent() {
    let mut detector = ProtocolDetector::new(Direction::DIRECTION_OUT);
    let mut data = encode_ms_msg(b"/multistream/1.0.0\n");
    data.extend_from_slice(&encode_ms_msg(b"/meshsub/1.1.0\n"));
    assert!(detector.feed_write(&data).is_some());
    assert!(detector.feed_write(&data).is_none());
}

#[test]
fn gather_prefix_takes_the_first_bytes() {
    let a: &[u8] = &[1, 2, 3];
    let b: &[u8] = &[4, 5];
    let c: &[u8] = &[6];
    assert_eq!(gather_prefix(&[a, b, c], 4), vec![1, 2, 3, 4]);
    assert_eq!(gather_prefix(&[a, b, c], 6), vec![1, 2, 3, 4, 5, 6]);
    assert_eq!(gather_prefix(&[a, b, c], 10), vec![1, 2, 3, 4, 5, 6]);
    assert_eq!(gather_prefix(&[a, b, c], 0), Vec::<u8>::new());
    assert_eq!(gather_prefix(&[], 3), Vec::<u8>::new());
}

#[test]
fn tap_logs_chunks_and_learns_protocol() {
    let mut emitter = Emitter::new(64);
    let s = emitter.register_stream(0, Direction::DIRECTION_OUT, "");
    let mut tap = StreamTap::new(s, Direction::DIRECTION_OUT);
    let mut data = encode_ms_msg(b"/multistream/1.0.0\n");
    data.extend_from_slice(&encode_ms_msg(b"/meshsub/1.1.0\n"));
    tap.on_write(&mut emitter, &data);
    tap.on_read(&mut emitter, b"reply");
    tap.on_read(&mut emitter, b"");
    // events: "" def, stream, "/meshsub/1.1.0" def, stream again, write chunk, read chunk
    assert_eq!(emitter.ring_len(), 6);
    tap.on_close(&mut emitter, CloseReason::CLOSE_REASON_CLOSE);
    tap.on_close(&mut emitter, CloseReason::CLOSE_REASON_RESET);
    assert_eq!(emitter.ring_len(), 7);
}

#[test]
fn tap_logs_exactly_what_it_saw() {
    let mut emitter = Emitter::new(64);
    let s = emitter.register_stream(0, Direction::DIRECTION_IN, "");
    let mut tap = StreamTap::new(s, Direction::DIRECTION_IN);
    let mut data = encode_ms_msg(b"/multistream/1.0.0\n");
    data.extend_from_slice(&encode_ms_msg(b"/ipfs/id/1.0.0\n"));
    tap.on_read(&mut emitter, &data);
    tap.on_write(&mut emitter, b"ok");
    tap.on_close(&mut emitter, CloseReason::CLOSE_REASON_CLOSE);
    let events = match emitter.events_from_seq(0) {
        CatchUp::Replay(events) => events,
        CatchUp::Snapshot(_) => panic!("the ring holds every event"),
    };
    // "" def, stream; protocol def, stream again, one read chunk; one write chunk; close
    assert_eq!(events.len(), 7);
    match &events[2].payload {
        OneOfpayload::string_def(d) => assert_eq!((d.id, d.value.as_str()), (1, "/ipfs/id/1.0.0")),
        other => panic!("{other:?}"),
    }
    match &events[3].payload {
        OneOfpayload::stream_upsert(u) => assert_eq!((u.stream_alias, u.protocol_id), (s, 1)),
        other => panic!("{other:?}"),
    }
    match &events[4].payload {
        OneOfpayload::stream_chunk(c) => {
            assert_eq!((c.stream_alias, c.direction), (s, Direction::DIRECTION_IN));
            assert_eq!(c.data, data);
        }
        other => panic!("{other:?}"),
    }
    match &events[5].payload {
        OneOfpayload::stream_chunk(c) => {
            assert_eq!((c.direction, c.data.as_slice()), (Direction::DIRECTION_OUT, &b"ok"[..]));
        }
        other => panic!("{other:?}"),
    }
    match &events[6].payload {
        OneOfpayload::stream_closed(c) => {
            assert_eq!((c.stream_alias, c.reason), (s, CloseReason::CLOSE_REASON_CLOSE));
        }
        other => panic!("{other:?}"),
    }
}

#[test]
fn closed_tap_stays_silent() {
    let mut emitter = Emitter::new(64);
    let s = emitter.register_stream(0, Direction::DIRECTION_OUT, "");
    let mut tap = StreamTap::new(s, Direction::DIRECTION_OUT);
    tap.on_close(&mut emitter, CloseReason::CLOSE_REASON_CLOSE);
    let before = emitter.ring_seq_at(emitter.ring_len() - 1);
    // a second close (as a drop would make) and later bytes log nothing
    tap.on_close(&mut emitter, CloseReason::CLOSE_REASON_RESET);
    tap.on_write(&mut emitter, b"late");
    tap.on_read(&mut emitter, b"late");
    assert_eq!(emitter.ring_seq_at(emitter.ring_len() - 1), before);
    assert_eq!(emitter.open_streams(), 0);
}

#[test]
fn detector_reports_only_once() {
    let mut detector = ProtocolDetector::new(Direction::DIRECTION_OUT);
    let mut data = encode_ms_msg(b"/multistream/1.0.0\n");
    data.extend_from_slice(&encode_ms_msg(b"/ipfs/ping/1.0.0\n"));
    assert_eq!(detector.feed_write(&data).as_deref(), Some("/ipfs/ping/1.0.0"));
    assert!(detector.is_done());
    assert_eq!(detector.feed_write(&data), None);
    assert!(detector.is_done());
}

#[test]
fn tap_fits_while_ids_are_left() {
    let mut emitter = Emitter::new(8);
    let s = emitter.register_stream(0, Direction::DIRECTION_OUT, "");
    let tap = StreamTap::new(s, Direction::DIRECTION_OUT);
    let mut data = encode_ms_msg(b"/multistream/1.0.0\n");
    data.extend_from_slice(&encode_ms_msg(b"/ipfs/ping/1.0.0\n"));
    assert!(tap.fits(&emitter, &data, Direction::DIRECTION_OUT));
    assert!(tap.fits(&emitter, &data, Direction::DIRECTION_IN));
}
