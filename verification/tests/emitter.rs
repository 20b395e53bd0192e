use std::sync::Arc;

use tokio::sync::mpsc;
use wiretap::emitter::{CatchUp, Emitter};
use wiretap::messages::{
    CloseReason, Direction, Envelope, OneOfpayload, SnapshotEnd, SnapshotStart,
};

#[test]
fn seq_monotonically_increases() {
    let mut emitter = Emitter::new(16);
    let (tx, mut rx) = mpsc::channel::<Arc<Envelope>>(16);
    emitter.add_sink(tx);

    emitter.emit(OneOfpayload::snapshot_start(SnapshotStart {}));
    emitter.emit(OneOfpayload::snapshot_end(SnapshotEnd {}));

    let e1 = rx.try_recv().unwrap();
    let e2 = rx.try_recv().unwrap();
    assert_eq!(e1.seq, 1);
    assert_eq!(e2.seq, 2);
    assert!(e2.seq > e1.seq);
}

#[test]
fn ring_buffer_overflow() {
    let mut emitter = Emitter::new(4);
    for _ in 0..8 {
        emitter.emit(OneOfpayload::snapshot_start(SnapshotStart {}));
    }
    assert_eq!(emitter.ring_len(), 4);
    assert_eq!(emitter.ring_seq_at(0), 5);
    assert_eq!(emitter.ring_seq_at(3), 8);
}

#[test]
fn closed_emitter_drops() {
    let mut emitter = Emitter::new(16);
    let (tx, mut rx) = mpsc::channel::<Arc<Envelope>>(16);
    emitter.add_sink(tx);
    emitter.set_closed();
    emitter.emit(OneOfpayload::snapshot_start(SnapshotStart {}));
    assert!(rx.try_recv().is_err());
}

#[test]
fn zero_capacity_ring_keeps_latest() {
    let mut emitter = Emitter::new(0);
    for _ in 0..3 {
        emitter.emit(OneOfpayload::snapshot_end(SnapshotEnd {}));
    }
    assert_eq!(emitter.ring_len(), 1);
    assert_eq!(emitter.ring_seq_at(0), 3);
}

#[test]
fn every_sink_gets_every_envelope() {
    let mut emitter = Emitter::new(8);
    let (tx1, mut rx1) = mpsc::channel::<Arc<Envelope>>(4);
    let (tx2, mut rx2) = mpsc::channel::<Arc<Envelope>>(4);
    emitter.add_sink(tx1);
    emitter.add_sink(tx2);
    emitter.emit(OneOfpayload::snapshot_start(SnapshotStart {}));
    assert_eq!(rx1.try_recv().unwrap().seq, 1);
    assert_eq!(rx2.try_recv().unwrap().seq, 1);
}

#[test]
fn replay_returns_exactly_the_missed_events() {
    let mut emitter = Emitter::new(4);
    for _ in 0..6 {
        emitter.emit(OneOfpayload::snapshot_start(SnapshotStart {}));
    }
    // The ring holds 3..=6; a reader that stored up to 4 misses 5 and 6.
    match emitter.events_from_seq(4) {
        CatchUp::Replay(envs) => {
            let seqs: Vec<u64> = envs.iter().map(|e| e.seq).collect();
            assert_eq!(seqs, vec![5, 6]);
        }
        CatchUp::Snapshot(_) => panic!("expected a replay"),
    }
    // The oldest kept is 3, so a reader at 2 can still replay.
    match emitter.events_from_seq(2) {
        CatchUp::Replay(envs) => assert_eq!(envs.len(), 4),
        CatchUp::Snapshot(_) => panic!("expected a replay"),
    }
    // A reader that has everything gets an empty replay.
    match emitter.events_from_seq(6) {
        CatchUp::Replay(envs) => assert!(envs.is_empty()),
        CatchUp::Snapshot(_) => panic!("expected a replay"),
    }
}

#[test]
fn too_old_reader_gets_a_snapshot() {
    let mut emitter = Emitter::new(2);
    let peer = vec![7u8, 7, 7];
    let peer_alias = emitter.register_peer(&peer);
    let conn = emitter.register_connection(peer_alias, "/ip4/1.2.3.4/tcp/1", "", Direction::DIRECTION_OUT);
    let _stream = emitter.register_stream(conn, Direction::DIRECTION_IN, "/ipfs/id/1.0.0");
    // Events: peer, conn, string "/ipfs/id/1.0.0", stream: the ring keeps 3 and 4.
    match emitter.events_from_seq(1) {
        CatchUp::Snapshot(envs) => {
            // start, one string, peer, connection, stream, end
            assert_eq!(envs.len(), 6);
            assert!(envs.iter().all(|e| e.seq == 0));
            assert!(matches!(envs[0].payload, OneOfpayload::snapshot_start(_)));
            match &envs[1].payload {
                OneOfpayload::string_def(d) => {
                    assert_eq!(d.id, 0);
                    assert_eq!(d.value, "/ipfs/id/1.0.0");
                }
                _ => panic!("expected a string definition"),
            }
            assert!(matches!(envs[2].payload, OneOfpayload::peer_upsert(_)));
            assert!(matches!(envs[3].payload, OneOfpayload::connection_upsert(_)));
            match &envs[4].payload {
                OneOfpayload::stream_upsert(u) => assert_eq!(u.protocol_id, 0),
                _ => panic!("expected a stream"),
            }
            assert!(matches!(envs[5].payload, OneOfpayload::snapshot_end(_)));
        }
        CatchUp::Replay(_) => panic!("expected a snapshot"),
    }
}

#[test]
fn register_peer_announces_once() {
    let mut emitter = Emitter::new(16);
    let (tx, mut rx) = mpsc::channel::<Arc<Envelope>>(16);
    emitter.add_sink(tx);
    let a1 = emitter.register_peer(&[1, 2, 3]);
    let a2 = emitter.register_peer(&[1, 2, 3]);
    let a3 = emitter.register_peer(&[4]);
    assert_eq!(a1, 0);
    assert_eq!(a2, 0);
    assert_eq!(a3, 1);
    let e1 = rx.try_recv().unwrap();
    match &e1.payload {
        OneOfpayload::peer_upsert(u) => {
            assert_eq!(u.peer_alias, 0);
            assert_eq!(u.peer_id, vec![1, 2, 3]);
        }
        _ => panic!("expected a peer"),
    }
    let e2 = rx.try_recv().unwrap();
    assert_eq!(e2.seq, 2);
    assert!(rx.try_recv().is_err());
}

#[test]
fn close_connection_reports_streams_then_connection() {
    let mut emitter = Emitter::new(64);
    let p = emitter.register_peer(&[9]);
    let c = emitter.register_connection(p, "/ip4/1.1.1.1/tcp/1", "/ip4/0.0.0.0/tcp/2", Direction::DIRECTION_IN);
    let s1 = emitter.register_stream(c, Direction::DIRECTION_IN, "");
    let s2 = emitter.register_stream(c, Direction::DIRECTION_OUT, "");
    let (tx, mut rx) = mpsc::channel::<Arc<Envelope>>(16);
    emitter.add_sink(tx);
    emitter.close_connection(c);
    let mut closed_streams = Vec::new();
    for _ in 0..2 {
        match &rx.try_recv().unwrap().payload {
            OneOfpayload::stream_closed(sc) => {
                assert_eq!(sc.reason, CloseReason::CLOSE_REASON_CONN_CLOSED);
                closed_streams.push(sc.stream_alias);
            }
            _ => panic!("expected a stream closing"),
        }
    }
    assert_eq!(closed_streams, vec![s1, s2]);
    match &rx.try_recv().unwrap().payload {
        OneOfpayload::connection_closed(cc) => assert_eq!(cc.conn_alias, c),
        _ => panic!("expected the connection closing"),
    }
    // Closing again reports nothing.
    emitter.close_connection(c);
    assert!(rx.try_recv().is_err());
}

#[test]
fn set_stream_protocol_announces_name_and_stream() {
    let mut emitter = Emitter::new(64);
    let s = emitter.register_stream(0, Direction::DIRECTION_OUT, "");
    let (tx, mut rx) = mpsc::channel::<Arc<Envelope>>(16);
    emitter.add_sink(tx);
    emitter.set_stream_protocol(s, "/meshsub/1.1.0");
    match &rx.try_recv().unwrap().payload {
        OneOfpayload::string_def(d) => {
            assert_eq!(d.id, 1);
            assert_eq!(d.value, "/meshsub/1.1.0");
        }
        _ => panic!("expected a string definition"),
    }
    match &rx.try_recv().unwrap().payload {
        OneOfpayload::stream_upsert(u) => {
            assert_eq!(u.stream_alias, s);
            assert_eq!(u.protocol_id, 1);
        }
        _ => panic!("expected the stream"),
    }
    // The same protocol again changes nothing.
    emitter.set_stream_protocol(s, "/meshsub/1.1.0");
    assert!(rx.try_recv().is_err());
}

#[test]
fn close_stream_reports_once() {
    let mut emitter = Emitter::new(64);
    let s = emitter.register_stream(0, Direction::DIRECTION_OUT, "");
    let (tx, mut rx) = mpsc::channel::<Arc<Envelope>>(16);
    emitter.add_sink(tx);
    emitter.close_stream(s, CloseReason::CLOSE_REASON_RESET);
    match &rx.try_recv().unwrap().payload {
        OneOfpayload::stream_closed(c) => {
            assert_eq!(c.stream_alias, s);
            assert_eq!(c.reason, CloseReason::CLOSE_REASON_RESET);
        }
        _ => panic!("expected a stream closing"),
    }
    emitter.close_stream(s, CloseReason::CLOSE_REASON_RESET);
    assert!(rx.try_recv().is_err());
}

#[test]
fn counter_limits_are_exact() {
    let mut emitter = Emitter::new(4);
    assert!(emitter.has_room(u64::MAX - 1));
    assert!(!emitter.has_room(u64::MAX));
    emitter.emit(OneOfpayload::snapshot_start(SnapshotStart {}));
    assert!(emitter.has_room(u64::MAX - 2));
    assert!(!emitter.has_room(u64::MAX - 1));
    assert!(emitter.can_intern("/x") && emitter.can_intern_new());
    assert!(emitter.can_register_peer(&[1]) && emitter.can_add_connection() && emitter.can_add_stream());
    assert_eq!(emitter.open_streams(), 0);
}
