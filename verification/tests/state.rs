use libp2p_identity::PeerId;
use wiretap::messages::{CloseReason, Direction, OneOfpayload};
use wiretap::state::AliasTracker;

#[test]
fn peer_registration_idempotent() {
    let mut tracker = AliasTracker::new();
    let peer = PeerId::random();
    let (alias1, upsert1) = tracker.register_peer(&peer.to_bytes());
    let (alias2, upsert2) = tracker.register_peer(&peer.to_bytes());
    assert_eq!(alias1, alias2);
    assert!(upsert1.is_some());
    assert!(upsert2.is_none());
}

#[test]
fn close_connection_closes_orphan_streams() {
    let mut tracker = AliasTracker::new();
    let peer = PeerId::random();
    let (peer_alias, _) = tracker.register_peer(&peer.to_bytes());
    let (conn_alias, _) = tracker.register_connection(
        peer_alias,
        "/ip4/1.2.3.4/tcp/1234",
        "/ip4/0.0.0.0/tcp/5678",
        Direction::DIRECTION_OUT,
        0,
        0,
        0,
        100,
    );
    tracker.register_stream(conn_alias, Direction::DIRECTION_OUT, 0, 200);
    tracker.register_stream(conn_alias, Direction::DIRECTION_IN, 0, 300);

    let (conn_closed, stream_closeds) = tracker.close_connection(conn_alias, 400);
    assert!(conn_closed.is_some());
    assert_eq!(stream_closeds.len(), 2);
}

#[test]
fn snapshot_includes_all_entities() {
    let mut tracker = AliasTracker::new();
    let peer = PeerId::random();
    let (peer_alias, _) = tracker.register_peer(&peer.to_bytes());
    let (conn_alias, _) = tracker.register_connection(
        peer_alias,
        "/ip4/1.2.3.4/tcp/1234",
        "/ip4/0.0.0.0/tcp/5678",
        Direction::DIRECTION_OUT,
        0,
        0,
        0,
        100,
    );
    tracker.register_stream(conn_alias, Direction::DIRECTION_OUT, 0, 200);

    let snap = tracker.generate_snapshot();
    // SnapshotStart + PeerUpsert + ConnectionUpsert + StreamUpsert + SnapshotEnd
    assert_eq!(snap.len(), 5);
    assert!(matches!(snap[0], OneOfpayload::snapshot_start(_)));
    assert!(matches!(snap[1], OneOfpayload::peer_upsert(_)));
    assert!(matches!(snap[2], OneOfpayload::connection_upsert(_)));
    assert!(matches!(snap[3], OneOfpayload::stream_upsert(_)));
    assert!(matches!(snap[4], OneOfpayload::snapshot_end(_)));
}

#[test]
fn aliases_count_up_and_are_not_reused() {
    let mut tracker = AliasTracker::new();
    let (c0, u0) = tracker.register_connection(5, "r", "l", Direction::DIRECTION_IN, 1, 2, 3, 10);
    let (c1, _) = tracker.register_connection(5, "r", "l", Direction::DIRECTION_IN, 1, 2, 3, 11);
    assert_eq!((c0, c1), (0, 1));
    assert_eq!(u0.conn_alias, 0);
    assert_eq!(u0.peer_alias, 5);
    assert_eq!(u0.remote_addr, "r");
    assert_eq!(u0.local_addr, "l");
    assert_eq!((u0.transport_id, u0.security_id, u0.muxer_id, u0.opened_at_ns), (1, 2, 3, 10));
    tracker.close_connection(c0, 20);
    let (c2, _) = tracker.register_connection(5, "r", "l", Direction::DIRECTION_IN, 1, 2, 3, 12);
    assert_eq!(c2, 2);
}

#[test]
fn close_stream_then_again() {
    let mut tracker = AliasTracker::new();
    let (s, upsert) = tracker.register_stream(3, Direction::DIRECTION_IN, 7, 50);
    assert_eq!((upsert.stream_alias, upsert.conn_alias, upsert.protocol_id, upsert.opened_at_ns), (s, 3, 7, 50));
    let closed = tracker.close_stream(s, 60, CloseReason::CLOSE_REASON_CLOSE).unwrap();
    assert_eq!((closed.stream_alias, closed.closed_at_ns, closed.reason), (s, 60, CloseReason::CLOSE_REASON_CLOSE));
    assert!(tracker.close_stream(s, 61, CloseReason::CLOSE_REASON_CLOSE).is_none());
}

#[test]
fn set_stream_protocol_only_on_change() {
    let mut tracker = AliasTracker::new();
    let (s, _) = tracker.register_stream(1, Direction::DIRECTION_OUT, 0, 5);
    assert!(tracker.set_stream_protocol(s, 0).is_none());
    let u = tracker.set_stream_protocol(s, 4).unwrap();
    assert_eq!((u.stream_alias, u.conn_alias, u.protocol_id, u.opened_at_ns), (s, 1, 4, 5));
    assert!(tracker.set_stream_protocol(s, 4).is_none());
    assert!(tracker.set_stream_protocol(99, 4).is_none());
}

#[test]
fn close_connection_keeps_other_streams() {
    let mut tracker = AliasTracker::new();
    let (c0, _) = tracker.register_connection(0, "a", "b", Direction::DIRECTION_OUT, 0, 0, 0, 1);
    let (c1, _) = tracker.register_connection(0, "a", "b", Direction::DIRECTION_OUT, 0, 0, 0, 1);
    let (s0, _) = tracker.register_stream(c0, Direction::DIRECTION_OUT, 0, 2);
    let (s1, _) = tracker.register_stream(c1, Direction::DIRECTION_OUT, 0, 3);
    let (s2, _) = tracker.register_stream(c0, Direction::DIRECTION_IN, 0, 4);
    let (closed, streams) = tracker.close_connection(c0, 9);
    assert_eq!(closed.unwrap().conn_alias, c0);
    let aliases: Vec<u64> = streams.iter().map(|c| c.stream_alias).collect();
    assert_eq!(aliases, vec![s0, s2]);
    assert!(streams.iter().all(|c| c.reason == CloseReason::CLOSE_REASON_CONN_CLOSED && c.closed_at_ns == 9));
    let snap = tracker.generate_snapshot();
    // start, connection c1, stream s1, end
    assert_eq!(snap.len(), 4);
    match &snap[2] {
        OneOfpayload::stream_upsert(u) => assert_eq!(u.stream_alias, s1),
        _ => panic!("expected a stream"),
    }
    let (none, empty) = tracker.close_connection(c0, 10);
    assert!(none.is_none());
    assert!(empty.is_empty());
}
