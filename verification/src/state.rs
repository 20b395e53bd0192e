//! The live peers, connections and streams, each under a small alias, and
//! the snapshot that lets a reader who missed events catch up.
use vstd::prelude::*;

use crate::bytes::{bytes_equal, copy_bytes};
use crate::intern::interned;
use crate::messages::{
    CloseReason, ConnectionClosed, ConnectionUpsert, Direction, OneOfpayload, PeerUpsert,
    SnapshotEnd, SnapshotStart, StreamClosed, StreamUpsert,
};

verus! {

/// What the tracker knows of an open connection.
pub struct ConnectionRecord {
    pub peer_alias: u64,
    pub remote_addr: Seq<char>,
    pub local_addr: Seq<char>,
    pub direction: Direction,
    pub transport_id: u32,
    pub security_id: u32,
    pub muxer_id: u32,
    pub opened_at_ns: i64,
}

struct ConnectionInfo {
    peer_alias: u64,
    remote_addr: String,
    local_addr: String,
    direction: Direction,
    transport_id: u32,
    security_id: u32,
    muxer_id: u32,
    opened_at_ns: i64,
}

impl ConnectionInfo {
    spec fn record(&self) -> ConnectionRecord {
        ConnectionRecord {
            peer_alias: self.peer_alias,
            remote_addr: self.remote_addr@,
            local_addr: self.local_addr@,
            direction: self.direction,
            transport_id: self.transport_id,
            security_id: self.security_id,
            muxer_id: self.muxer_id,
            opened_at_ns: self.opened_at_ns,
        }
    }
}

/// What the tracker knows of an open stream.
#[derive(Debug, PartialEq, Eq, Clone, Copy, Structural)]
pub struct StreamInfo {
    pub conn_alias: u64,
    pub direction: Direction,
    pub protocol_id: u32,
    pub opened_at_ns: i64,
}

/// The tracker's state: peers by alias (a peer's alias is its index), the
/// open connections and streams with their aliases in increasing order, and
/// the next aliases to hand out.
pub struct TrackerView {
    pub peers: Seq<Seq<u8>>,
    pub next_conn_alias: u64,
    pub next_stream_alias: u64,
    pub connections: Seq<(u64, ConnectionRecord)>,
    pub streams: Seq<(u64, StreamInfo)>,
}

/// The state of a tracker that has seen nothing.
pub open spec fn empty_tracker() -> TrackerView {
    TrackerView {
        peers: Seq::empty(),
        next_conn_alias: 0,
        next_stream_alias: 0,
        connections: Seq::empty(),
        streams: Seq::empty(),
    }
}

/// Aliases strictly increase along `s` and stay below `bound`.
pub open spec fn aliases_ordered<T>(s: Seq<(u64, T)>, bound: u64) -> bool {
    &&& forall|i: int, j: int| 0 <= i < j < s.len() ==> s[i].0 < s[j].0
    &&& forall|i: int| 0 <= i < s.len() ==> s[i].0 < bound
}

/// Whether alias `a` is held by an entry of `s`.
pub open spec fn has_alias<T>(s: Seq<(u64, T)>, a: u64) -> bool {
    exists|i: int| 0 <= i < s.len() && s[i].0 == a
}

/// The index of alias `a` in `s`.
pub open spec fn alias_index<T>(s: Seq<(u64, T)>, a: u64) -> int {
    choose|i: int| 0 <= i < s.len() && s[i].0 == a
}

impl TrackerView {
    pub open spec fn wf(&self) -> bool {
        &&& self.peers.no_duplicates()
        &&& self.peers.len() <= u64::MAX
        &&& aliases_ordered(self.connections, self.next_conn_alias)
        &&& aliases_ordered(self.streams, self.next_stream_alias)
    }
}

/// `u` announces connection `alias` with record `r`.
pub open spec fn connection_upsert_is(u: ConnectionUpsert, alias: u64, r: ConnectionRecord) -> bool {
    &&& u.conn_alias == alias
    &&& u.peer_alias == r.peer_alias
    &&& u.remote_addr@ == r.remote_addr
    &&& u.local_addr@ == r.local_addr
    &&& u.direction == r.direction
    &&& u.transport_id == r.transport_id
    &&& u.security_id == r.security_id
    &&& u.muxer_id == r.muxer_id
    &&& u.opened_at_ns == r.opened_at_ns
}

/// `u` announces stream `alias` with record `info`.
pub open spec fn stream_upsert_of(alias: u64, info: StreamInfo) -> StreamUpsert {
    StreamUpsert {
        stream_alias: alias,
        conn_alias: info.conn_alias,
        direction: info.direction,
        protocol_id: info.protocol_id,
        opened_at_ns: info.opened_at_ns,
    }
}

/// Holds of the streams on connection `c`.
pub open spec fn on_connection(c: u64) -> spec_fn((u64, StreamInfo)) -> bool {
    |e: (u64, StreamInfo)| e.1.conn_alias == c
}

/// Holds of the streams on other connections than `c`.
pub open spec fn off_connection(c: u64) -> spec_fn((u64, StreamInfo)) -> bool {
    |e: (u64, StreamInfo)| e.1.conn_alias != c
}

/// The streams that do not belong to connection `c`.
pub open spec fn streams_not_of(s: Seq<(u64, StreamInfo)>, c: u64) -> Seq<(u64, StreamInfo)> {
    s.filter(off_connection(c))
}

/// The streams that belong to connection `c`.
pub open spec fn streams_of(s: Seq<(u64, StreamInfo)>, c: u64) -> Seq<(u64, StreamInfo)> {
    s.filter(on_connection(c))
}

/// The closing events of the streams in `s`, in order.
pub open spec fn closed_events(s: Seq<(u64, StreamInfo)>, closed_at_ns: i64, reason: CloseReason) -> Seq<
    StreamClosed,
> {
    s.map_values(|e: (u64, StreamInfo)| StreamClosed { stream_alias: e.0, closed_at_ns, reason })
}

/// The element of a snapshot that announces peer `alias`.
pub open spec fn is_peer_payload(p: OneOfpayload, alias: u64, peer_id: Seq<u8>) -> bool {
    p matches OneOfpayload::peer_upsert(u) && u.peer_alias == alias && u.peer_id@ == peer_id
}

/// The element of a snapshot that announces connection `e`.
pub open spec fn is_connection_payload(p: OneOfpayload, e: (u64, ConnectionRecord)) -> bool {
    p matches OneOfpayload::connection_upsert(u) && connection_upsert_is(u, e.0, e.1)
}

/// What a snapshot of `v` holds: a start marker, every peer, connection and
/// stream in alias order, and an end marker.
pub open spec fn is_snapshot_of(s: Seq<OneOfpayload>, v: TrackerView) -> bool {
    let np = v.peers.len() as int;
    let nc = v.connections.len() as int;
    let ns = v.streams.len() as int;
    &&& s.len() == np + nc + ns + 2
    &&& s[0] == OneOfpayload::snapshot_start(SnapshotStart {})
    &&& forall|i: int| 0 <= i < np ==> is_peer_payload(#[trigger] s[1 + i], i as u64, v.peers[i])
    &&& forall|i: int|
        0 <= i < nc ==> is_connection_payload(#[trigger] s[1 + np + i], v.connections[i])
    &&& forall|i: int|
        0 <= i < ns ==> #[trigger] s[1 + np + nc + i] == OneOfpayload::stream_upsert(
            stream_upsert_of(v.streams[i].0, v.streams[i].1),
        )
    &&& s[np + nc + ns + 1] == OneOfpayload::snapshot_end(SnapshotEnd {})
}

/// Hands out aliases and remembers what is open.
pub struct AliasTracker {
    peers: Vec<Vec<u8>>,
    next_conn_alias: u64,
    next_stream_alias: u64,
    connections: Vec<(u64, ConnectionInfo)>,
    streams: Vec<(u64, StreamInfo)>,
}

impl View for AliasTracker {
    type V = TrackerView;

    closed spec fn view(&self) -> TrackerView {
        TrackerView {
            peers: self.peers@.map_values(|p: Vec<u8>| p@),
            next_conn_alias: self.next_conn_alias,
            next_stream_alias: self.next_stream_alias,
            connections: self.connections@.map_values(
                |e: (u64, ConnectionInfo)| (e.0, e.1.record()),
            ),
            streams: self.streams@,
        }
    }
}

impl AliasTracker {
    /// The tracker is well formed: its view is.
    pub open spec fn wf(&self) -> bool {
        &&& self@.wf()
    }

    pub fn new() -> (r: Self)
        ensures
            r.wf(),
            r@ == empty_tracker(),
    {
        let r = AliasTracker {
            peers: Vec::new(),
            next_conn_alias: 0,
            next_stream_alias: 0,
            connections: Vec::new(),
            streams: Vec::new(),
        };
        proof {
            assert(r@.peers =~= Seq::<Seq<u8>>::empty());
            assert(r@.connections =~= Seq::<(u64, ConnectionRecord)>::empty());
        }
        r
    }

    /// The alias of the peer with these identity bytes, registering it
    /// first if it is new. A new peer gets the next alias (the number of
    /// peers so far) and comes back with its announcement.
    pub fn register_peer(&mut self, peer_id: &[u8]) -> (r: (u64, Option<PeerUpsert>))
        requires
            old(self).wf(),
            old(self)@.peers.contains(peer_id@) || old(self)@.peers.len() < u64::MAX,
        ensures
            final(self).wf(),
            final(self)@.next_conn_alias == old(self)@.next_conn_alias,
            final(self)@.next_stream_alias == old(self)@.next_stream_alias,
            final(self)@.connections == old(self)@.connections,
            final(self)@.streams == old(self)@.streams,
            (final(self)@.peers, r.0 as nat, r.1 is Some) == interned(old(self)@.peers, peer_id@),
            r.1 matches Some(u) ==> u.peer_alias == r.0 && u.peer_id@ == peer_id@,
    {
        let ghost peers = self@.peers;
        let mut i: usize = 0;
        while i < self.peers.len()
            invariant
                i <= self.peers.len(),
                self@.peers == peers,
                self.wf(),
                peers.no_duplicates(),
                peers.len() <= u64::MAX,
                forall|j: int| 0 <= j < i ==> peers[j] != peer_id@,
            decreases self.peers.len() - i,
        {
            proof {
                assert(peers[i as int] == self.peers@[i as int]@);
            }
            if bytes_equal(self.peers[i].as_slice(), peer_id) {
                proof {
                    let k = peers.index_of(peer_id@);
                    assert(peers[k] == peer_id@ && 0 <= k < peers.len());
                    assert(k == i);
                }
                return (i as u64, None);
            }
            i = i + 1;
        }
        proof {
            assert(!peers.contains(peer_id@));
        }
        let alias = self.peers.len() as u64;
        self.peers.push(copy_bytes(peer_id));
        proof {
            assert(self@.peers =~= peers.push(peer_id@));
            assert forall|a: int, b: int|
                0 <= a < b < self@.peers.len() implies self@.peers[a] != self@.peers[b] by {
                if b == peers.len() {
                    assert(peers[a] != peer_id@);
                }
            }
        }
        (alias, Some(PeerUpsert { peer_alias: alias, peer_id: copy_bytes(peer_id) }))
    }

    /// Records a new connection under the next connection alias and
    /// returns the alias with the connection's announcement.
    pub fn register_connection(
        &mut self,
        peer_alias: u64,
        remote_addr: &str,
        local_addr: &str,
        direction: Direction,
        transport_id: u32,
        security_id: u32,
        muxer_id: u32,
        opened_at_ns: i64,
    ) -> (r: (u64, ConnectionUpsert))
        requires
            old(self).wf(),
            old(self)@.next_conn_alias < u64::MAX,
        ensures
            final(self).wf(),
            ({
                let rec = ConnectionRecord {
                    peer_alias,
                    remote_addr: remote_addr@,
                    local_addr: local_addr@,
                    direction,
                    transport_id,
                    security_id,
                    muxer_id,
                    opened_at_ns,
                };
                &&& r.0 == old(self)@.next_conn_alias
                &&& final(self)@.next_conn_alias == r.0 + 1
                &&& final(self)@.connections == old(self)@.connections.push((r.0, rec))
                &&& connection_upsert_is(r.1, r.0, rec)
            }),
            r.1.conn_alias == r.0,
            r.1.peer_alias == peer_alias,
            r.1.remote_addr@ == remote_addr@,
            r.1.local_addr@ == local_addr@,
            r.1.direction == direction,
            r.1.transport_id == transport_id,
            r.1.security_id == security_id,
            r.1.muxer_id == muxer_id,
            r.1.opened_at_ns == opened_at_ns,
            final(self)@.peers == old(self)@.peers,
            final(self)@.next_stream_alias == old(self)@.next_stream_alias,
            final(self)@.streams == old(self)@.streams,
    {
        let alias = self.next_conn_alias;
        self.next_conn_alias = self.next_conn_alias + 1;
        let ghost old_conns = self@.connections;
        self.connections.push(
            (
                alias,
                ConnectionInfo {
                    peer_alias,
                    remote_addr: remote_addr.to_owned(),
                    local_addr: local_addr.to_owned(),
                    direction,
                    transport_id,
                    security_id,
                    muxer_id,
                    opened_at_ns,
                },
            ),
        );
        let upsert = ConnectionUpsert {
            conn_alias: alias,
            peer_alias,
            remote_addr: remote_addr.to_owned(),
            local_addr: local_addr.to_owned(),
            direction,
            transport_id,
            security_id,
            muxer_id,
            opened_at_ns,
        };
        proof {
            let rec = ConnectionRecord {
                peer_alias,
                remote_addr: remote_addr@,
                local_addr: local_addr@,
                direction,
                transport_id,
                security_id,
                muxer_id,
                opened_at_ns,
            };
            assert(self@.connections =~= old_conns.push((alias, rec)));
        }
        (alias, upsert)
    }

    /// Records a new stream under the next stream alias and returns the
    /// alias with the stream's announcement.
    pub fn register_stream(
        &mut self,
        conn_alias: u64,
        direction: Direction,
        protocol_id: u32,
        opened_at_ns: i64,
    ) -> (r: (u64, StreamUpsert))
        requires
            old(self).wf(),
            old(self)@.next_stream_alias < u64::MAX,
        ensures
            final(self).wf(),
            ({
                let info = StreamInfo { conn_alias, direction, protocol_id, opened_at_ns };
                &&& r.0 == old(self)@.next_stream_alias
                &&& final(self)@.next_stream_alias == r.0 + 1
                &&& final(self)@.streams == old(self)@.streams.push((r.0, info))
                &&& r.1 == stream_upsert_of(r.0, info)
            }),
            r.1.stream_alias == r.0,
            r.1.conn_alias == conn_alias,
            r.1.direction == direction,
            r.1.protocol_id == protocol_id,
            r.1.opened_at_ns == opened_at_ns,
            final(self)@.peers == old(self)@.peers,
            final(self)@.next_conn_alias == old(self)@.next_conn_alias,
            final(self)@.connections == old(self)@.connections,
    {
        let alias = self.next_stream_alias;
        self.next_stream_alias = self.next_stream_alias + 1;
        let info = StreamInfo { conn_alias, direction, protocol_id, opened_at_ns };
        self.streams.push((alias, info));
        (
            alias,
            StreamUpsert { stream_alias: alias, conn_alias, direction, protocol_id, opened_at_ns },
        )
    }

    /// Whether the peer with these identity bytes is registered.
    pub fn knows_peer(&self, peer_id: &[u8]) -> (r: bool)
        ensures
            r == self@.peers.contains(peer_id@),
    {
        let mut i: usize = 0;
        while i < self.peers.len()
            invariant
                i <= self.peers.len(),
                forall|j: int| 0 <= j < i ==> self@.peers[j] != peer_id@,
            decreases self.peers.len() - i,
        {
            proof {
                assert(self@.peers[i as int] == self.peers@[i as int]@);
            }
            if bytes_equal(self.peers[i].as_slice(), peer_id) {
                proof {
                    assert(self@.peers[i as int] == peer_id@);
                }
                return true;
            }
            i = i + 1;
        }
        false
    }

    /// How many streams are open.
    pub fn stream_count(&self) -> (n: usize)
        ensures
            n == self@.streams.len(),
    {
        self.streams.len()
    }

    /// How many peers are registered.
    pub fn peer_count(&self) -> (n: usize)
        ensures
            n == self@.peers.len(),
    {
        self.peers.len()
    }

    /// The alias the next connection gets.
    pub fn next_conn_alias(&self) -> (a: u64)
        ensures
            a == self@.next_conn_alias,
    {
        self.next_conn_alias
    }

    /// The alias the next stream gets.
    pub fn next_stream_alias(&self) -> (a: u64)
        ensures
            a == self@.next_stream_alias,
    {
        self.next_stream_alias
    }

    fn find_stream(&self, stream_alias: u64) -> (r: Option<usize>)
        requires
            self.wf(),
        ensures
            match r {
                Some(i) => i < self@.streams.len() && self@.streams[i as int].0 == stream_alias,
                None => !has_alias(self@.streams, stream_alias),
            },
    {
        let mut i: usize = 0;
        while i < self.streams.len()
            invariant
                i <= self.streams.len(),
                forall|j: int| 0 <= j < i ==> self.streams@[j].0 != stream_alias,
            decreases self.streams.len() - i,
        {
            if self.streams[i].0 == stream_alias {
                return Some(i);
            }
            i = i + 1;
        }
        None
    }

    /// Sets the protocol of an open stream. Returns the stream's new
    /// announcement, or `None` (changing nothing) when there is no such
    /// stream or it already has this protocol.
    pub fn set_stream_protocol(&mut self, stream_alias: u64, protocol_id: u32) -> (r: Option<
        StreamUpsert,
    >)
        requires
            old(self).wf(),
        ensures
            final(self).wf(),
            final(self)@.peers == old(self)@.peers,
            final(self)@.next_conn_alias == old(self)@.next_conn_alias,
            final(self)@.next_stream_alias == old(self)@.next_stream_alias,
            final(self)@.connections == old(self)@.connections,
            ({
                let s = old(self)@.streams;
                let i = alias_index(s, stream_alias);
                if has_alias(s, stream_alias) && s[i].1.protocol_id != protocol_id {
                    let info = StreamInfo { protocol_id, ..s[i].1 };
                    &&& final(self)@.streams == s.update(i, (stream_alias, info))
                    &&& r == Some(stream_upsert_of(stream_alias, info))
                    &&& r matches Some(u) && u.stream_alias == stream_alias && u.conn_alias
                        == s[i].1.conn_alias && u.direction == s[i].1.direction && u.protocol_id
                        == protocol_id && u.opened_at_ns == s[i].1.opened_at_ns
                } else {
                    &&& final(self)@.streams == s
                    &&& r is None
                }
            }),
    {
        match self.find_stream(stream_alias) {
            None => None,
            Some(i) => {
                proof {
                    let k = alias_index(self@.streams, stream_alias);
                    assert(0 <= k < self@.streams.len() && self@.streams[k].0 == stream_alias);
                    if k < i {
                        assert(self@.streams[k].0 < self@.streams[i as int].0);
                    }
                    if i < k {
                        assert(self@.streams[i as int].0 < self@.streams[k].0);
                    }
                    assert(k == i);
                }
                let info = self.streams[i].1;
                if info.protocol_id == protocol_id {
                    return None;
                }
                let new_info = StreamInfo { protocol_id, ..info };
                self.streams.set(i, (stream_alias, new_info));
                Some(
                    StreamUpsert {
                        stream_alias,
                        conn_alias: info.conn_alias,
                        direction: info.direction,
                        protocol_id,
                        opened_at_ns: info.opened_at_ns,
                    },
                )
            },
        }
    }

    /// Forgets an open stream. Returns its closing event, or `None`
    /// (changing nothing) when there is no such stream.
    pub fn close_stream(&mut self, stream_alias: u64, closed_at_ns: i64, reason: CloseReason) -> (r:
        Option<StreamClosed>)
        requires
            old(self).wf(),
        ensures
            final(self).wf(),
            final(self)@.peers == old(self)@.peers,
            final(self)@.next_conn_alias == old(self)@.next_conn_alias,
            final(self)@.next_stream_alias == old(self)@.next_stream_alias,
            final(self)@.connections == old(self)@.connections,
            ({
                let s = old(self)@.streams;
                if has_alias(s, stream_alias) {
                    &&& final(self)@.streams == s.remove(alias_index(s, stream_alias))
                    &&& r == Some(StreamClosed { stream_alias, closed_at_ns, reason })
                } else {
                    &&& final(self)@.streams == s
                    &&& r is None
                }
            }),
    {
        match self.find_stream(stream_alias) {
            None => None,
            Some(i) => {
                proof {
                    let k = alias_index(self@.streams, stream_alias);
                    assert(0 <= k < self@.streams.len() && self@.streams[k].0 == stream_alias);
                    if k < i {
                        assert(self@.streams[k].0 < self@.streams[i as int].0);
                    }
                    if i < k {
                        assert(self@.streams[i as int].0 < self@.streams[k].0);
                    }
                    assert(k == i);
                }
                let ghost old_streams = self@.streams;
                self.streams.remove(i);
                proof {
                    assert(self@.streams =~= old_streams.remove(i as int));
                    assert forall|a: int, b: int|
                        0 <= a < b < self@.streams.len() implies self@.streams[a].0
                        < self@.streams[b].0 by {
                        let a2 = if a < i { a } else { a + 1 };
                        let b2 = if b < i { b } else { b + 1 };
                        assert(self@.streams[a] == old_streams[a2]);
                        assert(self@.streams[b] == old_streams[b2]);
                    }
                    assert forall|a: int| 0 <= a < self@.streams.len() implies self@.streams[a].0
                        < self@.next_stream_alias by {
                        let a2 = if a < i { a } else { a + 1 };
                        assert(self@.streams[a] == old_streams[a2]);
                    }
                }
                Some(StreamClosed { stream_alias, closed_at_ns, reason })
            },
        }
    }

    fn find_connection(&self, conn_alias: u64) -> (r: Option<usize>)
        requires
            self.wf(),
        ensures
            match r {
                Some(i) => i < self@.connections.len() && i as int == alias_index(
                    self@.connections,
                    conn_alias,
                ) && has_alias(self@.connections, conn_alias),
                None => !has_alias(self@.connections, conn_alias),
            },
    {
        let mut i: usize = 0;
        while i < self.connections.len()
            invariant
                i <= self.connections.len(),
                self.wf(),
                forall|j: int| 0 <= j < i ==> self@.connections[j].0 != conn_alias,
            decreases self.connections.len() - i,
        {
            proof {
                assert(self@.connections[i as int].0 == self.connections@[i as int].0);
            }
            if self.connections[i].0 == conn_alias {
                proof {
                    let k = alias_index(self@.connections, conn_alias);
                    assert(self@.connections[i as int].0 == conn_alias);
                    assert(0 <= k < self@.connections.len() && self@.connections[k].0 == conn_alias);
                    if k < i {
                        assert(self@.connections[k].0 < self@.connections[i as int].0);
                    }
                    if i < k {
                        assert(self@.connections[i as int].0 < self@.connections[k].0);
                    }
                }
                return Some(i);
            }
            i = i + 1;
        }
        None
    }

    /// Forgets a connection and every stream still open on it. Returns the
    /// connection's closing event (`None` when there is no such connection)
    /// and a closing event for each of its streams, in alias order.
    pub fn close_connection(&mut self, conn_alias: u64, closed_at_ns: i64) -> (r: (
        Option<ConnectionClosed>,
        Vec<StreamClosed>,
    ))
        requires
            old(self).wf(),
        ensures
            final(self).wf(),
            final(self)@.peers == old(self)@.peers,
            final(self)@.next_conn_alias == old(self)@.next_conn_alias,
            final(self)@.next_stream_alias == old(self)@.next_stream_alias,
            final(self)@.streams == streams_not_of(old(self)@.streams, conn_alias),
            r.1@ == closed_events(
                streams_of(old(self)@.streams, conn_alias),
                closed_at_ns,
                CloseReason::CLOSE_REASON_CONN_CLOSED,
            ),
            r.1@.len() == streams_of(old(self)@.streams, conn_alias).len(),
            forall|k: int|
                0 <= k < r.1@.len() ==> (#[trigger] r.1@[k]).stream_alias == streams_of(
                    old(self)@.streams,
                    conn_alias,
                )[k].0 && r.1@[k].closed_at_ns == closed_at_ns && r.1@[k].reason
                    == CloseReason::CLOSE_REASON_CONN_CLOSED,
            ({
                let c = old(self)@.connections;
                if has_alias(c, conn_alias) {
                    &&& final(self)@.connections == c.remove(alias_index(c, conn_alias))
                    &&& r.0 == Some(ConnectionClosed { conn_alias, closed_at_ns })
                } else {
                    &&& final(self)@.connections == c
                    &&& r.0 is None
                }
            }),
    {
        let ghost old_streams = self@.streams;
        let ghost keep = off_connection(conn_alias);
        let ghost drop = on_connection(conn_alias);
        let reason = CloseReason::CLOSE_REASON_CONN_CLOSED;
        let mut kept: Vec<(u64, StreamInfo)> = Vec::new();
        let mut closed: Vec<StreamClosed> = Vec::new();
        let mut i: usize = 0;
        proof {
            assert(old_streams.take(0) =~= Seq::<(u64, StreamInfo)>::empty());
            assert(closed@ =~= closed_events(old_streams.take(0).filter(drop), closed_at_ns, reason));
        }
        while i < self.streams.len()
            invariant
                i <= self.streams.len(),
                self@.streams == old_streams,
                self.wf(),
                keep == off_connection(conn_alias),
                drop == on_connection(conn_alias),
                kept@ == old_streams.take(i as int).filter(keep),
                closed@ == closed_events(old_streams.take(i as int).filter(drop), closed_at_ns, reason),
                forall|a: int, b: int| 0 <= a < b < kept@.len() ==> kept@[a].0 < kept@[b].0,
                forall|a: int| 0 <= a < kept@.len() ==> kept@[a].0 < self@.next_stream_alias,
                forall|a: int, j: int|
                    0 <= a < kept@.len() && i <= j < old_streams.len() ==> kept@[a].0
                        < old_streams[j].0,
            decreases self.streams.len() - i,
        {
            let e = self.streams[i];
            let ghost prev_closed = closed@;
            proof {
                assert(old_streams.take(i + 1) =~= old_streams.take(i as int).push(e));
                old_streams.take(i as int).lemma_filter_push(e, keep);
                old_streams.take(i as int).lemma_filter_push(e, drop);
            }
            proof {
                assert(e == old_streams[i as int]);
                assert(keep(e) == (e.1.conn_alias != conn_alias));
                assert(drop(e) == (e.1.conn_alias == conn_alias));
            }
            if e.1.conn_alias == conn_alias {
                closed.push(StreamClosed { stream_alias: e.0, closed_at_ns, reason });
                proof {
                    let pf = old_streams.take(i as int).filter(drop);
                    assert(old_streams.take(i + 1).filter(drop) == pf.push(e));
                    assert(closed@ =~= prev_closed.push(StreamClosed { stream_alias: e.0, closed_at_ns, reason }));
                    assert(closed@ =~= closed_events(
                        old_streams.take(i + 1).filter(drop),
                        closed_at_ns,
                        reason,
                    ));
                }
            } else {
                kept.push(e);
            }
            i = i + 1;
        }
        proof {
            assert(old_streams.take(i as int) =~= old_streams);
        }
        self.streams = kept;
        match self.find_connection(conn_alias) {
            None => (None, closed),
            Some(k) => {
                let ghost old_conns = self@.connections;
                self.connections.remove(k);
                proof {
                    assert(self@.connections =~= old_conns.remove(k as int));
                    assert forall|a: int, b: int|
                        0 <= a < b < self@.connections.len() implies self@.connections[a].0
                        < self@.connections[b].0 by {
                        let a2 = if a < k { a } else { a + 1 };
                        let b2 = if b < k { b } else { b + 1 };
                        assert(self@.connections[a] == old_conns[a2]);
                        assert(self@.connections[b] == old_conns[b2]);
                    }
                    assert forall|a: int| 0 <= a < self@.connections.len() implies self@.connections[a].0
                        < self@.next_conn_alias by {
                        let a2 = if a < k { a } else { a + 1 };
                        assert(self@.connections[a] == old_conns[a2]);
                    }
                }
                (Some(ConnectionClosed { conn_alias, closed_at_ns }), closed)
            },
        }
    }

    /// The whole state as a run of announcements that a reader who missed
    /// events can start from: see [`is_snapshot_of`].
    pub fn generate_snapshot(&self) -> (payloads: Vec<OneOfpayload>)
        requires
            self.wf(),
        ensures
            is_snapshot_of(payloads@, self@),
    {
        let ghost v = self@;
        let ghost np = v.peers.len() as int;
        let ghost nc = v.connections.len() as int;
        let mut payloads: Vec<OneOfpayload> = Vec::new();
        payloads.push(OneOfpayload::snapshot_start(SnapshotStart {}));
        let mut i: usize = 0;
        while i < self.peers.len()
            invariant
                i <= self.peers.len(),
                self@ == v,
                v.wf(),
                payloads@.len() == 1 + i,
                payloads@[0] == OneOfpayload::snapshot_start(SnapshotStart {}),
                forall|j: int| 0 <= j < i ==> is_peer_payload(#[trigger] payloads@[1 + j], j as u64, v.peers[j]),
            decreases self.peers.len() - i,
        {
            proof {
                assert(v.peers[i as int] == self.peers@[i as int]@);
            }
            let id = copy_bytes(self.peers[i].as_slice());
            let ghost old_p = payloads@;
            payloads.push(OneOfpayload::peer_upsert(PeerUpsert { peer_alias: i as u64, peer_id: id }));
            proof {
                assert forall|j: int| 0 <= j <= i implies is_peer_payload(
                    #[trigger] payloads@[1 + j],
                    j as u64,
                    v.peers[j],
                ) by {
                    if j < i {
                        assert(payloads@[1 + j] == old_p[1 + j]);
                    }
                }
            }
            i = i + 1;
        }
        let mut i: usize = 0;
        while i < self.connections.len()
            invariant
                i <= self.connections.len(),
                self@ == v,
                v.wf(),
                np == v.peers.len(),
                payloads@.len() == 1 + np + i,
                payloads@[0] == OneOfpayload::snapshot_start(SnapshotStart {}),
                forall|j: int| 0 <= j < np ==> is_peer_payload(#[trigger] payloads@[1 + j], j as u64, v.peers[j]),
                forall|j: int|
                    0 <= j < i ==> is_connection_payload(#[trigger] payloads@[1 + np + j], v.connections[j]),
            decreases self.connections.len() - i,
        {
            let entry = &self.connections[i];
            let info = &entry.1;
            proof {
                assert(v.connections[i as int] == (entry.0, info.record()));
            }
            let u = ConnectionUpsert {
                conn_alias: entry.0,
                peer_alias: info.peer_alias,
                remote_addr: info.remote_addr.clone(),
                local_addr: info.local_addr.clone(),
                direction: info.direction,
                transport_id: info.transport_id,
                security_id: info.security_id,
                muxer_id: info.muxer_id,
                opened_at_ns: info.opened_at_ns,
            };
            let ghost old_p = payloads@;
            payloads.push(OneOfpayload::connection_upsert(u));
            proof {
                assert(payloads@[0] == old_p[0]);
                assert forall|j: int| 0 <= j < np implies is_peer_payload(
                    #[trigger] payloads@[1 + j],
                    j as u64,
                    v.peers[j],
                ) by {
                    assert(payloads@[1 + j] == old_p[1 + j]);
                }
                assert forall|j: int| 0 <= j <= i implies is_connection_payload(
                    #[trigger] payloads@[1 + np + j],
                    v.connections[j],
                ) by {
                    if j < i {
                        assert(payloads@[1 + np + j] == old_p[1 + np + j]);
                    }
                }
            }
            i = i + 1;
        }
        let mut i: usize = 0;
        while i < self.streams.len()
            invariant
                i <= self.streams.len(),
                self@ == v,
                v.wf(),
                np == v.peers.len(),
                nc == v.connections.len(),
                payloads@.len() == 1 + np + nc + i,
                payloads@[0] == OneOfpayload::snapshot_start(SnapshotStart {}),
                forall|j: int| 0 <= j < np ==> is_peer_payload(#[trigger] payloads@[1 + j], j as u64, v.peers[j]),
                forall|j: int|
                    0 <= j < nc ==> is_connection_payload(#[trigger] payloads@[1 + np + j], v.connections[j]),
                forall|j: int|
                    0 <= j < i ==> #[trigger] payloads@[1 + np + nc + j] == OneOfpayload::stream_upsert(
                        stream_upsert_of(v.streams[j].0, v.streams[j].1),
                    ),
            decreases self.streams.len() - i,
        {
            let (alias, info) = self.streams[i];
            let ghost old_p = payloads@;
            payloads.push(
                OneOfpayload::stream_upsert(
                    StreamUpsert {
                        stream_alias: alias,
                        conn_alias: info.conn_alias,
                        direction: info.direction,
                        protocol_id: info.protocol_id,
                        opened_at_ns: info.opened_at_ns,
                    },
                ),
            );
            proof {
                assert(payloads@[0] == old_p[0]);
                assert forall|j: int| 0 <= j < np implies is_peer_payload(
                    #[trigger] payloads@[1 + j],
                    j as u64,
                    v.peers[j],
                ) by {
                    assert(payloads@[1 + j] == old_p[1 + j]);
                }
                assert forall|j: int| 0 <= j < nc implies is_connection_payload(
                    #[trigger] payloads@[1 + np + j],
                    v.connections[j],
                ) by {
                    assert(payloads@[1 + np + j] == old_p[1 + np + j]);
                }
                assert forall|j: int| 0 <= j <= i implies #[trigger] payloads@[1 + np + nc + j]
                    == OneOfpayload::stream_upsert(stream_upsert_of(v.streams[j].0, v.streams[j].1)) by {
                    if j < i {
                        assert(payloads@[1 + np + nc + j] == old_p[1 + np + nc + j]);
                    }
                }
            }
            i = i + 1;
        }
        let ghost old_p = payloads@;
        payloads.push(OneOfpayload::snapshot_end(SnapshotEnd {}));
        proof {
            assert(payloads@[0] == old_p[0]);
            assert forall|j: int| 0 <= j < np implies is_peer_payload(
                #[trigger] payloads@[1 + j],
                j as u64,
                v.peers[j],
            ) by {
                assert(payloads@[1 + j] == old_p[1 + j]);
            }
            assert forall|j: int| 0 <= j < nc implies is_connection_payload(
                #[trigger] payloads@[1 + np + j],
                v.connections[j],
            ) by {
                assert(payloads@[1 + np + j] == old_p[1 + np + j]);
            }
            let ns = v.streams.len() as int;
            assert forall|j: int| 0 <= j < ns implies #[trigger] payloads@[1 + np + nc + j]
                == OneOfpayload::stream_upsert(stream_upsert_of(v.streams[j].0, v.streams[j].1)) by {
                assert(payloads@[1 + np + nc + j] == old_p[1 + np + nc + j]);
            }
        }
        payloads
    }
}

/// Connection and stream aliases are never reused: the next alias to be
/// handed out is held by no open connection or stream.
pub proof fn lemma_next_alias_fresh(v: TrackerView)
    requires
        v.wf(),
    ensures
        !has_alias(v.connections, v.next_conn_alias),
        !has_alias(v.streams, v.next_stream_alias),
{
}

/// Aliases below `bound` that strictly increase number at most `bound`.
pub proof fn lemma_ordered_len<T>(s: Seq<(u64, T)>, bound: u64)
    requires
        aliases_ordered(s, bound),
    ensures
        s.len() <= bound,
{
    assert forall|i: int| 0 <= i < s.len() implies s[i].0 >= i by {
        lemma_ordered_index(s, bound, i);
    }
    if s.len() > 0 {
        assert(s[s.len() - 1].0 >= s.len() - 1);
    }
}

proof fn lemma_ordered_index<T>(s: Seq<(u64, T)>, bound: u64, i: int)
    requires
        aliases_ordered(s, bound),
        0 <= i < s.len(),
    ensures
        s[i].0 >= i,
    decreases i,
{
    if i > 0 {
        lemma_ordered_index(s, bound, i - 1);
        assert(s[i - 1].0 < s[i].0);
    }
}

/// A closed stream is gone: closing it again finds nothing.
pub proof fn lemma_closed_stream_gone(v: TrackerView, a: u64)
    requires
        v.wf(),
        has_alias(v.streams, a),
    ensures
        !has_alias(v.streams.remove(alias_index(v.streams, a)), a),
{
    let s = v.streams;
    let k = alias_index(s, a);
    let r = s.remove(k);
    if has_alias(r, a) {
        let j = choose|j: int| 0 <= j < r.len() && r[j].0 == a;
        let j2 = if j < k { j } else { j + 1 };
        assert(r[j] == s[j2]);
    }
}

/// Closing a connection splits its streams off the rest: what stays holds
/// no stream of the connection, and every stream either stays or is
/// closed.
pub proof fn lemma_close_connection_partition(s: Seq<(u64, StreamInfo)>, c: u64)
    ensures
        streams_not_of(s, c).len() + streams_of(s, c).len() == s.len(),
        forall|i: int|
            0 <= i < streams_not_of(s, c).len() ==> (#[trigger] streams_not_of(s, c)[i]).1.conn_alias
                != c,
        forall|i: int|
            0 <= i < streams_of(s, c).len() ==> (#[trigger] streams_of(s, c)[i]).1.conn_alias == c,
    decreases s.len(),
{
    broadcast use vstd::seq_lib::group_filter_ensures;

    if s.len() > 0 {
        let t = s.drop_last();
        lemma_close_connection_partition(t, c);
        assert(s =~= t.push(s.last()));
        t.lemma_filter_push(s.last(), off_connection(c));
        t.lemma_filter_push(s.last(), on_connection(c));
    } else {
        assert(s.filter(off_connection(c)) =~= Seq::<(u64, StreamInfo)>::empty()) by {
            s.lemma_filter_len(off_connection(c));
        }
        assert(s.filter(on_connection(c)) =~= Seq::<(u64, StreamInfo)>::empty()) by {
            s.lemma_filter_len(on_connection(c));
        }
    }
}

/// A stream's announcement carries its alias and every field of its record:
/// the connection, which side opened it, its protocol and when it opened.
pub proof fn lemma_stream_upsert_fields(alias: u64, info: StreamInfo)
    ensures
        stream_upsert_of(alias, info).stream_alias == alias,
        stream_upsert_of(alias, info).conn_alias == info.conn_alias,
        stream_upsert_of(alias, info).direction == info.direction,
        stream_upsert_of(alias, info).protocol_id == info.protocol_id,
        stream_upsert_of(alias, info).opened_at_ns == info.opened_at_ns,
{
}

/// A snapshot announces each open stream, in alias order, with the fields
/// the tracker keeps for it (its connection, which side opened it, its
/// protocol, when it opened).
pub proof fn lemma_snapshot_streams(s: Seq<OneOfpayload>, v: TrackerView)
    requires
        is_snapshot_of(s, v),
    ensures
        forall|i: int|
            #![trigger v.streams[i]]
            0 <= i < v.streams.len() ==> {
                let e = v.streams[i];
                s[1 + v.peers.len() + v.connections.len() + i] matches OneOfpayload::stream_upsert(u)
                    && u.stream_alias == e.0 && u.conn_alias == e.1.conn_alias && u.direction
                    == e.1.direction && u.protocol_id == e.1.protocol_id && u.opened_at_ns
                    == e.1.opened_at_ns
            },
{
    let np = v.peers.len() as int;
    let nc = v.connections.len() as int;
    assert forall|i: int| 0 <= i < v.streams.len() implies {
        let e = #[trigger] v.streams[i];
        s[1 + np + nc + i] matches OneOfpayload::stream_upsert(u) && u.stream_alias == e.0
            && u.conn_alias == e.1.conn_alias && u.direction == e.1.direction && u.protocol_id
            == e.1.protocol_id && u.opened_at_ns == e.1.opened_at_ns
    } by {
        assert(s[1 + np + nc + i] == OneOfpayload::stream_upsert(stream_upsert_of(v.streams[i].0, v.streams[i].1)));
    }
}

/// A snapshot announces each open connection, in alias order, with the
/// fields the tracker keeps for it, and each peer under its alias.
pub proof fn lemma_snapshot_connections(s: Seq<OneOfpayload>, v: TrackerView)
    requires
        v.wf(),
        is_snapshot_of(s, v),
    ensures
        forall|i: int|
            #![trigger v.connections[i]]
            0 <= i < v.connections.len() ==> {
                let e = v.connections[i];
                s[1 + v.peers.len() + i] matches OneOfpayload::connection_upsert(u) && u.conn_alias
                    == e.0 && u.peer_alias == e.1.peer_alias && u.remote_addr@ == e.1.remote_addr
                    && u.local_addr@ == e.1.local_addr && u.direction == e.1.direction
                    && u.transport_id == e.1.transport_id && u.security_id == e.1.security_id
                    && u.muxer_id == e.1.muxer_id && u.opened_at_ns == e.1.opened_at_ns
            },
        forall|i: int|
            #![trigger v.peers[i]]
            0 <= i < v.peers.len() ==> (s[1 + i] matches OneOfpayload::peer_upsert(u) && u.peer_alias
                == i && u.peer_id@ == v.peers[i]),
{
    let np = v.peers.len() as int;
    assert forall|i: int| 0 <= i < v.connections.len() implies {
        let e = #[trigger] v.connections[i];
        s[1 + np + i] matches OneOfpayload::connection_upsert(u) && u.conn_alias == e.0
            && u.peer_alias == e.1.peer_alias && u.remote_addr@ == e.1.remote_addr
            && u.local_addr@ == e.1.local_addr && u.direction == e.1.direction
            && u.transport_id == e.1.transport_id && u.security_id == e.1.security_id
            && u.muxer_id == e.1.muxer_id && u.opened_at_ns == e.1.opened_at_ns
    } by {
        assert(is_connection_payload(s[1 + np + i], v.connections[i]));
    }
    assert forall|i: int| 0 <= i < v.peers.len() implies (s[1 + i] matches OneOfpayload::peer_upsert(u)
        && u.peer_alias == i && u.peer_id@ == #[trigger] v.peers[i]) by {
        assert(is_peer_payload(s[1 + i], i as u64, v.peers[i]));
    }
}

} // verus!
