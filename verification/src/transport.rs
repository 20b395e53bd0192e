//! What the tapped transport does when a connection is established.
use vstd::prelude::*;

use crate::emitter::{log_grows, same_setup, Emitter};
use crate::intern::interned;
use crate::messages::Direction;
use crate::emitter::EmitterView;
use crate::messages::Envelope;
use crate::state::{is_connection_payload, is_peer_payload, ConnectionRecord, TrackerView};

verus! {

/// `log` is the emitter `v`'s log after the connection `conn_alias`, with
/// record `rec`, to the peer with identity bytes `peer_id` is registered:
/// unchanged if the emitter is closed; otherwise the peer's announcement,
/// if the peer is new, then the connection's.
pub open spec fn announces_connection(
    v: EmitterView,
    peer_id: Seq<u8>,
    conn_alias: u64,
    rec: ConnectionRecord,
    log: Seq<Envelope>,
) -> bool {
    let (_, peer_alias, new) = interned(v.state.peers, peer_id);
    let n = v.log.len() as int;
    if v.closed {
        log == v.log
    } else {
        &&& log.len() == n + (if new { 1int } else { 0int }) + 1
        &&& new ==> is_peer_payload(log[n].payload, peer_alias as u64, peer_id)
        &&& is_connection_payload(log.last().payload, (conn_alias, rec))
    }
}

/// A connection to the peer with these identity bytes is established: the
/// peer is registered (announced if new) and the connection registered
/// under it (and announced). Returns the connection's alias.
pub fn connection_established(
    emitter: &mut Emitter,
    peer_id: &[u8],
    remote_addr: &str,
    local_addr: &str,
    direction: Direction,
) -> (conn_alias: u64)
    requires
        old(emitter).wf(),
        old(emitter)@.room_for(2),
        old(emitter)@.state.peers.contains(peer_id@) || old(emitter)@.state.peers.len() < u64::MAX,
        old(emitter)@.state.next_conn_alias < u64::MAX,
    ensures
        final(emitter).wf(),
        same_setup(old(emitter)@, final(emitter)@),
        log_grows(old(emitter)@, final(emitter)@),
        final(emitter)@.strings == old(emitter)@.strings,
        ({
            let old_state = old(emitter)@.state;
            let (peers, peer_alias, _) = interned(old_state.peers, peer_id@);
            let new_state = final(emitter)@.state;
            let rec = new_state.connections.last().1;
            &&& conn_alias == old_state.next_conn_alias
            &&& new_state == TrackerView {
                peers,
                next_conn_alias: (conn_alias + 1) as u64,
                connections: old_state.connections.push((conn_alias, rec)),
                ..old_state
            }
            &&& rec.peer_alias == peer_alias && rec.remote_addr == remote_addr@
            &&& rec.local_addr == local_addr@ && rec.direction == direction
            &&& announces_connection(old(emitter)@, peer_id@, conn_alias, rec, final(emitter)@.log)
        }),
{
    let ghost n = emitter@.log.len() as int;
    let peer_alias = emitter.register_peer(peer_id);
    let ghost mid = emitter@.log;
    let conn_alias = emitter.register_connection(peer_alias, remote_addr, local_addr, direction);
    proof {
        let log = emitter@.log;
        if old(emitter)@.closed {
            assert(mid =~= old(emitter)@.log);
            assert(log =~= mid);
        } else if mid.len() > n {
            assert(log[n] == mid[n]);
        }
    }
    conn_alias
}

/// A connection we dialed to `remote_addr` is up: it is registered as
/// outbound, with no local address known.
pub fn connection_dialed(emitter: &mut Emitter, peer_id: &[u8], remote_addr: &str) -> (conn_alias: u64)
    requires
        old(emitter).wf(),
        old(emitter)@.room_for(2),
        old(emitter)@.state.peers.contains(peer_id@) || old(emitter)@.state.peers.len() < u64::MAX,
        old(emitter)@.state.next_conn_alias < u64::MAX,
    ensures
        final(emitter).wf(),
        same_setup(old(emitter)@, final(emitter)@),
        log_grows(old(emitter)@, final(emitter)@),
        final(emitter)@.strings == old(emitter)@.strings,
        ({
            let old_state = old(emitter)@.state;
            let (peers, peer_alias, _) = interned(old_state.peers, peer_id@);
            let new_state = final(emitter)@.state;
            let rec = new_state.connections.last().1;
            &&& conn_alias == old_state.next_conn_alias
            &&& new_state == TrackerView {
                peers,
                next_conn_alias: (conn_alias + 1) as u64,
                connections: old_state.connections.push((conn_alias, rec)),
                ..old_state
            }
            &&& rec.peer_alias == peer_alias && rec.remote_addr == remote_addr@
            &&& rec.local_addr == Seq::<char>::empty() && rec.direction == Direction::DIRECTION_OUT
            &&& announces_connection(old(emitter)@, peer_id@, conn_alias, rec, final(emitter)@.log)
        }),
{
    let local = "";
    proof {
        reveal_strlit("");
    }
    connection_established(emitter, peer_id, remote_addr, local, Direction::DIRECTION_OUT)
}

/// A connection a remote dialed is up: it is registered as inbound, from
/// the address the remote can be reached back at, on our local address.
pub fn connection_accepted(emitter: &mut Emitter, peer_id: &[u8], send_back_addr: &str, local_addr: &str) -> (conn_alias: u64)
    requires
        old(emitter).wf(),
        old(emitter)@.room_for(2),
        old(emitter)@.state.peers.contains(peer_id@) || old(emitter)@.state.peers.len() < u64::MAX,
        old(emitter)@.state.next_conn_alias < u64::MAX,
    ensures
        final(emitter).wf(),
        same_setup(old(emitter)@, final(emitter)@),
        log_grows(old(emitter)@, final(emitter)@),
        final(emitter)@.strings == old(emitter)@.strings,
        ({
            let old_state = old(emitter)@.state;
            let (peers, peer_alias, _) = interned(old_state.peers, peer_id@);
            let new_state = final(emitter)@.state;
            let rec = new_state.connections.last().1;
            &&& conn_alias == old_state.next_conn_alias
            &&& new_state == TrackerView {
                peers,
                next_conn_alias: (conn_alias + 1) as u64,
                connections: old_state.connections.push((conn_alias, rec)),
                ..old_state
            }
            &&& rec.peer_alias == peer_alias && rec.remote_addr == send_back_addr@
            &&& rec.local_addr == local_addr@ && rec.direction == Direction::DIRECTION_IN
            &&& announces_connection(old(emitter)@, peer_id@, conn_alias, rec, final(emitter)@.log)
        }),
{
    connection_established(emitter, peer_id, send_back_addr, local_addr, Direction::DIRECTION_IN)
}

} // verus!
