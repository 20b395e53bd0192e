//! What a tapped connection keeps: its alias, until it closes.
use vstd::prelude::*;

use crate::emitter::{announces_connection_closed, announces_stream, log_grows, same_setup, Emitter};
use crate::messages::Direction;
use crate::state::{alias_index, has_alias, streams_not_of, TrackerView};

verus! {

/// The alias of a tapped connection, until it closes.
pub struct ConnectionTap {
    conn_alias: Option<u64>,
}

impl ConnectionTap {
    pub closed spec fn alias(&self) -> Option<u64> {
        self.conn_alias
    }

    pub fn new(conn_alias: u64) -> (r: Self)
        ensures
            r.alias() == Some(conn_alias),
    {
        ConnectionTap { conn_alias: Some(conn_alias) }
    }

    /// Whether the connection has not closed yet.
    pub fn is_open(&self) -> (r: bool)
        ensures
            r == self.alias() is Some,
    {
        self.conn_alias.is_some()
    }

    /// A substream opened on the connection: it is registered and announced,
    /// its protocol not known yet (the empty name), and its alias returned.
    pub fn open_stream(&self, emitter: &mut Emitter, direction: Direction) -> (alias: u64)
        requires
            self.alias() is Some,
            old(emitter).wf(),
            old(emitter)@.room_for(2),
            old(emitter)@.state.next_stream_alias < u64::MAX,
            old(emitter)@.strings.contains(Seq::<char>::empty()) || old(emitter)@.strings.len() < u32::MAX,
        ensures
            final(emitter).wf(),
            same_setup(old(emitter)@, final(emitter)@),
            log_grows(old(emitter)@, final(emitter)@),
            ({
                let old_state = old(emitter)@.state;
                let info = final(emitter)@.state.streams.last().1;
                &&& alias == old_state.next_stream_alias
                &&& final(emitter)@.state == TrackerView {
                    next_stream_alias: (alias + 1) as u64,
                    streams: old_state.streams.push((alias, info)),
                    ..old_state
                }
                &&& info.conn_alias == self.alias()->0 && info.direction == direction
                &&& announces_stream(old(emitter)@, alias, info, Seq::<char>::empty(), final(emitter)@.log)
            }),
    {
        let conn_alias = self.conn_alias.unwrap();
        let name = "";
        proof {
            reveal_strlit("");
            assert(name@ =~= Seq::<char>::empty());
        }
        emitter.register_stream(conn_alias, direction, name)
    }

    /// The connection has closed: it and its open streams are reported
    /// closed, once.
    pub fn on_close(&mut self, emitter: &mut Emitter)
        requires
            old(emitter).wf(),
            old(emitter)@.room_for(old(emitter)@.state.streams.len() + 1int),
        ensures
            final(emitter).wf(),
            final(self).alias() is None,
            same_setup(old(emitter)@, final(emitter)@),
            log_grows(old(emitter)@, final(emitter)@),
            match old(self).alias() {
                None => final(emitter)@ == old(emitter)@,
                Some(a) => {
                    let st = old(emitter)@.state;
                    let c = st.connections;
                    &&& announces_connection_closed(old(emitter)@, a, final(emitter)@.log)
                    &&& final(emitter)@.state == TrackerView {
                        streams: streams_not_of(st.streams, a),
                        connections: if has_alias(c, a) {
                            c.remove(alias_index(c, a))
                        } else {
                            c
                        },
                        ..st
                    }
                },
            },
    {
        if let Some(alias) = self.conn_alias.take() {
            emitter.close_connection(alias);
        }
    }
}

} // verus!
