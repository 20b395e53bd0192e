//! The event log: numbers every event, keeps the latest ones in a ring for
//! readers that reconnect, and fans each one out to the sinks.
use std::collections::VecDeque;
use std::sync::Arc;

use tokio::sync::mpsc::Sender;
use vstd::prelude::*;

use crate::clock::{now_ns, stamp, Clock};
use crate::intern::StringInterner;
use crate::messages::{CloseReason, Direction, Envelope, OneOfpayload};
use crate::intern::interned;
use crate::state::{
    alias_index, empty_tracker, has_alias, is_connection_payload, is_peer_payload, is_snapshot_of,
    stream_upsert_of, streams_not_of, streams_of, AliasTracker, StreamInfo, TrackerView,
};

verus! {

/// How many envelopes the ring keeps by default.
pub const DEFAULT_RING_BUFFER_CAPACITY: usize = 65536;

/// How many envelopes a sink's channel holds by default.
pub const DEFAULT_SINK_CHANNEL_CAPACITY: usize = 8192;

#[verifier::external_type_specification]
#[verifier::external_body]
#[verifier::reject_recursive_types(T)]
pub struct ExSender<T>(Sender<T>);

/// A sink's sender, with the envelopes handed to it so far.
struct SinkTx {
    tx: Sender<Arc<Envelope>>,
    handed: Ghost<Seq<Envelope>>,
}

impl SinkTx {
    /// The envelopes handed to the sender so far, in order.
    spec fn handed(&self) -> Seq<Envelope> {
        self.handed@
    }

    /// `tokio::sync::mpsc::Sender::try_send`: hands the envelope to the
    /// sink's channel, once. Whether the channel queues it or refuses it (full
    /// or closed) depends on the receiver and is not stated.
    #[verifier::external_body]
    fn offer(&mut self, env: Arc<Envelope>)
        ensures
            final(self).handed() == old(self).handed().push(*env),
    {
        let _ = self.tx.try_send(env);
    }
}

/// `Arc::clone`: another handle on the same envelope.
#[verifier::external_body]
fn share(env: &Arc<Envelope>) -> (r: Arc<Envelope>)
    ensures
        r == *env,
{
    Arc::clone(env)
}

/// How many envelopes a ring with this capacity holds after `n` events: a
/// ring of capacity 0 still keeps the latest one.
pub open spec fn ring_len(n: nat, capacity: usize) -> nat {
    let cap: nat = if capacity == 0 {
        1
    } else {
        capacity as nat
    };
    if n < cap {
        n
    } else {
        cap
    }
}

/// The emitter's state.
pub struct EmitterView {
    /// Every envelope emitted so far, in order.
    pub log: Seq<Envelope>,
    /// The envelopes the ring holds, oldest first.
    pub ring: Seq<Envelope>,
    pub ring_capacity: usize,
    pub closed: bool,
    /// The interned strings, by id.
    pub strings: Seq<Seq<char>>,
    pub state: TrackerView,
    /// For each sink, how long the log was when the sink was added: it is
    /// offered every event logged after that.
    pub sink_starts: Seq<nat>,
    /// For each sink, the envelopes handed to it so far, in order.
    pub offered: Seq<Seq<Envelope>>,
    /// The clock readings taken so far, oldest first.
    pub clock: Seq<u128>,
}

impl EmitterView {
    /// The sequence number the next envelope gets.
    pub open spec fn next_seq(&self) -> int {
        self.log.len() + 1int
    }

    /// The envelopes emitted after the log had `n` entries.
    pub open spec fn emitted_since(&self, n: nat) -> Seq<Envelope> {
        self.log.skip(n as int)
    }

    /// There is room for `k` more envelopes before sequence numbers run out.
    pub open spec fn room_for(&self, k: int) -> bool {
        self.log.len() + 1 + k <= u64::MAX
    }
}

/// `p` defines string `id` as `value`.
pub open spec fn is_string_def_payload(p: OneOfpayload, id: u32, value: Seq<char>) -> bool {
    p matches OneOfpayload::string_def(d) && d.id == id && d.value@ == value
}

/// `p` reports stream `alias` closed for `reason`.
pub open spec fn is_stream_closed_payload(p: OneOfpayload, alias: u64, reason: CloseReason) -> bool {
    p matches OneOfpayload::stream_closed(c) && c.stream_alias == alias && c.reason == reason
}

/// The tracker state and interned strings after stream `alias` is given
/// the protocol named `protocol`: the name is interned, and the stream, if
/// open, takes its id.
pub open spec fn with_protocol(
    state: TrackerView,
    strings: Seq<Seq<char>>,
    alias: u64,
    protocol: Seq<char>,
) -> (TrackerView, Seq<Seq<char>>) {
    let (strings2, id, _) = interned(strings, protocol);
    let s = state.streams;
    let i = alias_index(s, alias);
    if has_alias(s, alias) && s[i].1.protocol_id != id {
        (
            TrackerView {
                streams: s.update(i, (alias, StreamInfo { protocol_id: id as u32, ..s[i].1 })),
                ..state
            },
            strings2,
        )
    } else {
        (state, strings2)
    }
}

/// `added` is what giving stream `alias` the protocol named `protocol`
/// logs in the open emitter `v`: the name's definition, if it is new, then
/// the stream's new announcement, if its protocol changes.
pub open spec fn announces_protocol(v: EmitterView, alias: u64, protocol: Seq<char>, added: Seq<Envelope>) -> bool {
    let (strings, id, new) = interned(v.strings, protocol);
    let s = v.state.streams;
    let i = alias_index(s, alias);
    let changes = has_alias(s, alias) && s[i].1.protocol_id != id;
    let k = (if new { 1int } else { 0int });
    &&& added.len() == k + (if changes { 1int } else { 0int })
    &&& new ==> is_string_def_payload(added[0].payload, id as u32, protocol)
    &&& changes ==> added[k].payload == OneOfpayload::stream_upsert(
        stream_upsert_of(alias, StreamInfo { protocol_id: id as u32, ..s[i].1 }),
    )
}

/// `log` is the emitter `v`'s log after stream `alias`, with record
/// `info`, is registered under the protocol named `protocol`: unchanged if
/// the emitter is closed; otherwise the name's definition, if it is new,
/// then the stream's announcement.
pub open spec fn announces_stream(v: EmitterView, alias: u64, info: StreamInfo, protocol: Seq<char>, log: Seq<Envelope>) -> bool {
    let (_, id, new) = interned(v.strings, protocol);
    let n = v.log.len() as int;
    if v.closed {
        log == v.log
    } else {
        &&& log.len() == n + (if new { 1int } else { 0int }) + 1
        &&& new ==> is_string_def_payload(log[n].payload, id as u32, protocol)
        &&& log.last().payload == OneOfpayload::stream_upsert(stream_upsert_of(alias, info))
    }
}

/// `log` is the emitter `v`'s log after connection `conn_alias` is closed:
/// unchanged if the emitter is closed; otherwise a close (for the
/// connection's closing) of each of its open streams, in alias order, then
/// the connection's close, if it was open.
pub open spec fn announces_connection_closed(v: EmitterView, conn_alias: u64, log: Seq<Envelope>) -> bool {
    let had = has_alias(v.state.connections, conn_alias);
    let closed = streams_of(v.state.streams, conn_alias);
    let n = v.log.len() as int;
    if v.closed {
        log == v.log
    } else {
        &&& log.len() == n + closed.len() + (if had { 1int } else { 0int })
        &&& forall|k: int|
            0 <= k < closed.len() ==> is_stream_closed_payload(
                #[trigger] log[n + k].payload,
                closed[k].0,
                CloseReason::CLOSE_REASON_CONN_CLOSED,
            )
        &&& had ==> (log.last().payload matches OneOfpayload::connection_closed(cc) && cc.conn_alias
            == conn_alias)
    }
}

/// What a reader that reconnects gets: the events it missed, when the
/// ring still holds them all, or else a snapshot of the whole state.
pub enum CatchUp {
    Replay(Vec<Arc<Envelope>>),
    Snapshot(Vec<Envelope>),
}

/// The ring still holds every event after `last_acked`.
pub open spec fn replays(v: EmitterView, last_acked: u64) -> bool {
    v.ring.len() > 0 && last_acked + 1 >= v.ring[0].seq
}

/// The events of `log` with a sequence number above `last_acked`.
pub open spec fn missed_events(log: Seq<Envelope>, last_acked: u64) -> Seq<Envelope> {
    if last_acked < log.len() {
        log.skip(last_acked as int)
    } else {
        Seq::empty()
    }
}

/// `envs` is the catch-up snapshot built from the state snapshot `p` and
/// the interned strings: `p`'s start marker, the strings' definitions in id
/// order, then the rest of `p`, all with sequence number 0.
pub open spec fn is_catch_up_snapshot(
    envs: Seq<Envelope>,
    strings: Seq<Seq<char>>,
    p: Seq<OneOfpayload>,
) -> bool {
    let ns = strings.len() as int;
    &&& p.len() >= 1
    &&& envs.len() == ns + p.len()
    &&& forall|i: int| 0 <= i < envs.len() ==> (#[trigger] envs[i]).seq == 0
    &&& envs[0].payload == p[0]
    &&& forall|i: int|
        0 <= i < ns ==> is_string_def_payload(#[trigger] envs[1 + i].payload, i as u32, strings[i])
    &&& forall|k: int| 1 <= k < p.len() ==> #[trigger] envs[ns + k].payload == p[k]
}

/// `c` is what a reader that has stored every event up to `last_acked`
/// needs to catch up with the emitter `v`.
pub open spec fn catch_up_is(c: CatchUp, v: EmitterView, last_acked: u64) -> bool {
    &&& replays(v, last_acked) ==> (c matches CatchUp::Replay(r) && r@.map_values(
        |a: Arc<Envelope>| *a,
    ) == missed_events(v.log, last_acked))
    &&& !replays(v, last_acked) ==> (c matches CatchUp::Snapshot(envs) && exists|
        p: Seq<OneOfpayload>,
    | is_snapshot_of(p, v.state) && is_catch_up_snapshot(envs@, v.strings, p))
}

/// The log only grows.
pub open spec fn log_grows(old: EmitterView, new: EmitterView) -> bool {
    &&& new.log.len() >= old.log.len()
    &&& forall|i: int| 0 <= i < old.log.len() ==> #[trigger] new.log[i] == old.log[i]
}

/// The parts of the state that emitting an envelope leaves alone.
pub open spec fn same_setup(old: EmitterView, new: EmitterView) -> bool {
    &&& new.ring_capacity == old.ring_capacity
    &&& new.closed == old.closed
    &&& new.sink_starts == old.sink_starts
}

/// `new` is `old` with `n` more clock readings taken after it.
pub open spec fn readings_after(old: Seq<u128>, new: Seq<u128>, n: int) -> bool {
    &&& new.len() == old.len() + n
    &&& new.take(old.len() as int) == old
}

/// Readings taken in two runs are readings taken in one, and the second
/// run keeps those of the first.
pub proof fn lemma_readings_chain(a: Seq<u128>, b: Seq<u128>, c: Seq<u128>, n: int, m: int)
    requires
        readings_after(a, b, n),
        readings_after(b, c, m),
        n >= 0,
        m >= 0,
    ensures
        readings_after(a, c, n + m),
        forall|k: int| 0 <= k < b.len() ==> #[trigger] c[k] == b[k],
{
    assert forall|k: int| 0 <= k < b.len() implies #[trigger] c[k] == b[k] by {
        assert(c.take(b.len() as int)[k] == c[k]);
    }
    assert(c.take(a.len() as int) =~= a) by {
        assert forall|k: int| 0 <= k < a.len() implies c.take(a.len() as int)[k] == a[k] by {
            assert(b.take(a.len() as int)[k] == b[k]);
        }
    }
}

/// Each envelope of `log` is stamped with the reading of `clock` that
/// `by` names, and the readings named go forward in time order.
pub open spec fn stamps_from(log: Seq<Envelope>, clock: Seq<u128>, by: Seq<int>) -> bool {
    &&& by.len() == log.len()
    &&& forall|i: int|
        0 <= i < log.len() ==> 0 <= #[trigger] by[i] < clock.len() && log[i].observed_at_ns == stamp(
            clock[by[i]],
        )
    &&& forall|i: int, j: int| 0 <= i < j < by.len() ==> by[i] < by[j]
}

/// Numbers events, keeps the latest in a ring and hands each to the sinks.
pub struct Emitter {
    seq: u64,
    ring: VecDeque<Arc<Envelope>>,
    ring_capacity: usize,
    sink_txs: Vec<SinkTx>,
    interner: StringInterner,
    state: AliasTracker,
    closed: bool,
    log: Ghost<Seq<Envelope>>,
    sink_starts: Ghost<Seq<nat>>,
    clock: Clock,
    /// For each logged envelope, the clock reading it is stamped with.
    stamped_by: Ghost<Seq<int>>,
}

impl View for Emitter {
    type V = EmitterView;

    closed spec fn view(&self) -> EmitterView {
        EmitterView {
            log: self.log@,
            ring: self.ring@.map_values(|a: Arc<Envelope>| *a),
            ring_capacity: self.ring_capacity,
            closed: self.closed,
            strings: self.interner@,
            state: self.state@,
            sink_starts: self.sink_starts@,
            offered: self.sink_txs@.map_values(|s: SinkTx| s.handed()),
            clock: self.clock.readings(),
        }
    }
}

impl Emitter {
    /// The emitter is well formed: see [`EmitterView`].
    pub closed spec fn wf(&self) -> bool {
        let v = self@;
        &&& self.state.wf()
        &&& v.strings.no_duplicates()
        &&& v.strings.len() <= u32::MAX
        &&& self.seq == v.log.len() + 1
        &&& forall|i: int| 0 <= i < v.log.len() ==> (#[trigger] v.log[i]).seq == i + 1
        &&& v.ring.len() == ring_len(v.log.len(), v.ring_capacity)
        &&& v.ring == v.log.skip(v.log.len() - v.ring.len())
        &&& self.sink_starts@.len() == self.sink_txs@.len()
        &&& forall|i: int| 0 <= i < self.sink_starts@.len() ==> #[trigger] self.sink_starts@[i] <= self.log@.len()
        &&& forall|i: int|
            0 <= i < self.sink_txs@.len() ==> #[trigger] self.sink_txs@[i].handed() == self.log@.skip(
                self.sink_starts@[i] as int,
            )
        &&& stamps_from(v.log, v.clock, self.stamped_by@)
    }

    pub fn new(ring_capacity: usize) -> (r: Self)
        ensures
            r.wf(),
            r@.log == Seq::<Envelope>::empty(),
            r@.ring_capacity == ring_capacity,
            !r@.closed,
            r@.strings == Seq::<Seq<char>>::empty(),
            r@.state == empty_tracker(),
            r@.sink_starts == Seq::<nat>::empty(),
            r@.offered == Seq::<Seq<Envelope>>::empty(),
            r@.clock == Seq::<u128>::empty(),
    {
        let r = Emitter {
            seq: 1,
            ring: VecDeque::with_capacity(ring_capacity),
            ring_capacity,
            sink_txs: Vec::new(),
            interner: StringInterner::new(),
            state: AliasTracker::new(),
            closed: false,
            log: Ghost(Seq::empty()),
            sink_starts: Ghost(Seq::empty()),
            clock: Clock::new(),
            stamped_by: Ghost(Seq::empty()),
        };
        proof {
            assert(r@.ring =~= Seq::<Envelope>::empty());
            assert(r@.log.skip(0) =~= Seq::<Envelope>::empty());
        }
        r
    }

    /// Adds a sink: every envelope emitted from now on is offered to it.
    pub fn add_sink(&mut self, tx: Sender<Arc<Envelope>>)
        requires
            old(self).wf(),
        ensures
            final(self).wf(),
            final(self)@ == (EmitterView {
                sink_starts: old(self)@.sink_starts.push(old(self)@.log.len()),
                offered: old(self)@.offered.push(Seq::empty()),
                ..old(self)@
            }),
    {
        let ghost old_view = self@;
        self.sink_txs.push(SinkTx { tx, handed: Ghost(Seq::empty()) });
        self.sink_starts = Ghost(self.sink_starts@.push(self.log@.len()));
        proof {
            assert forall|i: int| 0 <= i < self.sink_txs@.len() implies #[trigger] self.sink_txs@[i].handed()
                == self.log@.skip(self.sink_starts@[i] as int) by {
                if i == self.sink_txs@.len() - 1 {
                    assert(self.log@.skip(self.log@.len() as int) =~= Seq::<Envelope>::empty());
                }
            }
            assert(self@.offered =~= old_view.offered.push(Seq::empty()));
        }
    }

    /// Stops the log: later events change the state but emit nothing.
    pub fn set_closed(&mut self)
        requires
            old(self).wf(),
        ensures
            final(self).wf(),
            final(self)@ == (EmitterView { closed: true, ..old(self)@ }),
    {
        self.closed = true;
    }

    /// Emits an event with this payload: unless the emitter is closed, the
    /// event gets the next sequence number and the current time, joins the
    /// log and the ring (pushing out the oldest when the ring is full), and
    /// is offered to every sink.
    pub fn emit(&mut self, payload: OneOfpayload)
        requires
            old(self).wf(),
            old(self)@.room_for(1),
        ensures
            final(self).wf(),
            same_setup(old(self)@, final(self)@),
            final(self)@.strings == old(self)@.strings,
            final(self)@.state == old(self)@.state,
            log_grows(old(self)@, final(self)@),
            old(self)@.closed ==> final(self)@.log == old(self)@.log,
            !old(self)@.closed ==> final(self)@.emitted_since(old(self)@.log.len()).len() == 1
                && final(self)@.log.last().payload == payload,
            old(self)@.closed ==> final(self)@.offered == old(self)@.offered,
            !old(self)@.closed ==> final(self)@.offered.len() == old(self)@.offered.len() && forall|i: int|
                0 <= i < old(self)@.offered.len() ==> #[trigger] final(self)@.offered[i] == old(
                    self,
                )@.offered[i].push(final(self)@.log.last()),
            old(self)@.closed ==> final(self)@.clock == old(self)@.clock,
            !old(self)@.closed ==> readings_after(old(self)@.clock, final(self)@.clock, 1)
                && final(self)@.log.last().observed_at_ns == stamp(final(self)@.clock.last()),
    {
        self.emit_payload(payload);
    }

    fn emit_payload(&mut self, payload: OneOfpayload)
        requires
            old(self).wf(),
            old(self)@.room_for(1),
        ensures
            final(self).wf(),
            same_setup(old(self)@, final(self)@),
            final(self)@.strings == old(self)@.strings,
            final(self)@.state == old(self)@.state,
            log_grows(old(self)@, final(self)@),
            old(self)@.closed ==> final(self)@.log == old(self)@.log,
            !old(self)@.closed ==> final(self)@.log.len() == old(self)@.log.len() + 1
                && final(self)@.log.last().payload == payload,
            old(self)@.closed ==> final(self)@.offered == old(self)@.offered,
            !old(self)@.closed ==> final(self)@.offered.len() == old(self)@.offered.len() && forall|i: int|
                0 <= i < old(self)@.offered.len() ==> #[trigger] final(self)@.offered[i] == old(
                    self,
                )@.offered[i].push(final(self)@.log.last()),
            old(self)@.closed ==> final(self)@.clock == old(self)@.clock,
            !old(self)@.closed ==> readings_after(old(self)@.clock, final(self)@.clock, 1)
                && final(self)@.log.last().observed_at_ns == stamp(final(self)@.clock.last()),
    {
        if self.closed {
            return;
        }
        let ghost pre_clock = self@.clock;
        proof {
            assert(self.stamped_by@.len() == self@.log.len());
            assert(forall|i: int| 0 <= i < self@.log.len() ==> #[trigger] self.stamped_by@[i] < pre_clock.len());
        }
        let t = self.read_clock();
        let e = Envelope { seq: self.seq, observed_at_ns: t, payload };
        let ghost ge = e;
        let env = Arc::new(e);
        let ghost old_log = self.log@;
        let ghost old_ring = self@.ring;
        let ghost new_log = old_log.push(ge);
        let ghost old_by = self.stamped_by@;
        let ghost clock = self@.clock;
        self.seq = self.seq + 1;
        self.log = Ghost(new_log);
        self.stamped_by = Ghost(old_by.push(clock.len() - 1));
        proof {
            let by = self.stamped_by@;
            assert forall|i: int| 0 <= i < new_log.len() implies 0 <= #[trigger] by[i] < clock.len()
                && new_log[i].observed_at_ns == stamp(clock[by[i]]) by {
                if i < old_log.len() {
                    assert(by[i] == old_by[i]);
                    assert(new_log[i] == old_log[i]);
                }
            }
            assert forall|i: int, j: int| 0 <= i < j < by.len() implies by[i] < by[j] by {
                if j < old_by.len() {
                    assert(by[i] == old_by[i] && by[j] == old_by[j]);
                } else {
                    assert(by[i] == old_by[i]);
                    assert(old_by[i] < pre_clock.len());
                }
            }
        }
        let capacity = self.ring_capacity;
        if self.ring.len() >= capacity {
            self.ring.pop_front();
        }
        self.ring.push_back(share(&env));
        proof {
            let v = self@;
            let n = old_log.len();
            let cap: nat = if capacity == 0 { 1 } else { capacity as nat };
            assert forall|i: int| 0 <= i < new_log.len() implies (#[trigger] new_log[i]).seq == i + 1 by {
                if i < n {
                    assert(new_log[i] == old_log[i]);
                }
            }
            if old_ring.len() >= capacity && old_ring.len() > 0 {
                assert(v.ring =~= old_ring.subrange(1, old_ring.len() as int).push(ge));
            } else {
                assert(v.ring =~= old_ring.push(ge));
            }
            assert(v.ring =~= new_log.skip(new_log.len() - v.ring.len()));
        }
        let ghost old_sinks = self.sink_txs@;
        let mut sinks: Vec<SinkTx> = Vec::new();
        std::mem::swap(&mut sinks, &mut self.sink_txs);
        let mut i: usize = 0;
        while i < sinks.len()
            invariant
                i <= sinks.len(),
                *env == ge,
                sinks@.len() == old_sinks.len(),
                forall|j: int| 0 <= j < i ==> #[trigger] sinks@[j].handed() == old_sinks[j].handed().push(ge),
                forall|j: int| i <= j < sinks@.len() ==> #[trigger] sinks@[j] == old_sinks[j],
            decreases sinks.len() - i,
        {
            let sent = share(&env);
            sinks[i].offer(sent);
            i = i + 1;
        }
        std::mem::swap(&mut sinks, &mut self.sink_txs);
        proof {
            assert forall|j: int| 0 <= j < self.sink_txs@.len() implies #[trigger] self.sink_txs@[j].handed()
                == self.log@.skip(self.sink_starts@[j] as int) by {
                assert(self.sink_starts@[j] <= old_log.len());
                assert(old_sinks[j].handed() == old_log.skip(self.sink_starts@[j] as int));
                assert(new_log.skip(self.sink_starts@[j] as int) =~= old_log.skip(self.sink_starts@[j] as int).push(ge));
            }
        }
    }

    /// Reads the clock once, keeping the reading in the record.
    fn read_clock(&mut self) -> (t: i64)
        requires
            old(self).wf(),
        ensures
            final(self).wf(),
            final(self)@ == (EmitterView { clock: final(self)@.clock, ..old(self)@ }),
            readings_after(old(self)@.clock, final(self)@.clock, 1),
            t == stamp(final(self)@.clock.last()),
            final(self).stamped_by == old(self).stamped_by,
    {
        let ghost old_clock = self@.clock;
        let t = self.clock.read_ns();
        proof {
            let clock = self@.clock;
            assert(clock.take(old_clock.len() as int) =~= clock.drop_last());
            assert forall|k: int| 0 <= k < old_clock.len() implies #[trigger] clock[k] == old_clock[k] by {
                assert(clock.drop_last()[k] == clock[k]);
            }
            let by = self.stamped_by@;
            let log = self@.log;
            assert forall|i: int| 0 <= i < log.len() implies 0 <= #[trigger] by[i] < clock.len()
                && log[i].observed_at_ns == stamp(clock[by[i]]) by {
                assert(clock[by[i]] == old_clock[by[i]]);
            }
        }
        t
    }

    /// The alias of the peer with these identity bytes, registering it if
    /// it is new; a new peer is announced.
    pub fn register_peer(&mut self, peer_id: &[u8]) -> (alias: u64)
        requires
            old(self).wf(),
            old(self)@.room_for(1),
            old(self)@.state.peers.contains(peer_id@) || old(self)@.state.peers.len() < u64::MAX,
        ensures
            final(self).wf(),
            same_setup(old(self)@, final(self)@),
            final(self)@.strings == old(self)@.strings,
            log_grows(old(self)@, final(self)@),
            ({
                let (peers, a, new) = interned(old(self)@.state.peers, peer_id@);
                let announced = new && !old(self)@.closed;
                &&& final(self)@.state == TrackerView { peers, ..old(self)@.state }
                &&& alias == a
                &&& final(self)@.log.len() == old(self)@.log.len() + (if announced { 1int } else { 0int })
                &&& announced ==> is_peer_payload(final(self)@.log.last().payload, alias, peer_id@)
                &&& readings_after(old(self)@.clock, final(self)@.clock, if announced { 1int } else { 0int })
                &&& announced ==> final(self)@.log.last().observed_at_ns == stamp(final(self)@.clock.last())
            }),
    {
        proof {
            assert(self@.clock.take(self@.clock.len() as int) =~= self@.clock);
        }
        let (alias, upsert) = self.state.register_peer(peer_id);
        if let Some(upsert) = upsert {
            self.emit_payload(OneOfpayload::peer_upsert(upsert));
        }
        alias
    }

    /// Registers a new connection (transport, security and muxer unknown,
    /// so 0), opened now, under the next connection alias, and announces it.
    pub fn register_connection(
        &mut self,
        peer_alias: u64,
        remote_addr: &str,
        local_addr: &str,
        direction: Direction,
    ) -> (alias: u64)
        requires
            old(self).wf(),
            old(self)@.room_for(1),
            old(self)@.state.next_conn_alias < u64::MAX,
        ensures
            final(self).wf(),
            same_setup(old(self)@, final(self)@),
            final(self)@.strings == old(self)@.strings,
            log_grows(old(self)@, final(self)@),
            ({
                let old_state = old(self)@.state;
                let new_state = final(self)@.state;
                let rec = new_state.connections.last().1;
                &&& alias == old_state.next_conn_alias
                &&& new_state == TrackerView {
                    next_conn_alias: (alias + 1) as u64,
                    connections: old_state.connections.push((alias, rec)),
                    ..old_state
                }
                &&& rec.peer_alias == peer_alias && rec.remote_addr == remote_addr@
                &&& rec.local_addr == local_addr@ && rec.direction == direction
                &&& rec.transport_id == 0 && rec.security_id == 0 && rec.muxer_id == 0
                &&& final(self)@.log.len() == old(self)@.log.len() + (if old(self)@.closed { 0int } else { 1int })
                &&& !old(self)@.closed ==> is_connection_payload(
                    final(self)@.log.last().payload,
                    (alias, rec),
                )
                &&& readings_after(
                    old(self)@.clock,
                    final(self)@.clock,
                    1 + (if old(self)@.closed { 0int } else { 1int }),
                )
                &&& rec.opened_at_ns == stamp(final(self)@.clock[old(self)@.clock.len() as int])
            }),
    {
        let t = self.read_clock();
        let ghost mid = self@.clock;
        let (alias, upsert) = self.state.register_connection(
            peer_alias,
            remote_addr,
            local_addr,
            direction,
            0,
            0,
            0,
            t,
        );
        self.emit_payload(OneOfpayload::connection_upsert(upsert));
        proof {
            let k = old(self)@.clock.len() as int;
            assert(mid[k] == self@.clock.take(mid.len() as int)[k]);
            assert(self@.clock.take(k) =~= mid.take(k));
        }
        alias
    }

    /// Interns a protocol name, announcing it when it is new.
    fn intern_protocol(&mut self, protocol: &str) -> (id: u32)
        requires
            old(self).wf(),
            old(self)@.room_for(1),
            old(self)@.strings.contains(protocol@) || old(self)@.strings.len() < u32::MAX,
        ensures
            final(self).wf(),
            same_setup(old(self)@, final(self)@),
            final(self)@.state == old(self)@.state,
            log_grows(old(self)@, final(self)@),
            ({
                let (strings, i, new) = interned(old(self)@.strings, protocol@);
                let announced = new && !old(self)@.closed;
                &&& final(self)@.strings == strings
                &&& id == i
                &&& final(self)@.log.len() == old(self)@.log.len() + (if announced { 1int } else { 0int })
                &&& announced ==> is_string_def_payload(final(self)@.log.last().payload, id, protocol@)
                &&& readings_after(old(self)@.clock, final(self)@.clock, if announced { 1int } else { 0int })
            }),
    {
        proof {
            assert(self@.clock.take(self@.clock.len() as int) =~= self@.clock);
        }
        let (id, def) = self.interner.intern(protocol);
        if let Some(def) = def {
            self.emit_payload(OneOfpayload::string_def(def));
        }
        id
    }

    /// Registers a new stream on a connection, opened now, with the given
    /// protocol name (interned, and announced when new), under the next
    /// stream alias, and announces the stream.
    pub fn register_stream(&mut self, conn_alias: u64, direction: Direction, protocol: &str) -> (alias:
        u64)
        requires
            old(self).wf(),
            old(self)@.room_for(2),
            old(self)@.state.next_stream_alias < u64::MAX,
            old(self)@.strings.contains(protocol@) || old(self)@.strings.len() < u32::MAX,
        ensures
            final(self).wf(),
            same_setup(old(self)@, final(self)@),
            log_grows(old(self)@, final(self)@),
            ({
                let (strings, id, new) = interned(old(self)@.strings, protocol@);
                let old_state = old(self)@.state;
                let new_state = final(self)@.state;
                let info = new_state.streams.last().1;
                let k = (if new { 1int } else { 0int });
                let n = old(self)@.log.len() as int;
                &&& final(self)@.strings == strings
                &&& alias == old_state.next_stream_alias
                &&& new_state == TrackerView {
                    next_stream_alias: (alias + 1) as u64,
                    streams: old_state.streams.push((alias, info)),
                    ..old_state
                }
                &&& info.conn_alias == conn_alias && info.direction == direction && info.protocol_id == id
                &&& old(self)@.closed ==> final(self)@.log == old(self)@.log
                &&& !old(self)@.closed ==> {
                    &&& final(self)@.log.len() == n + k + 1
                    &&& new ==> is_string_def_payload(final(self)@.log[n].payload, id as u32, protocol@)
                    &&& final(self)@.log.last().payload == OneOfpayload::stream_upsert(
                        stream_upsert_of(alias, info),
                    )
                }
                &&& announces_stream(old(self)@, alias, info, protocol@, final(self)@.log)
                &&& !old(self)@.closed ==> (final(self)@.log.last().payload matches OneOfpayload::stream_upsert(u)
                    && u.stream_alias == alias && u.conn_alias == conn_alias && u.direction == direction
                    && u.protocol_id == id && u.opened_at_ns == info.opened_at_ns)
                &&& ({
                    let a = if new && !old(self)@.closed { 1int } else { 0int };
                    let k0 = old(self)@.clock.len() as int;
                    &&& readings_after(
                        old(self)@.clock,
                        final(self)@.clock,
                        a + 1 + (if old(self)@.closed { 0int } else { 1int }),
                    )
                    &&& info.opened_at_ns == stamp(final(self)@.clock[k0 + a])
                    &&& !old(self)@.closed ==> final(self)@.log.last().observed_at_ns == stamp(
                        final(self)@.clock.last(),
                    )
                })
            }),
    {
        let ghost old_view = self@;
        let protocol_id = self.intern_protocol(protocol);
        let ghost mid = self@;
        let t = self.read_clock();
        let ghost mid2 = self@;
        let (alias, upsert) = self.state.register_stream(conn_alias, direction, protocol_id, t);
        let ghost mid3 = self@;
        self.emit_payload(OneOfpayload::stream_upsert(upsert));
        proof {
            let (_, id0, new0) = interned(old_view.strings, protocol@);
            let a = if new0 && !old_view.closed { 1int } else { 0int };
            let e = if old_view.closed { 0int } else { 1int };
            lemma_readings_chain(old_view.clock, mid.clock, mid2.clock, a, 1);
            assert(mid3.clock == mid2.clock);
            assert(mid3.clock.take(mid3.clock.len() as int) =~= mid3.clock);
            lemma_readings_chain(old_view.clock, mid2.clock, self@.clock, a + 1, e);
            assert(mid2.clock[old_view.clock.len() + a] == mid2.clock.last());
        }
        proof {
            let n = old_view.log.len() as int;
            let (strings, id, new) = interned(old_view.strings, protocol@);
            let info = self@.state.streams.last().1;
            if !old_view.closed {
                if mid.log.len() > n {
                    assert(self@.log[n] == mid.log[n]);
                }
            } else {
                assert(self@.log =~= old_view.log);
            }
        }
        alias
    }

    /// Sets the protocol of an open stream (the name interned, and announced
    /// when new) and announces the stream again if its protocol changed.
    pub fn set_stream_protocol(&mut self, stream_alias: u64, protocol: &str)
        requires
            old(self).wf(),
            old(self)@.room_for(2),
            old(self)@.strings.contains(protocol@) || old(self)@.strings.len() < u32::MAX,
        ensures
            final(self).wf(),
            same_setup(old(self)@, final(self)@),
            log_grows(old(self)@, final(self)@),
            ({
                let (strings, id, new) = interned(old(self)@.strings, protocol@);
                let old_state = old(self)@.state;
                let s = old_state.streams;
                let i = alias_index(s, stream_alias);
                let changes = has_alias(s, stream_alias) && s[i].1.protocol_id != id;
                let info = StreamInfo { protocol_id: id as u32, ..s[i].1 };
                let n = old(self)@.log.len() as int;
                let k = (if new { 1int } else { 0int });
                let c = (if changes { 1int } else { 0int });
                &&& (final(self)@.state, final(self)@.strings) == with_protocol(
                    old_state,
                    old(self)@.strings,
                    stream_alias,
                    protocol@,
                )
                &&& old(self)@.closed ==> final(self)@.log == old(self)@.log
                &&& !old(self)@.closed ==> {
                    &&& final(self)@.log.len() == n + k + c
                    &&& new ==> is_string_def_payload(final(self)@.log[n].payload, id as u32, protocol@)
                    &&& changes ==> final(self)@.log.last().payload == OneOfpayload::stream_upsert(
                        stream_upsert_of(stream_alias, info),
                    )
                    &&& announces_protocol(old(self)@, stream_alias, protocol@, final(self)@.log.skip(n))
                }
            }),
    {
        let ghost n = self@.log.len() as int;
        let protocol_id = self.intern_protocol(protocol);
        if let Some(upsert) = self.state.set_stream_protocol(stream_alias, protocol_id) {
            self.emit_payload(OneOfpayload::stream_upsert(upsert));
        }
        proof {
            let added = self@.log.skip(n);
            if added.len() > 0 {
                assert(added[0] == self@.log[n]);
                assert(added[added.len() - 1] == self@.log.last());
            }
        }
    }

    /// Closes an open stream now, with this reason, and announces it; an
    /// unknown stream changes nothing.
    pub fn close_stream(&mut self, stream_alias: u64, reason: CloseReason)
        requires
            old(self).wf(),
            old(self)@.room_for(1),
        ensures
            final(self).wf(),
            same_setup(old(self)@, final(self)@),
            final(self)@.strings == old(self)@.strings,
            log_grows(old(self)@, final(self)@),
            ({
                let old_state = old(self)@.state;
                let s = old_state.streams;
                if has_alias(s, stream_alias) {
                    &&& final(self)@.state == TrackerView {
                        streams: s.remove(alias_index(s, stream_alias)),
                        ..old_state
                    }
                    &&& final(self)@.log.len() == old(self)@.log.len() + (if old(self)@.closed { 0int } else { 1int })
                    &&& !old(self)@.closed ==> is_stream_closed_payload(final(self)@.log.last().payload, stream_alias, reason)
                    &&& readings_after(
                        old(self)@.clock,
                        final(self)@.clock,
                        1 + (if old(self)@.closed { 0int } else { 1int }),
                    )
                    &&& !old(self)@.closed ==> (final(self)@.log.last().payload matches OneOfpayload::stream_closed(c)
                        && c.closed_at_ns == stamp(final(self)@.clock[old(self)@.clock.len() as int]))
                    &&& !old(self)@.closed ==> final(self)@.log.last().observed_at_ns == stamp(
                        final(self)@.clock.last(),
                    )
                } else {
                    &&& final(self)@.state == old_state
                    &&& final(self)@.log == old(self)@.log
                    &&& readings_after(old(self)@.clock, final(self)@.clock, 1)
                }
            }),
    {
        let t = self.read_clock();
        let ghost mid = self@;
        if let Some(closed) = self.state.close_stream(stream_alias, t, reason) {
            let ghost mid2 = self@;
            self.emit_payload(OneOfpayload::stream_closed(closed));
            proof {
                assert(mid2.clock == mid.clock);
                assert(mid2.clock.take(mid2.clock.len() as int) =~= mid2.clock);
                let e = if mid.closed { 0int } else { 1int };
                lemma_readings_chain(old(self)@.clock, mid.clock, self@.clock, 1, e);
                assert(mid.clock[old(self)@.clock.len() as int] == mid.clock.last());
            }
        }
    }

    /// Closes a connection now: every stream still open on it is closed and
    /// announced (in alias order, reason `CLOSE_REASON_CONN_CLOSED`), then
    /// the connection, if it is known, is closed and announced.
    pub fn close_connection(&mut self, conn_alias: u64)
        requires
            old(self).wf(),
            old(self)@.room_for(old(self)@.state.streams.len() + 1int),
        ensures
            final(self).wf(),
            same_setup(old(self)@, final(self)@),
            final(self)@.strings == old(self)@.strings,
            log_grows(old(self)@, final(self)@),
            ({
                let old_state = old(self)@.state;
                let c = old_state.connections;
                let had = has_alias(c, conn_alias);
                let closed = streams_of(old_state.streams, conn_alias);
                let n = old(self)@.log.len() as int;
                let log = final(self)@.log;
                &&& final(self)@.state == TrackerView {
                    streams: streams_not_of(old_state.streams, conn_alias),
                    connections: if had {
                        c.remove(alias_index(c, conn_alias))
                    } else {
                        c
                    },
                    ..old_state
                }
                &&& old(self)@.closed ==> log == old(self)@.log
                &&& !old(self)@.closed ==> {
                    &&& log.len() == n + closed.len() + (if had { 1int } else { 0int })
                    &&& forall|k: int|
                        0 <= k < closed.len() ==> is_stream_closed_payload(
                            #[trigger] log[n + k].payload,
                            closed[k].0,
                            CloseReason::CLOSE_REASON_CONN_CLOSED,
                        )
                    &&& had ==> (log.last().payload matches OneOfpayload::connection_closed(cc)
                        && cc.conn_alias == conn_alias)
                }
                &&& announces_connection_closed(old(self)@, conn_alias, log)
                &&& readings_after(
                    old(self)@.clock,
                    final(self)@.clock,
                    1 + (if old(self)@.closed { 0int } else { closed.len() + (if had { 1int } else { 0int }) }),
                )
                &&& !old(self)@.closed ==> forall|k: int|
                    0 <= k < closed.len() ==> (#[trigger] log[n + k].payload matches OneOfpayload::stream_closed(sc)
                        && sc.closed_at_ns == stamp(final(self)@.clock[old(self)@.clock.len() as int]))
                &&& !old(self)@.closed && had ==> (log.last().payload matches OneOfpayload::connection_closed(cc)
                    && cc.closed_at_ns == stamp(final(self)@.clock[old(self)@.clock.len() as int]))
            }),
    {
        let ghost old_view = self@;
        let ghost n = self@.log.len() as int;
        let ghost closed_streams = streams_of(self@.state.streams, conn_alias);
        proof {
            crate::state::lemma_close_connection_partition(self@.state.streams, conn_alias);
        }
        let t = self.read_clock();
        let ghost c1 = self@.clock;
        let ghost k0 = old_view.clock.len() as int;
        proof {
            assert(c1[k0] == c1.last());
            assert(c1.take(c1.len() as int) =~= c1);
        }
        let (conn_closed, stream_closeds) = self.state.close_connection(conn_alias, t);
        let ghost mid_view = self@;
        let mut i: usize = 0;
        while i < stream_closeds.len()
            invariant
                i <= stream_closeds.len(),
                self.wf(),
                stream_closeds@.len() == closed_streams.len(),
                forall|k: int|
                    0 <= k < closed_streams.len() ==> (#[trigger] stream_closeds@[k]).stream_alias
                        == closed_streams[k].0 && stream_closeds@[k].reason
                        == CloseReason::CLOSE_REASON_CONN_CLOSED && stream_closeds@[k].closed_at_ns == t,
                t == stamp(c1[k0]),
                0 <= k0 < c1.len(),
                readings_after(c1, self@.clock, if old_view.closed { 0int } else { i as int }),
                !old_view.closed ==> forall|k: int|
                    0 <= k < i ==> (#[trigger] self@.log[n + k].payload matches OneOfpayload::stream_closed(sc)
                        && sc.closed_at_ns == t),
                n == old_view.log.len(),
                self@.room_for(stream_closeds@.len() - i + 1),
                same_setup(old_view, self@),
                self@.strings == old_view.strings,
                self@.state == mid_view.state,
                log_grows(old_view, self@),
                old_view.closed ==> self@.log == old_view.log,
                !old_view.closed ==> self@.log.len() == n + i,
                !old_view.closed ==> forall|k: int|
                    0 <= k < i ==> is_stream_closed_payload(
                        #[trigger] self@.log[n + k].payload,
                        closed_streams[k].0,
                        CloseReason::CLOSE_REASON_CONN_CLOSED,
                    ),
            decreases stream_closeds.len() - i,
        {
            let closed = stream_closeds[i];
            let ghost before = self@;
            self.emit_payload(OneOfpayload::stream_closed(closed));
            proof {
                assert(stream_closeds@[i as int] == closed);
                if !old_view.closed {
                    assert forall|k: int| 0 <= k < i + 1 implies is_stream_closed_payload(
                        #[trigger] self@.log[n + k].payload,
                        closed_streams[k].0,
                        CloseReason::CLOSE_REASON_CONN_CLOSED,
                    ) by {
                        if k < i {
                            assert(self@.log[n + k] == before.log[n + k]);
                        }
                    }
                    assert forall|k: int| 0 <= k < i + 1 implies (#[trigger] self@.log[n + k].payload
                        matches OneOfpayload::stream_closed(sc) && sc.closed_at_ns == t) by {
                        if k < i {
                            assert(self@.log[n + k] == before.log[n + k]);
                        }
                    }
                    lemma_readings_chain(c1, before.clock, self@.clock, i as int, 1);
                } else {
                    assert(before.clock.take(before.clock.len() as int) =~= before.clock);
                    lemma_readings_chain(c1, before.clock, self@.clock, 0, 0);
                }
            }
            i = i + 1;
        }
        let ghost c2 = self@.clock;
        proof {
            lemma_readings_chain(old_view.clock, c1, c2, 1, if old_view.closed { 0int } else { i as int });
            assert(c2[k0] == c1[k0]);
        }
        if let Some(closed) = conn_closed {
            let ghost before = self@;
            self.emit_payload(OneOfpayload::connection_closed(closed));
            proof {
                if !old_view.closed {
                    assert forall|k: int| 0 <= k < closed_streams.len() implies (#[trigger] self@.log[n + k].payload
                        matches OneOfpayload::stream_closed(sc) && sc.closed_at_ns == t) by {
                        assert(self@.log[n + k] == before.log[n + k]);
                    }
                    assert forall|k: int| 0 <= k < closed_streams.len() implies is_stream_closed_payload(
                        #[trigger] self@.log[n + k].payload,
                        closed_streams[k].0,
                        CloseReason::CLOSE_REASON_CONN_CLOSED,
                    ) by {
                        assert(self@.log[n + k] == before.log[n + k]);
                    }
                    lemma_readings_chain(old_view.clock, c2, self@.clock, 1 + i as int, 1);
                } else {
                    assert(c2.take(c2.len() as int) =~= c2);
                    lemma_readings_chain(old_view.clock, c2, self@.clock, 1, 0);
                }
            }
        }
        proof {
            assert(self@.clock[k0] == c2[k0]) by {
                if self@.clock.len() > c2.len() {
                    assert(self@.clock.take(c2.len() as int)[k0] == self@.clock[k0]);
                }
            }
        }
    }

    /// What a reader that has stored every event up to `last_acked` needs
    /// to catch up: the events after it, if the ring still holds them all,
    /// or else a snapshot of the whole state (strings, peers, connections,
    /// streams), stamped now and numbered 0.
    pub fn events_from_seq(&self, last_acked: u64) -> (r: CatchUp)
        requires
            self.wf(),
            self@.ring.len() > 0 ==> last_acked < u64::MAX,
        ensures
            catch_up_is(r, self@, last_acked),
    {
        let ghost v = self@;
        let ghost log = self@.log;
        let ghost ring = self@.ring;
        if self.ring.len() > 0 {
            let oldest_seq = self.ring[0].seq;
            let ghost base = log.len() - ring.len();
            proof {
                assert(ring[0] == log[base]);
                assert(oldest_seq == base + 1);
            }
            if last_acked >= oldest_seq - 1 {
                let mut out: Vec<Arc<Envelope>> = Vec::new();
                let mut i: usize = 0;
                while i < self.ring.len()
                    invariant
                        i <= self.ring.len(),
                        self@ == v,
                        self.wf(),
                        log == v.log,
                        ring == v.ring,
                        base == log.len() - ring.len(),
                        last_acked >= base,
                        out@.map_values(|a: Arc<Envelope>| *a) == log.subrange(
                            if last_acked < base + i { last_acked as int } else { base + i },
                            base + i,
                        ),
                    decreases self.ring.len() - i,
                {
                    let e = &self.ring[i];
                    let ghost old_out = out@.map_values(|a: Arc<Envelope>| *a);
                    proof {
                        assert(ring[i as int] == log[base + i]);
                        assert(log[base + i].seq == base + i + 1);
                    }
                    if e.seq > last_acked {
                        out.push(share(e));
                        proof {
                            assert(out@.map_values(|a: Arc<Envelope>| *a) =~= old_out.push(log[base + i]));
                            assert(log.subrange(last_acked as int, base + i + 1) =~= log.subrange(
                                last_acked as int,
                                base + i,
                            ).push(log[base + i]));
                        }
                    }
                    i = i + 1;
                }
                proof {
                    assert(base + ring.len() == log.len());
                    if last_acked < log.len() {
                        assert(log.subrange(last_acked as int, log.len() as int) =~= log.skip(
                            last_acked as int,
                        ));
                    } else {
                        assert(log.subrange(log.len() as int, log.len() as int) =~= Seq::<
                            Envelope,
                        >::empty());
                    }
                }
                return CatchUp::Replay(out);
            }
        }
        let defs = self.interner.snapshot();
        let mut payloads = self.state.generate_snapshot();
        let ghost p = payloads@;
        let ghost strings = self@.strings;
        let ghost ns = strings.len() as int;
        let mut envelopes: Vec<Envelope> = Vec::new();
        let mut first = OneOfpayload::none;
        std::mem::swap(&mut first, &mut payloads[0]);
        envelopes.push(Envelope { seq: 0, observed_at_ns: now_ns(), payload: first });
        let mut i: usize = 0;
        while i < defs.len()
            invariant
                i <= defs.len(),
                ns == strings.len(),
                defs@.len() == ns,
                forall|j: int|
                    #![trigger defs@[j]]
                    0 <= j < defs.len() ==> defs@[j].id == j && defs@[j].value@ == strings[j],
                envelopes@.len() == 1 + i,
                forall|j: int| 0 <= j < envelopes@.len() ==> (#[trigger] envelopes@[j]).seq == 0,
                envelopes@[0].payload == p[0],
                forall|j: int|
                    0 <= j < i ==> is_string_def_payload(
                        #[trigger] envelopes@[1 + j].payload,
                        j as u32,
                        strings[j],
                    ),
            decreases defs.len() - i,
        {
            let def = crate::messages::StringDef { id: defs[i].id, value: defs[i].value.clone() };
            let ghost old_env = envelopes@;
            envelopes.push(
                Envelope { seq: 0, observed_at_ns: now_ns(), payload: OneOfpayload::string_def(def) },
            );
            proof {
                assert(defs@[i as int].id == i);
                assert forall|j: int| 0 <= j < i + 1 implies is_string_def_payload(
                    #[trigger] envelopes@[1 + j].payload,
                    j as u32,
                    strings[j],
                ) by {
                    if j < i {
                        assert(envelopes@[1 + j] == old_env[1 + j]);
                    }
                }
            }
            i = i + 1;
        }
        let mut k: usize = 1;
        while k < payloads.len()
            invariant
                1 <= k <= payloads.len(),
                payloads@.len() == p.len(),
                ns == strings.len(),
                forall|j: int| k <= j < p.len() ==> #[trigger] payloads@[j] == p[j],
                envelopes@.len() == ns + k,
                forall|j: int| 0 <= j < envelopes@.len() ==> (#[trigger] envelopes@[j]).seq == 0,
                envelopes@[0].payload == p[0],
                forall|j: int|
                    0 <= j < ns ==> is_string_def_payload(
                        #[trigger] envelopes@[1 + j].payload,
                        j as u32,
                        strings[j],
                    ),
                forall|j: int| 1 <= j < k ==> #[trigger] envelopes@[ns + j].payload == p[j],
            decreases payloads.len() - k,
        {
            let mut item = OneOfpayload::none;
            std::mem::swap(&mut item, &mut payloads[k]);
            let ghost old_env = envelopes@;
            envelopes.push(Envelope { seq: 0, observed_at_ns: now_ns(), payload: item });
            proof {
                assert forall|j: int| 0 <= j < ns implies is_string_def_payload(
                    #[trigger] envelopes@[1 + j].payload,
                    j as u32,
                    strings[j],
                ) by {
                    assert(envelopes@[1 + j] == old_env[1 + j]);
                }
                assert forall|j: int| 1 <= j < k + 1 implies #[trigger] envelopes@[ns + j].payload
                    == p[j] by {
                    if j < k {
                        assert(envelopes@[ns + j] == old_env[ns + j]);
                    }
                }
            }
            k = k + 1;
        }
        proof {
            assert(is_snapshot_of(p, v.state));
            assert(is_catch_up_snapshot(envelopes@, v.strings, p));
        }
        CatchUp::Snapshot(envelopes)
    }

    /// Whether `k` more events can still be numbered.
    pub fn has_room(&self, k: u64) -> (r: bool)
        requires
            self.wf(),
        ensures
            r == self@.room_for(k as int),
    {
        k <= u64::MAX - self.seq
    }

    /// Whether `s` can be interned: it is known, or ids are left.
    pub fn can_intern(&self, s: &str) -> (r: bool)
        ensures
            r == (self@.strings.contains(s@) || self@.strings.len() < u32::MAX),
    {
        self.interner.contains(s) || self.interner.len() < 0xFFFF_FFFF
    }

    /// Whether ids are left for a new string.
    pub fn can_intern_new(&self) -> (r: bool)
        ensures
            r == (self@.strings.len() < u32::MAX),
    {
        self.interner.len() < 0xFFFF_FFFF
    }

    /// Whether the peer with these identity bytes can be registered: it is
    /// known, or aliases are left.
    pub fn can_register_peer(&self, peer_id: &[u8]) -> (r: bool)
        ensures
            r == (self@.state.peers.contains(peer_id@) || self@.state.peers.len() < u64::MAX),
    {
        self.state.knows_peer(peer_id) || (self.state.peer_count() as u64) < 0xFFFF_FFFF_FFFF_FFFF
    }

    /// Whether a connection alias is left.
    pub fn can_add_connection(&self) -> (r: bool)
        ensures
            r == (self@.state.next_conn_alias < u64::MAX),
    {
        self.state.next_conn_alias() < 0xFFFF_FFFF_FFFF_FFFF
    }

    /// Whether a stream alias is left.
    pub fn can_add_stream(&self) -> (r: bool)
        ensures
            r == (self@.state.next_stream_alias < u64::MAX),
    {
        self.state.next_stream_alias() < 0xFFFF_FFFF_FFFF_FFFF
    }

    /// How many streams are open.
    pub fn open_streams(&self) -> (n: usize)
        ensures
            n == self@.state.streams.len(),
    {
        self.state.stream_count()
    }

    /// What a well-formed emitter guarantees: events are numbered 1, 2, 3,
    /// ... in the order they were emitted; the ring holds the latest of
    /// them, as many as its capacity allows (at least one), so its sequence
    /// numbers run on without a gap up to the last one emitted; every sink has
    /// been offered, in order, exactly the events logged since it was added;
    /// every event is stamped with a reading of the clock, the readings
    /// taken in the order the events were logged;
    /// the interned strings are distinct; the tracker's state is well formed.
    pub proof fn lemma_wf(&self)
        requires
            self.wf(),
        ensures
            forall|i: int| 0 <= i < self@.log.len() ==> (#[trigger] self@.log[i]).seq == i + 1,
            self@.ring.len() == ring_len(self@.log.len(), self@.ring_capacity),
            self@.ring == self@.log.skip(self@.log.len() - self@.ring.len()),
            self@.ring.len() <= (if self@.ring_capacity == 0 { 1 } else { self@.ring_capacity as int }),
            ({
                let cap: int = if self@.ring_capacity == 0 { 1 } else { self@.ring_capacity as int };
                self@.ring.len() == if self@.log.len() < cap { self@.log.len() as int } else { cap }
            }),
            forall|i: int|
                0 <= i < self@.ring.len() ==> (#[trigger] self@.ring[i]).seq == self@.log.len()
                    - self@.ring.len() + i + 1,
            self@.strings.no_duplicates(),
            self@.state.wf(),
            exists|by: Seq<int>| stamps_from(self@.log, self@.clock, by),
            self@.offered.len() == self@.sink_starts.len(),
            forall|i: int| 0 <= i < self@.sink_starts.len() ==> #[trigger] self@.sink_starts[i] <= self@.log.len(),
            forall|i: int|
                0 <= i < self@.offered.len() ==> #[trigger] self@.offered[i] == self@.log.skip(
                    self@.sink_starts[i] as int,
                ),
    {
        let v = self@;
        assert(stamps_from(v.log, v.clock, self.stamped_by@));
        assert forall|i: int| 0 <= i < v.ring.len() implies (#[trigger] v.ring[i]).seq == v.log.len()
            - v.ring.len() + i + 1 by {
            assert(v.ring[i] == v.log[v.log.len() - v.ring.len() + i]);
        }
    }

    /// A reader is caught up by replay whenever it missed no more events
    /// than the ring's capacity (at least one): the ring still holds them.
    pub proof fn lemma_replays_within_capacity(&self, last_acked: u64)
        requires
            self.wf(),
            self@.log.len() > 0,
            last_acked <= self@.log.len(),
            self@.log.len() - last_acked <= (if self@.ring_capacity == 0 { 1 } else { self@.ring_capacity as int }),
        ensures
            replays(self@, last_acked),
            missed_events(self@.log, last_acked).len() == self@.log.len() - last_acked,
    {
        self.lemma_wf();
        let v = self@;
        assert(v.ring[0].seq == v.log.len() - v.ring.len() + 1);
    }

    /// Catching up by replay loses nothing and repeats nothing: the events a
    /// reader has acknowledged, followed by the events it missed, are the
    /// whole log, and the missed ones are numbered on from `last_acked + 1`.
    pub proof fn lemma_replay_completes_log(&self, last_acked: u64)
        requires
            self.wf(),
            last_acked <= self@.log.len(),
        ensures
            self@.log.take(last_acked as int) + missed_events(self@.log, last_acked) == self@.log,
            forall|i: int|
                0 <= i < missed_events(self@.log, last_acked).len() ==> (#[trigger] missed_events(
                    self@.log,
                    last_acked,
                )[i]).seq == last_acked + 1 + i,
    {
        let log = self@.log;
        if last_acked < log.len() {
            assert(log.take(last_acked as int) + log.skip(last_acked as int) =~= log);
            assert forall|i: int| 0 <= i < log.skip(last_acked as int).len() implies (#[trigger] log.skip(
                last_acked as int,
            )[i]).seq == last_acked + 1 + i by {
                assert(log.skip(last_acked as int)[i] == log[last_acked + i]);
            }
        } else {
            assert(log.take(last_acked as int) + Seq::<Envelope>::empty() =~= log);
        }
    }

    /// How many envelopes the ring holds.
    pub fn ring_len(&self) -> (n: usize)
        requires
            self.wf(),
        ensures
            n == self@.ring.len(),
    {
        self.ring.len()
    }

    /// The sequence number of the `i`-th envelope in the ring, oldest first.
    pub fn ring_seq_at(&self, i: usize) -> (seq: u64)
        requires
            self.wf(),
            i < self@.ring.len(),
        ensures
            seq == self@.ring[i as int].seq,
    {
        self.ring[i].seq
    }
}

} // verus!
