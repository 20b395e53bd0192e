//! What a tapped stream does with the bytes that cross it: it logs them,
//! and it watches the multistream-select negotiation at the stream's start
//! to learn the stream's protocol.
use vstd::prelude::*;
use vstd::slice::{slice_subrange, slice_to_vec};
use vstd::utf8::{decode_utf8, valid_utf8};

use crate::bytes::{append_bytes, copy_bytes};
use crate::emitter::{announces_protocol, is_stream_closed_payload, log_grows, same_setup, with_protocol, Emitter};
use crate::messages::{CloseReason, Direction, OneOfpayload, StreamChunk};
use crate::state::{alias_index, has_alias, TrackerView};
use crate::varint::{
    decode_u64, lemma_strict_varint_extend, lemma_varint_roundtrip, strict_varint, two_to_64,
    varint_encoding,
};

verus! {

/// How many bytes the detector buffers before it gives up.
pub const MAX_DETECT_BUF: usize = 1024;

/// `msg` without one trailing newline, if it has one.
pub open spec fn strip_newline(msg: Seq<u8>) -> Seq<u8> {
    if msg.len() > 0 && msg[msg.len() - 1] == 0x0a {
        msg.drop_last()
    } else {
        msg
    }
}

/// The protocol that the start `buf` of a multistream-select exchange
/// names, once it is all there: the header message (a varint length and
/// that many bytes) is skipped, the second varint-delimited message is the
/// protocol, less its trailing newline, if it is UTF-8.
pub open spec fn detected_protocol(buf: Seq<u8>) -> Option<Seq<char>> {
    match strict_varint(buf) {
        Ok((len1, n1)) => {
            let rest = buf.skip(n1 as int);
            if rest.len() < len1 {
                None
            } else {
                let rest2 = rest.skip(len1 as int);
                match strict_varint(rest2) {
                    Ok((len2, n2)) => {
                        let rest3 = rest2.skip(n2 as int);
                        if rest3.len() < len2 {
                            None
                        } else {
                            let proto = strip_newline(rest3.take(len2 as int));
                            if valid_utf8(proto) {
                                Some(decode_utf8(proto))
                            } else {
                                None
                            }
                        }
                    },
                    Err(_) => None,
                }
            }
        },
        Err(_) => None,
    }
}

/// `String::from_utf8`: the bytes as a string when they are valid UTF-8.
#[verifier::external_body]
pub(crate) fn string_from_utf8(bytes: Vec<u8>) -> (s: Option<String>)
    ensures
        s is Some <==> valid_utf8(bytes@),
        s matches Some(s) ==> s@ == decode_utf8(bytes@),
{
    String::from_utf8(bytes).ok()
}

/// Learns a stream's protocol from the negotiation at its start. It
/// watches the initiating direction only: written bytes on outbound
/// streams (we dialed), read bytes on inbound ones (the remote dialed).
pub struct ProtocolDetector {
    buf: Vec<u8>,
    watch_out: bool,
    done: bool,
}

/// The detector's state: the bytes buffered, whether it watches written
/// bytes, and whether it has finished (found the protocol or given up).
pub struct DetectorView {
    pub buf: Seq<u8>,
    pub watch_out: bool,
    pub done: bool,
}

impl View for ProtocolDetector {
    type V = DetectorView;

    closed spec fn view(&self) -> DetectorView {
        DetectorView { buf: self.buf@, watch_out: self.watch_out, done: self.done }
    }
}

/// The detector after taking `data` from the watched direction, and what
/// that feed reports.
pub open spec fn feed_step(d: DetectorView, data: Seq<u8>) -> (DetectorView, Option<Seq<char>>) {
    if d.done {
        (d, None)
    } else {
        let buf = d.buf + data;
        if buf.len() > MAX_DETECT_BUF {
            (DetectorView { buf, done: true, ..d }, None)
        } else {
            let r = detected_protocol(buf);
            (DetectorView { buf, done: r is Some, ..d }, r)
        }
    }
}

/// The string view of an optional protocol name.
pub open spec fn opt_view(s: Option<String>) -> Option<Seq<char>> {
    match s {
        Some(s) => Some(s@),
        None => None,
    }
}

impl ProtocolDetector {
    pub fn new(stream_direction: Direction) -> (r: Self)
        ensures
            r@ == (DetectorView {
                buf: Seq::empty(),
                watch_out: stream_direction == Direction::DIRECTION_OUT,
                done: false,
            }),
    {
        ProtocolDetector {
            buf: Vec::new(),
            watch_out: stream_direction == Direction::DIRECTION_OUT,
            done: false,
        }
    }

    /// Bytes read from the stream: watched on inbound streams only.
    pub fn feed_read(&mut self, data: &[u8]) -> (r: Option<String>)
        ensures
            old(self)@.watch_out ==> final(self)@ == old(self)@ && r is None,
            !old(self)@.watch_out ==> (final(self)@, opt_view(r)) == feed_step(old(self)@, data@),
    {
        if self.watch_out {
            return None;
        }
        self.do_feed(data)
    }

    /// Bytes written to the stream: watched on outbound streams only.
    pub fn feed_write(&mut self, data: &[u8]) -> (r: Option<String>)
        ensures
            !old(self)@.watch_out ==> final(self)@ == old(self)@ && r is None,
            old(self)@.watch_out ==> (final(self)@, opt_view(r)) == feed_step(old(self)@, data@),
    {
        if !self.watch_out {
            return None;
        }
        self.do_feed(data)
    }

    fn do_feed(&mut self, data: &[u8]) -> (r: Option<String>)
        ensures
            (final(self)@, opt_view(r)) == feed_step(old(self)@, data@),
    {
        if self.done {
            return None;
        }
        append_bytes(&mut self.buf, data);
        if self.buf.len() > MAX_DETECT_BUF {
            self.done = true;
            return None;
        }
        let result = self.try_parse();
        if result.is_some() {
            self.done = true;
        }
        result
    }

    /// Whether the detector has finished.
    pub fn is_done(&self) -> (r: bool)
        ensures
            r == self@.done,
    {
        self.done
    }

    fn try_parse(&self) -> (r: Option<String>)
        ensures
            opt_view(r) == detected_protocol(self@.buf),
    {
        let buf = self.buf.as_slice();
        let (len1, rest) = match decode_u64(buf) {
            Ok(x) => x,
            Err(_) => return None,
        };
        if (rest.len() as u64) < len1 {
            return None;
        }
        let rest = slice_subrange(rest, len1 as usize, rest.len());
        let (len2, rest) = match decode_u64(rest) {
            Ok(x) => x,
            Err(_) => return None,
        };
        if (rest.len() as u64) < len2 {
            return None;
        }
        let msg = slice_subrange(rest, 0, len2 as usize);
        let proto = if msg.len() > 0 && msg[msg.len() - 1] == 0x0a {
            slice_subrange(msg, 0, msg.len() - 1)
        } else {
            msg
        };
        proof {
            assert(msg@ == rest@.take(len2 as int));
            if msg.len() > 0 && msg@[msg.len() - 1] == 0x0a {
                assert(proto@ =~= msg@.drop_last());
            }
        }
        string_from_utf8(slice_to_vec(proto))
    }
}

/// The concatenation of `bufs`.
pub open spec fn flatten_bytes(bufs: Seq<Seq<u8>>) -> Seq<u8>
    decreases bufs.len(),
{
    if bufs.len() == 0 {
        Seq::empty()
    } else {
        flatten_bytes(bufs.drop_last()) + bufs.last()
    }
}

/// The first `n` bytes of a vectored transfer: the buffers' contents in
/// order, up to `n` bytes (or all of them, if they hold fewer).
pub fn gather_prefix(bufs: &[&[u8]], n: usize) -> (data: Vec<u8>)
    ensures
        ({
            let all = flatten_bytes(bufs@.map_values(|b: &[u8]| b@));
            data@ == all.take(if n <= all.len() { n as int } else { all.len() as int })
        }),
{
    let ghost views = bufs@.map_values(|b: &[u8]| b@);
    let mut data: Vec<u8> = Vec::new();
    let mut remaining = n;
    let mut i: usize = 0;
    while i < bufs.len() && remaining > 0
        invariant
            i <= bufs.len(),
            views == bufs@.map_values(|b: &[u8]| b@),
            remaining <= n,
            data@.len() + remaining == n,
            data@.len() <= flatten_bytes(views.take(i as int)).len(),
            data@ == flatten_bytes(views.take(i as int)).take(data@.len() as int),
            remaining > 0 ==> data@ == flatten_bytes(views.take(i as int)),
        decreases bufs.len() - i,
    {
        let buf = bufs[i];
        let ghost prev = flatten_bytes(views.take(i as int));
        proof {
            assert(views.take(i + 1).drop_last() =~= views.take(i as int));
            assert(views.take(i + 1).last() == buf@);
            assert(flatten_bytes(views.take(i + 1)) == prev + buf@);
        }
        let take = if remaining < buf.len() { remaining } else { buf.len() };
        let part = slice_subrange(buf, 0, take);
        let ghost old_data = data@;
        append_bytes(&mut data, part);
        remaining = remaining - take;
        i = i + 1;
        proof {
            let next = flatten_bytes(views.take(i as int));
            assert(next == prev + buf@);
            assert(old_data == prev);
            assert(data@ == prev + buf@.take(take as int));
            assert(data@ =~= next.take(data@.len() as int));
            if remaining > 0 {
                assert(take == buf@.len());
                assert(data@ =~= next);
            }
        }
    }
    proof {
        let all = flatten_bytes(views);
        let pre = flatten_bytes(views.take(i as int));
        lemma_flatten_prefix(views, i as int);
        assert(views.take(bufs.len() as int) =~= views);
        if remaining == 0 {
            assert(all.take(n as int) =~= pre.take(n as int));
        } else {
            assert(i == bufs.len());
            assert(all.take(all.len() as int) =~= all);
        }
    }
    data
}

/// A prefix of the buffers flattens to a prefix of the whole.
pub proof fn lemma_flatten_prefix(bufs: Seq<Seq<u8>>, i: int)
    requires
        0 <= i <= bufs.len(),
    ensures
        flatten_bytes(bufs.take(i)).len() <= flatten_bytes(bufs).len(),
        flatten_bytes(bufs) == flatten_bytes(bufs.take(i)) + flatten_bytes(bufs.skip(i)),
    decreases bufs.len() - i,
{
    if i == bufs.len() {
        assert(bufs.take(i) =~= bufs);
        assert(bufs.skip(i) =~= Seq::<Seq<u8>>::empty());
        assert(flatten_bytes(bufs) + Seq::<u8>::empty() =~= flatten_bytes(bufs));
    } else {
        lemma_flatten_prefix(bufs, i + 1);
        let s = bufs.skip(i);
        assert(bufs.take(i + 1).drop_last() =~= bufs.take(i));
        assert(bufs.take(i + 1).last() == bufs[i]);
        lemma_flatten_front(s);
        assert(s.drop_first() =~= bufs.skip(i + 1));
        assert(s[0] == bufs[i]);
    }
}

/// Flattening peels off the first buffer too.
pub proof fn lemma_flatten_front(bufs: Seq<Seq<u8>>)
    requires
        bufs.len() > 0,
    ensures
        flatten_bytes(bufs) == bufs[0] + flatten_bytes(bufs.drop_first()),
    decreases bufs.len(),
{
    if bufs.len() == 1 {
        assert(bufs.drop_last() =~= Seq::<Seq<u8>>::empty());
        assert(bufs.drop_first() =~= Seq::<Seq<u8>>::empty());
        assert(Seq::<u8>::empty() + bufs[0] =~= bufs[0] + Seq::<u8>::empty());
    } else {
        lemma_flatten_front(bufs.drop_last());
        assert(bufs.drop_last().drop_first() =~= bufs.drop_first().drop_last());
        assert(bufs.drop_first().last() == bufs.last());
        assert(bufs.drop_last()[0] == bufs[0]);
        let a = bufs[0];
        let m = flatten_bytes(bufs.drop_first().drop_last());
        let z = bufs.last();
        assert((a + m) + z =~= a + (m + z));
    }
}

/// `p` carries the bytes `data` that crossed stream `alias` in `direction`.
pub open spec fn is_chunk_payload(p: OneOfpayload, alias: u64, direction: Direction, data: Seq<u8>) -> bool {
    p matches OneOfpayload::stream_chunk(c) && c.stream_alias == alias && c.direction == direction
        && c.data@ == data
}

/// A tap's detector after bytes pass in one direction (`read`: from the
/// remote), and the protocol found, if any. A detector that finishes is
/// dropped.
pub open spec fn tap_feed(d: Option<DetectorView>, data: Seq<u8>, read: bool) -> (
    Option<DetectorView>,
    Option<Seq<char>>,
) {
    match d {
        None => (None, None),
        Some(d) => {
            let (d2, found) = if read != d.watch_out {
                feed_step(d, data)
            } else {
                (d, None)
            };
            (if d2.done { None } else { Some(d2) }, found)
        },
    }
}

/// What a tapped stream keeps: its alias until it is closed, and the
/// protocol detector until it finishes.
pub struct StreamTap {
    stream_alias: Option<u64>,
    detector: Option<ProtocolDetector>,
}

impl StreamTap {
    /// The stream's alias, until the stream is closed.
    pub closed spec fn alias(&self) -> Option<u64> {
        self.stream_alias
    }

    /// The protocol detector, until it finishes.
    pub closed spec fn detector(&self) -> Option<DetectorView> {
        match self.detector {
            Some(d) => Some(d@),
            None => None,
        }
    }

    pub fn new(stream_alias: u64, direction: Direction) -> (r: Self)
        ensures
            r.alias() == Some(stream_alias),
            r.detector() == Some(
                DetectorView {
                    buf: Seq::empty(),
                    watch_out: direction == Direction::DIRECTION_OUT,
                    done: false,
                },
            ),
    {
        StreamTap { stream_alias: Some(stream_alias), detector: Some(ProtocolDetector::new(direction)) }
    }

    /// Whether passing `data` through the tap in `direction` leaves room
    /// for the protocol it may learn: ids are left for a new string, or the
    /// protocol it would learn (if any) is interned already.
    pub fn fits(&self, emitter: &Emitter, data: &[u8], direction: Direction) -> (r: bool)
        ensures
            r == tap_fits(*self, emitter@, data@, direction),
    {
        if emitter.can_intern_new() {
            return true;
        }
        match &self.detector {
            None => true,
            Some(d) => {
                let mut probe = ProtocolDetector {
                    buf: copy_bytes(d.buf.as_slice()),
                    watch_out: d.watch_out,
                    done: d.done,
                };
                let found = if direction == Direction::DIRECTION_IN {
                    probe.feed_read(data)
                } else {
                    probe.feed_write(data)
                };
                match found {
                    Some(p) => emitter.can_intern(p.as_str()),
                    None => true,
                }
            },
        }
    }

    /// Bytes read from the stream.
    pub fn on_read(&mut self, emitter: &mut Emitter, data: &[u8])
        requires
            old(emitter).wf(),
            old(emitter)@.room_for(3),
            tap_fits(*old(self), old(emitter)@, data@, Direction::DIRECTION_IN),
        ensures
            final(emitter).wf(),
            tap_effect(*old(self), *final(self), old(emitter)@, final(emitter)@, data@, Direction::DIRECTION_IN),
    {
        self.on_data(emitter, data, Direction::DIRECTION_IN)
    }

    /// Bytes written to the stream.
    pub fn on_write(&mut self, emitter: &mut Emitter, data: &[u8])
        requires
            old(emitter).wf(),
            old(emitter)@.room_for(3),
            tap_fits(*old(self), old(emitter)@, data@, Direction::DIRECTION_OUT),
        ensures
            final(emitter).wf(),
            tap_effect(*old(self), *final(self), old(emitter)@, final(emitter)@, data@, Direction::DIRECTION_OUT),
    {
        self.on_data(emitter, data, Direction::DIRECTION_OUT)
    }

    fn on_data(&mut self, emitter: &mut Emitter, data: &[u8], direction: Direction)
        requires
            old(emitter).wf(),
            old(emitter)@.room_for(3),
            tap_fits(*old(self), old(emitter)@, data@, direction),
        ensures
            final(emitter).wf(),
            tap_effect(*old(self), *final(self), old(emitter)@, final(emitter)@, data@, direction),
    {
        if data.len() == 0 {
            return;
        }
        let alias = match self.stream_alias {
            Some(a) => a,
            None => return,
        };
        let mut found: Option<String> = None;
        let mut finished = false;
        match &mut self.detector {
            Some(d) => {
                found = if direction == Direction::DIRECTION_IN {
                    d.feed_read(data)
                } else {
                    d.feed_write(data)
                };
                finished = d.is_done();
            },
            None => {},
        }
        if finished {
            self.detector = None;
        }
        match &found {
            Some(protocol) => {
                emitter.set_stream_protocol(alias, protocol.as_str());
            },
            None => {},
        }
        proof {
            assert(emitter@.room_for(1));
        }
        let ghost mid = emitter@;
        let chunk = StreamChunk { stream_alias: alias, direction, data: slice_to_vec(data) };
        emitter.emit(OneOfpayload::stream_chunk(chunk));
        proof {
            let n = old(emitter)@.log.len() as int;
            let log = emitter@.log;
            if !mid.closed {
                assert(log.subrange(n, log.len() - 1) =~= mid.log.skip(n));
            }
        }
    }

    /// The stream has ended: reports it closed for `reason`, once (if the
    /// tracker still holds it).
    pub fn on_close(&mut self, emitter: &mut Emitter, reason: CloseReason)
        requires
            old(emitter).wf(),
            old(emitter)@.room_for(1),
        ensures
            final(emitter).wf(),
            close_effect(*old(self), *final(self), old(emitter)@, final(emitter)@, reason),
    {
        if let Some(alias) = self.stream_alias.take() {
            emitter.close_stream(alias, reason);
        }
    }
}

/// What closing a tap for `reason` does: the tap forgets its alias; if it
/// still had one that the tracker holds, the stream leaves the tracker and
/// (unless the emitter is closed) exactly one close for `reason` is logged;
/// otherwise nothing changes.
pub open spec fn close_effect(
    old_tap: StreamTap,
    new_tap: StreamTap,
    old_e: crate::emitter::EmitterView,
    new_e: crate::emitter::EmitterView,
    reason: CloseReason,
) -> bool {
    &&& new_tap.alias() is None
    &&& new_tap.detector() == old_tap.detector()
    &&& same_setup(old_e, new_e)
    &&& log_grows(old_e, new_e)
    &&& new_e.strings == old_e.strings
    &&& match old_tap.alias() {
        None => new_e == old_e,
        Some(a) => {
            let s = old_e.state.streams;
            let n = old_e.log.len();
            if has_alias(s, a) {
                &&& new_e.state == TrackerView { streams: s.remove(alias_index(s, a)), ..old_e.state }
                &&& new_e.log.len() == n + (if old_e.closed { 0int } else { 1int })
                &&& !old_e.closed ==> is_stream_closed_payload(new_e.log.last().payload, a, reason)
            } else {
                &&& new_e.state == old_e.state
                &&& new_e.log == old_e.log
            }
        },
    }
}

/// A stream is reported closed at most once: after a tap has been closed,
/// closing it again (for any reason) or passing bytes through it leaves the
/// emitter as it is.
pub proof fn lemma_close_is_final(
    t0: StreamTap,
    t1: StreamTap,
    t2: StreamTap,
    e0: crate::emitter::EmitterView,
    e1: crate::emitter::EmitterView,
    e2: crate::emitter::EmitterView,
    first: CloseReason,
    second: CloseReason,
)
    requires
        close_effect(t0, t1, e0, e1, first),
        close_effect(t1, t2, e1, e2, second),
    ensures
        e2 == e1,
        t2.alias() is None,
        forall|t3: StreamTap, e3: crate::emitter::EmitterView, data: Seq<u8>, dir: Direction|
            #[trigger] tap_effect(t1, t3, e1, e3, data, dir) ==> e3 == e1,
{
}

/// The protocol that passing `data` through `tap` in `direction` would
/// learn can be interned: ids are left, or it is interned already.
pub open spec fn tap_fits(
    tap: StreamTap,
    e: crate::emitter::EmitterView,
    data: Seq<u8>,
    direction: Direction,
) -> bool {
    e.strings.len() < u32::MAX || match tap_feed(tap.detector(), data, direction == Direction::DIRECTION_IN).1 {
        Some(p) => e.strings.contains(p),
        None => true,
    }
}

/// What passing `data` through a tap in `direction` does: nothing for no
/// bytes or a closed tap; otherwise the detector takes the bytes, a found
/// protocol is set on the stream (and announced), and the bytes are logged
/// as exactly one chunk.
pub open spec fn tap_effect(
    old_tap: StreamTap,
    new_tap: StreamTap,
    old_e: crate::emitter::EmitterView,
    new_e: crate::emitter::EmitterView,
    data: Seq<u8>,
    direction: Direction,
) -> bool {
    &&& new_tap.alias() == old_tap.alias()
    &&& same_setup(old_e, new_e)
    &&& log_grows(old_e, new_e)
    &&& if data.len() == 0 || old_tap.alias() is None {
        &&& new_tap.detector() == old_tap.detector()
        &&& new_e == old_e
    } else {
        let a = old_tap.alias()->0;
        let (d2, found) = tap_feed(old_tap.detector(), data, direction == Direction::DIRECTION_IN);
        &&& new_tap.detector() == d2
        &&& (new_e.state, new_e.strings) == match found {
            Some(p) => with_protocol(old_e.state, old_e.strings, a, p),
            None => (old_e.state, old_e.strings),
        }
        &&& old_e.closed ==> new_e.log == old_e.log
        &&& !old_e.closed ==> {
            &&& new_e.log.len() > old_e.log.len()
            &&& is_chunk_payload(new_e.log.last().payload, a, direction, data)
            &&& match found {
                Some(p) => announces_protocol(
                    old_e,
                    a,
                    p,
                    new_e.log.subrange(old_e.log.len() as int, new_e.log.len() - 1),
                ),
                None => new_e.log.len() == old_e.log.len() + 1,
            }
        }
    }
}

/// The multistream-select messages `header` and `proto`, each behind its
/// varint length.
pub open spec fn negotiation_bytes(header: Seq<u8>, proto: Seq<u8>) -> Seq<u8> {
    varint_encoding(header.len()) + header + varint_encoding(proto.len()) + proto
}

/// The detector finds the protocol that a negotiation names, whatever
/// follows it: the second message, less its newline, read as UTF-8.
#[verifier::spinoff_prover]
pub proof fn lemma_detects_negotiated_protocol(header: Seq<u8>, proto: Seq<u8>, rest: Seq<u8>)
    requires
        header.len() < two_to_64(),
        proto.len() < two_to_64(),
        valid_utf8(strip_newline(proto)),
    ensures
        detected_protocol(negotiation_bytes(header, proto) + rest) == Some(
            decode_utf8(strip_newline(proto)),
        ),
{
    let e1 = varint_encoding(header.len());
    let e2 = varint_encoding(proto.len());
    let buf = negotiation_bytes(header, proto) + rest;
    let tail1 = header + e2 + proto + rest;
    assert(buf =~= e1 + tail1);
    lemma_varint_roundtrip(header.len() as u64, tail1);
    assert(buf.skip(e1.len() as int) =~= tail1);
    let tail2 = proto + rest;
    assert(tail1.skip(header.len() as int) =~= e2 + tail2);
    lemma_varint_roundtrip(proto.len() as u64, tail2);
    assert((e2 + tail2).skip(e2.len() as int) =~= tail2);
    assert(tail2.take(proto.len() as int) =~= proto);
}

/// Once the detector has finished, it ignores everything.
pub proof fn lemma_finished_detector_ignores(d: DetectorView, data: Seq<u8>)
    requires
        d.done,
    ensures
        feed_step(d, data) == (d, None::<Seq<char>>),
{
}

/// Once the start of a stream names a protocol, more bytes after it do not
/// change the answer.
pub proof fn lemma_detected_protocol_extend(buf: Seq<u8>, more: Seq<u8>)
    requires
        detected_protocol(buf) is Some,
    ensures
        detected_protocol(buf + more) == detected_protocol(buf),
{
    lemma_strict_varint_extend(buf, more);
    let (len1, n1) = strict_varint(buf)->Ok_0;
    let rest = buf.skip(n1 as int);
    assert((buf + more).skip(n1 as int) =~= rest + more);
    let rest2 = rest.skip(len1 as int);
    assert((rest + more).skip(len1 as int) =~= rest2 + more);
    lemma_strict_varint_extend(rest2, more);
    let (len2, n2) = strict_varint(rest2)->Ok_0;
    let rest3 = rest2.skip(n2 as int);
    assert((rest2 + more).skip(n2 as int) =~= rest3 + more);
    assert((rest3 + more).take(len2 as int) =~= rest3.take(len2 as int));
}

/// The first protocol reported when the pieces of `chunks` are fed in turn
/// to a detector that starts as `d`.
pub open spec fn first_report(d: DetectorView, chunks: Seq<Seq<u8>>) -> Option<Seq<char>>
    decreases chunks.len(),
{
    if chunks.len() == 0 {
        None
    } else {
        let (d2, found) = feed_step(d, chunks[0]);
        if found is Some {
            found
        } else {
            first_report(d2, chunks.drop_first())
        }
    }
}

/// Detection does not depend on how the bytes are split: for a detector
/// still looking (none has found a protocol in what it holds), within its
/// buffer limit, feeding them piece by piece (a byte at a time,
/// say) reports the protocol that feeding them all at once reports.
pub proof fn lemma_detection_ignores_splits(d: DetectorView, chunks: Seq<Seq<u8>>)
    requires
        !d.done,
        detected_protocol(d.buf) is None,
        d.buf.len() + chunks.flatten().len() <= MAX_DETECT_BUF,
    ensures
        first_report(d, chunks) == feed_step(d, chunks.flatten()).1,
    decreases chunks.len(),
{
    if chunks.len() == 0 {
        assert(d.buf + chunks.flatten() =~= d.buf);
    } else {
        let c = chunks[0];
        let rest = chunks.drop_first();
        let (d2, found) = feed_step(d, c);
        assert(chunks.flatten() == c + rest.flatten());
        assert(d.buf + chunks.flatten() =~= (d.buf + c) + rest.flatten());
        if found is Some {
            lemma_detected_protocol_extend(d.buf + c, rest.flatten());
        } else {
            lemma_detection_ignores_splits(d2, rest);
        }
    }
}

/// How many of the feeds in `chunks`, given in turn to a detector that
/// starts as `d`, report a protocol.
pub open spec fn reports(d: DetectorView, chunks: Seq<Seq<u8>>) -> nat
    decreases chunks.len(),
{
    if chunks.len() == 0 {
        0
    } else {
        let (d2, found) = feed_step(d, chunks[0]);
        (if found is Some { 1nat } else { 0nat }) + reports(d2, chunks.drop_first())
    }
}

/// A detector reports a protocol at most once, whatever it is fed and in
/// however many pieces; a finished one reports nothing more, and a feed that
/// reports a protocol finishes it.
pub proof fn lemma_detector_reports_once(d: DetectorView, chunks: Seq<Seq<u8>>)
    ensures
        reports(d, chunks) <= 1,
        d.done ==> reports(d, chunks) == 0,
        chunks.len() > 0 && feed_step(d, chunks[0]).1 is Some ==> feed_step(d, chunks[0]).0.done,
    decreases chunks.len(),
{
    if chunks.len() > 0 {
        let (d2, found) = feed_step(d, chunks[0]);
        lemma_detector_reports_once(d2, chunks.drop_first());
    }
}

/// The detector gives up, for good, once more than [`MAX_DETECT_BUF`]
/// bytes have passed without a protocol.
pub proof fn lemma_detector_gives_up(d: DetectorView, data: Seq<u8>)
    requires
        !d.done,
        d.buf.len() + data.len() > MAX_DETECT_BUF,
    ensures
        feed_step(d, data).0.done,
        feed_step(d, data).1 is None,
{
}

} // verus!
