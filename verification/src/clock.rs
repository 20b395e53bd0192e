//! The wall clock, which stamps events.
use vstd::prelude::*;

verus! {

/// A handle on the wall clock that remembers every reading taken through
/// it, in order.
pub struct Clock {
    readings: Ghost<Seq<u128>>,
}

impl Clock {
    /// The readings taken so far (nanoseconds since the Unix epoch), oldest
    /// first.
    pub closed spec fn readings(&self) -> Seq<u128> {
        self.readings@
    }

    pub fn new() -> (r: Self)
        ensures
            r.readings() == Seq::<u128>::empty(),
    {
        Clock { readings: Ghost(Seq::empty()) }
    }

    /// Reads the clock once: the time in nanoseconds since the Unix epoch,
    /// as a signed 64-bit count (the low 64 bits of the reading).
    pub fn read_ns(&mut self) -> (t: i64)
        ensures
            final(self).readings().len() == old(self).readings().len() + 1,
            final(self).readings().drop_last() == old(self).readings(),
            t == stamp(final(self).readings().last()),
    {
        let n = unix_time_nanos(self);
        n as i64
    }
}

/// The signed 64-bit stamp of a clock reading: its low 64 bits.
pub open spec fn stamp(reading: u128) -> i64 {
    reading as i64
}

/// `web_time::SystemTime::now`, taken as nanoseconds since the Unix epoch
/// (0 when the clock stands before the epoch). Nothing is stated of the
/// value, which is the machine's clock; the reading is added to the
/// clock's record.
#[verifier::external_body]
pub(crate) fn unix_time_nanos(clock: &mut Clock) -> (r: u128)
    ensures
        final(clock).readings() == old(clock).readings().push(r),
{
    let _ = clock;
    web_time::SystemTime::now().duration_since(web_time::SystemTime::UNIX_EPOCH).map(
        |d| d.as_nanos(),
    ).unwrap_or(0)
}

/// The time in nanoseconds since the Unix epoch, as a signed 64-bit count
/// (the low 64 bits of the clock's value).
pub fn now_ns() -> i64 {
    let mut clock = Clock::new();
    clock.read_ns()
}

} // verus!
