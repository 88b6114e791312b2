//! System time: a tick counter driven by the programmable timer, and a
//! high-resolution clock made of a known reference time plus an offset that
//! the timer advances.
use vstd::prelude::*;

verus! {

/// The system timer ticks at ~100Hz; each tick is this many 100ns units
pub const HUNDRED_NS_PER_TICK: u64 = 100002;
pub const MS_PER_TICK: u32 = 10;

/// High-resolution 64-bit timestamp representing the number of 100ns
/// increments since midnight 1 January 1980
#[derive(Copy, Clone, Debug, PartialEq, Eq, Structural)]
pub struct TimestampHires(pub u64);

/// Unsigned, 32-bit number of seconds since midnight on 1 January 1980,
/// neglecting leap seconds. This is not POSIX time.
#[derive(Copy, Clone, Debug, PartialEq, Eq, Structural)]
pub struct Timestamp(pub u32);

impl TimestampHires {
    pub fn set(&mut self, value: u64)
        ensures
            final(self).0 == value,
    {
        self.0 = value;
    }

    pub fn increment(&mut self, value: u64)
        requires
            old(self).0 + value <= u64::MAX,
        ensures
            final(self).0 == old(self).0 + value,
    {
        self.0 = self.0 + value;
    }

    pub fn in_ms(&self) -> (r: u64)
        ensures
            r == self.0 / 10_000,
    {
        self.0 / 10_000
    }

    pub fn in_seconds(&self) -> (r: u64)
        ensures
            r == self.0 / 10_000_000,
    {
        self.0 / 10_000_000
    }

    pub fn from_timestamp(ts: Timestamp) -> (r: Self)
        ensures
            r.0 == ts.0 * 10_000_000,
    {
        TimestampHires(ts.0 as u64 * 10_000_000)
    }

    /// Whole seconds, truncated to 32 bits
    pub fn to_timestamp(&self) -> (r: Timestamp)
        ensures
            r.0 == (self.0 / 10_000_000) as u32,
    {
        Timestamp(self.in_seconds() as u32)
    }
}

impl Timestamp {
    pub fn total_minutes(&self) -> (r: u32)
        ensures
            r == self.0 / 60,
    {
        self.0 / 60
    }

    pub fn as_u32(&self) -> (r: u32)
        ensures
            r == self.0,
    {
        self.0
    }
}

/// The counters behind system time
pub struct SystemClock {
    /// Clock ticks since the kernel began execution; wraps around
    pub ticks: u32,
    /// A known point in time, sourced from the RTC or a time service
    pub known_time: TimestampHires,
    /// Time elapsed since the known point, advanced by the timer
    pub offset: TimestampHires,
}

impl SystemClock {
    pub fn new() -> (r: Self)
        ensures
            r.ticks == 0,
            r.known_time.0 == 0,
            r.offset.0 == 0,
    {
        SystemClock { ticks: 0, known_time: TimestampHires(0), offset: TimestampHires(0) }
    }

    /// One timer tick: count it, and advance the offset by a tick's length
    pub fn tick(&mut self)
        requires
            old(self).offset.0 + HUNDRED_NS_PER_TICK <= u64::MAX,
        ensures
            final(self).ticks == (if old(self).ticks == u32::MAX { 0 } else { (old(self).ticks + 1) as u32 }),
            final(self).offset.0 == old(self).offset.0 + HUNDRED_NS_PER_TICK,
            final(self).known_time == old(self).known_time,
    {
        self.ticks = if self.ticks == u32::MAX { 0 } else { self.ticks + 1 };
        self.increment_offset(HUNDRED_NS_PER_TICK);
    }

    pub fn get_system_ticks(&self) -> (r: u32)
        ensures
            r == self.ticks,
    {
        self.ticks
    }

    /// Reset the reference point time
    pub fn reset_known_time(&mut self, time: u64)
        ensures
            final(self).known_time.0 == time,
            final(self).offset.0 == 0,
            final(self).ticks == old(self).ticks,
    {
        self.known_time.set(time);
        self.offset.set(0);
    }

    pub fn get_system_time(&self) -> (r: TimestampHires)
        requires
            self.known_time.0 + self.offset.0 <= u64::MAX,
        ensures
            r.0 == self.known_time.0 + self.offset.0,
    {
        TimestampHires(self.known_time.0 + self.offset.0)
    }

    pub fn get_offset_seconds(&self) -> (r: u64)
        ensures
            r == self.offset.0 / 10_000_000,
    {
        self.offset.in_seconds()
    }

    pub fn increment_offset(&mut self, delta: u64)
        requires
            old(self).offset.0 + delta <= u64::MAX,
        ensures
            final(self).offset.0 == old(self).offset.0 + delta,
            final(self).known_time == old(self).known_time,
            final(self).ticks == old(self).ticks,
    {
        self.offset.increment(delta);
    }

    /// Set the system time from a reading of the real-time clock
    pub fn initialize_time_from_rtc(&mut self, rtc_time: Timestamp)
        ensures
            final(self).known_time.0 == rtc_time.0 * 10_000_000,
            final(self).offset.0 == 0,
            final(self).ticks == old(self).ticks,
    {
        let system_time = TimestampHires::from_timestamp(rtc_time);
        self.reset_known_time(system_time.0)
    }
}

/// Converting whole seconds to the high-resolution clock and back gives the
/// same seconds
pub proof fn law_timestamp_round_trip(ts: Timestamp)
    ensures
        ((ts.0 * 10_000_000) / 10_000_000) as u32 == ts.0,
{
    assert((ts.0 * 10_000_000) / 10_000_000 == ts.0) by (nonlinear_arith);
}

/// The sum of a sequence of durations
pub open spec fn total(d: Seq<u64>) -> int
    decreases d.len(),
{
    if d.len() == 0 {
        0
    } else {
        total(d.drop_last()) + d.last()
    }
}

/// The clock after `increment_offset` advanced it by each of `d` in turn
pub open spec fn advanced(c: SystemClock, d: Seq<u64>) -> SystemClock
    decreases d.len(),
{
    if d.len() == 0 {
        c
    } else {
        let p = advanced(c, d.drop_last());
        SystemClock { offset: TimestampHires((p.offset.0 + d.last()) as u64), ..p }
    }
}

proof fn lemma_advanced(c: SystemClock, d: Seq<u64>)
    requires
        c.offset.0 + total(d) <= u64::MAX,
    ensures
        advanced(c, d).offset.0 == c.offset.0 + total(d),
        advanced(c, d).known_time == c.known_time,
        advanced(c, d).ticks == c.ticks,
        total(d) >= 0,
    decreases d.len(),
{
    if d.len() > 0 {
        lemma_advanced(c, d.drop_last());
    }
}

/// After the known time is reset to `t` and the offset advanced by each of `d`, the system
/// time is `t` plus their sum, the offset in seconds is that sum in seconds, and the tick count
/// is untouched.
pub proof fn law_time_after_increments(t: u64, ticks: u32, d: Seq<u64>)
    requires
        t + total(d) <= u64::MAX,
    ensures
        ({
            let c = advanced(SystemClock { ticks, known_time: TimestampHires(t), offset: TimestampHires(0) }, d);
            &&& c.known_time.0 + c.offset.0 == t + total(d)
            &&& c.offset.0 / 10_000_000 == total(d) / 10_000_000
            &&& c.ticks == ticks
        }),
{
    let c0 = SystemClock { ticks, known_time: TimestampHires(t), offset: TimestampHires(0) };
    lemma_advanced(c0, d);
}

} // verus!
