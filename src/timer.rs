//! Wall-clock and cycle-counter stopwatches: each click records a reading,
//! and the laps are the differences between consecutive readings.
use vstd::prelude::*;
use std::time::{Duration, Instant};

verus! {

#[verifier::external_type_specification]
#[verifier::external_body]
pub struct ExInstant(std::time::Instant);

/// Relies on `Instant::now`: a reading of the monotonic clock, of which
/// nothing is assumed here.
pub assume_specification[ std::time::Instant::now ]() -> Instant;

/// Relies on `Instant::duration_since`: the time elapsed from `earlier` to
/// `self`, zero where `earlier` is later.
pub assume_specification[ std::time::Instant::duration_since ](i: &Instant, earlier: Instant) -> Duration;

/// Relies on `Duration::as_secs`: the whole seconds of the duration.
pub assume_specification[ std::time::Duration::as_secs ](d: &Duration) -> u64;

/// Relies on `Duration::subsec_millis`: the milliseconds past the whole
/// seconds, which the documentation bounds below one thousand.
pub assume_specification[ std::time::Duration::subsec_millis ](d: &Duration) -> (r: u32)
    ensures
        r < 1000,
;

/// `secs` seconds and `millis` milliseconds, in milliseconds, saturating at
/// `u64::MAX`.
pub open spec fn millis_of(secs: u64, millis: u32) -> u64 {
    if 1000 * secs + millis > u64::MAX {
        u64::MAX
    } else {
        (1000 * secs + millis) as u64
    }
}

/// `secs` seconds and `millis` milliseconds, in milliseconds.
pub fn total_millis(secs: u64, millis: u32) -> (r: u64)
    requires
        millis < 1000,
    ensures
        r == millis_of(secs, millis),
{
    if secs > (u64::MAX - millis as u64) / 1000 {
        assert(1000 * secs + millis > u64::MAX) by (nonlinear_arith)
            requires
                secs > (u64::MAX - millis as u64) / 1000,
                millis < 1000,
        ;
        u64::MAX
    } else {
        assert(1000 * secs + millis <= u64::MAX) by (nonlinear_arith)
            requires
                secs <= (u64::MAX - millis as u64) / 1000,
                millis < 1000,
        ;
        1000 * secs + millis as u64
    }
}

/// Records instants of the wall clock.
pub struct Stopwatch {
    instants: Vec<Instant>,
}

impl View for Stopwatch {
    type V = Seq<Instant>;

    /// The recorded instants, oldest first.
    closed spec fn view(&self) -> Seq<Instant> {
        self.instants@
    }
}

impl Stopwatch {
    /// A stopwatch with no clicks.
    pub fn new() -> (s: Stopwatch)
        ensures
            s@.len() == 0,
    {
        Stopwatch { instants: Vec::new() }
    }

    /// Records the current instant.
    pub fn click(&mut self)
        ensures
            final(self)@.len() == old(self)@.len() + 1,
            final(self)@.subrange(0, old(self)@.len() as int) == old(self)@,
    {
        self.instants.push(Instant::now());
        assert(self@.subrange(0, old(self)@.len() as int) =~= old(self)@);
    }

    /// The milliseconds between each click and the next, each from the
    /// seconds and milliseconds of the duration between the two instants.
    pub fn laps_millis(&self) -> (laps: Vec<u64>)
        ensures
            laps@.len() == if self@.len() == 0 {
                0
            } else {
                self@.len() - 1
            },
    {
        let mut laps: Vec<u64> = Vec::new();
        let mut k: usize = 1;
        while k < self.instants.len()
            invariant
                1 <= k,
                k == 1 || k <= self.instants@.len(),
                laps@.len() == k - 1,
            decreases self.instants@.len() - k,
        {
            let elapsed = self.instants[k].duration_since(self.instants[k - 1]);
            let secs = elapsed.as_secs();
            let millis = elapsed.subsec_millis();
            laps.push(total_millis(secs, millis));
            k = k + 1;
        }
        laps
    }
}

/// Records readings of the processor's cycle counter, taken by the caller.
pub struct CycleCounter {
    instants: Vec<i64>,
}

impl View for CycleCounter {
    type V = Seq<i64>;

    closed spec fn view(&self) -> Seq<i64> {
        self.instants@
    }
}

impl CycleCounter {
    /// A counter with no readings.
    pub fn new() -> (c: CycleCounter)
        ensures
            c@.len() == 0,
    {
        CycleCounter { instants: Vec::new() }
    }

    /// Records the reading `cpu_timestamp`.
    pub fn click(&mut self, cpu_timestamp: i64)
        ensures
            final(self)@ == old(self)@.push(cpu_timestamp),
    {
        self.instants.push(cpu_timestamp);
    }

    /// The cycles between each reading and the next; the counter wraps, so
    /// the difference does too.
    pub fn laps(&self) -> (laps: Vec<i64>)
        ensures
            laps@.len() == if self@.len() == 0 {
                0
            } else {
                self@.len() - 1
            },
            forall|k: int| 0 <= k < laps@.len() ==> #[trigger] laps@[k] == self@[k + 1].wrapping_sub(self@[k]),
    {
        let mut laps: Vec<i64> = Vec::new();
        let mut k: usize = 1;
        while k < self.instants.len()
            invariant
                1 <= k,
                k == 1 || k <= self.instants@.len(),
                laps@.len() == k - 1,
                forall|q: int| 0 <= q < laps@.len() ==> #[trigger] laps@[q] == self@[q + 1].wrapping_sub(self@[q]),
            decreases self.instants@.len() - k,
        {
            let later = self.instants[k];
            let earlier = self.instants[k - 1];
            laps.push(later.wrapping_sub(earlier));
            k = k + 1;
        }
        laps
    }
}

} // verus!
