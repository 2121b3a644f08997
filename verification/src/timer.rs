//! The elapsed-time tracker the overlay engine starts on the first probe and
//! stops when the game ends.
//!
//! Readings of the monotonic clock are opaque: nothing is assumed about how
//! much time passes between two readings.  What is verified is the state
//! machine around them: a stopped timer is frozen, so its reported time is a
//! pure function of the stored total and does not advance, and `resume`
//! continues accumulating from where `stop` left off.

use vstd::prelude::*;

verus! {

/// Declares std's monotonic clock instant so it can stand in a field; the
/// library never looks inside a value of it.
#[verifier::external_type_specification]
#[verifier::external_body]
pub struct ExInstant(std::time::Instant);

/// Relies on `std::time::Instant::now`: an opaque reading of the monotonic
/// clock.  Nothing is assumed of the value.
#[verifier::external_body]
fn instant_now() -> std::time::Instant {
    std::time::Instant::now()
}

/// Relies on `std::time::Instant::elapsed`: the time since the reading, as
/// an opaque duration.  Nothing is assumed of the value.
#[verifier::external_body]
fn elapsed_since(start: &std::time::Instant) -> std::time::Duration {
    start.elapsed()
}

/// Relies on `std::time::Duration::as_nanos`: the whole duration in
/// nanoseconds.  Nothing is assumed of the value.
#[verifier::external_body]
fn duration_nanos(d: &std::time::Duration) -> u128 {
    d.as_nanos()
}

/// The duration of `secs` whole seconds plus `nanos` nanoseconds, as
/// `std::time::Duration::new` builds it.
pub uninterp spec fn duration_of_parts(secs: u64, nanos: u32) -> std::time::Duration;

/// Relies on `std::time::Duration::new`: the duration of `secs` seconds plus
/// `nanos` nanoseconds, a deterministic function of its arguments.  With
/// `nanos` below one billion there is no carry, so the call cannot panic.
#[verifier::external_body]
fn duration_from_parts(secs: u64, nanos: u32) -> (d: std::time::Duration)
    requires
        nanos < 1_000_000_000,
    ensures
        d == duration_of_parts(secs, nanos),
{
    std::time::Duration::new(secs, nanos)
}

/// The whole seconds in `n` nanoseconds, saturating at `u64::MAX`.
pub open spec fn nanos_to_secs(n: u128) -> u64 {
    if n as int / 1_000_000_000 > u64::MAX as int {
        u64::MAX
    } else {
        (n as int / 1_000_000_000) as u64
    }
}

/// The nanosecond remainder of `n` below one second, pinned to the largest
/// remainder when the seconds saturate.
pub open spec fn nanos_to_subsec(n: u128) -> u32 {
    if n as int / 1_000_000_000 > u64::MAX as int {
        999_999_999u32
    } else {
        (n as int % 1_000_000_000) as u32
    }
}

/// A stopwatch over the monotonic clock: `start`/`resume` anchor a reading,
/// `stop` folds the time since the anchor into a running total of
/// nanoseconds.
#[derive(Debug)]
pub struct Timer {
    start: Option<std::time::Instant>,
    excess_nanos: u128,
}

impl Timer {
    /// The timer is currently accumulating time.
    pub closed spec fn spec_is_running(self) -> bool {
        self.start is Some
    }

    /// The nanoseconds accumulated up to the last stop.
    pub closed spec fn spec_excess(self) -> u128 {
        self.excess_nanos
    }

    /// A stopped timer at zero.
    pub fn new() -> (t: Timer)
        ensures
            !t.spec_is_running(),
            t.spec_excess() == 0,
    {
        Timer { start: None, excess_nanos: 0 }
    }

    /// Restart from zero and run.
    pub fn start(&mut self)
        ensures
            final(self).spec_is_running(),
            final(self).spec_excess() == 0,
    {
        self.excess_nanos = 0;
        self.resume();
    }

    /// Freeze the accumulated time.  Stopping a stopped timer changes
    /// nothing; stopping a running one never loses time already accumulated.
    pub fn stop(&mut self)
        ensures
            !final(self).spec_is_running(),
            !old(self).spec_is_running() ==> final(self).spec_excess() == old(self).spec_excess(),
            final(self).spec_excess() >= old(self).spec_excess(),
    {
        let stopped;
        match &self.start {
            Some(s) => {
                let d = elapsed_since(s);
                stopped = Some(duration_nanos(&d));
            },
            None => {
                stopped = None;
            },
        }
        if let Some(e) = stopped {
            self.excess_nanos = self.excess_nanos.saturating_add(e);
            self.start = None;
        }
    }

    /// Back to a stopped timer at zero.
    pub fn reset(&mut self)
        ensures
            !final(self).spec_is_running(),
            final(self).spec_excess() == 0,
    {
        self.excess_nanos = 0;
        self.start = None;
    }

    /// Run again, keeping the accumulated time.
    pub fn resume(&mut self)
        ensures
            final(self).spec_is_running(),
            final(self).spec_excess() == old(self).spec_excess(),
    {
        self.start = Some(instant_now());
    }

    /// The accumulated nanoseconds, including the running stretch if there
    /// is one.  While the timer is stopped this is exactly the frozen total.
    fn total_nanos(&self) -> (n: u128)
        ensures
            !self.spec_is_running() ==> n == self.spec_excess(),
            n >= self.spec_excess(),
    {
        match &self.start {
            None => self.excess_nanos,
            Some(s) => {
                let d = elapsed_since(s);
                self.excess_nanos.saturating_add(duration_nanos(&d))
            },
        }
    }

    /// The elapsed time as a duration.  While the timer is stopped, the
    /// result is a pure function of the frozen total: time passing between
    /// two calls does not change it.
    pub fn time(&self) -> (d: std::time::Duration)
        ensures
            !self.spec_is_running() ==> d == duration_of_parts(
                nanos_to_secs(self.spec_excess()),
                nanos_to_subsec(self.spec_excess()),
            ),
    {
        let n = self.total_nanos();
        let secs_wide = n / 1_000_000_000;
        if secs_wide > u64::MAX as u128 {
            duration_from_parts(u64::MAX, 999_999_999)
        } else {
            duration_from_parts(secs_wide as u64, (n % 1_000_000_000) as u32)
        }
    }

    /// The elapsed time in whole seconds; frozen while the timer is
    /// stopped, and while it runs never below the frozen total's seconds.
    pub fn time_as_secs(&self) -> (s: u64)
        ensures
            !self.spec_is_running() ==> s == nanos_to_secs(self.spec_excess()),
            s >= nanos_to_secs(self.spec_excess()),
    {
        let n = self.total_nanos();
        let secs_wide = n / 1_000_000_000;
        proof {
            vstd::arithmetic::div_mod::lemma_div_is_ordered(
                self.spec_excess() as int,
                n as int,
                1_000_000_000,
            );
        }
        if secs_wide > u64::MAX as u128 {
            u64::MAX
        } else {
            secs_wide as u64
        }
    }

    pub fn is_running(&self) -> (b: bool)
        ensures
            b == self.spec_is_running(),
    {
        match &self.start {
            Some(_) => true,
            None => false,
        }
    }
}

} // verus!
