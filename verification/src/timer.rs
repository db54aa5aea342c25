//! Wall-clock stopwatch for build and query timing.
//!
//! The stopwatch measures elapsed time from a checkpoint. Process-cycle
//! accounting needs a platform source that the core does not carry, so the
//! `pid` and `cycles` fields stay empty here and the cycle figure reports
//! as zero; embedders with such a source read the fields themselves.

use vstd::prelude::*;

verus! {

#[verifier::external_type_specification]
#[verifier::external_body]
pub struct ExInstant(std::time::Instant);

/// Relies on std's `Clone` for `Instant`, a `Copy` type: the same reading
/// comes back.
pub assume_specification[ <std::time::Instant as std::clone::Clone>::clone ](
    v: &std::time::Instant,
) -> (r: std::time::Instant)
    ensures
        r == *v,
;

/// Relies on std's `Instant::now`: a reading of the monotonic clock.
#[verifier::external_body]
fn now_instant() -> std::time::Instant {
    std::time::Instant::now()
}

/// Relies on std's `Instant::duration_since`: the time between two
/// readings, saturating to zero when `earlier` is the later one.
#[verifier::external_body]
fn duration_between(later: &std::time::Instant, earlier: &std::time::Instant) -> std::time::Duration {
    later.duration_since(*earlier)
}

/// Relies on std's `Duration::as_millis`: the duration in whole
/// milliseconds.
#[verifier::external_body]
fn duration_millis(d: &std::time::Duration) -> u128 {
    d.as_millis()
}

/// The character for one decimal digit.
pub open spec fn dec_digit(d: int) -> char {
    if d == 0 {
        '0'
    } else if d == 1 {
        '1'
    } else if d == 2 {
        '2'
    } else if d == 3 {
        '3'
    } else if d == 4 {
        '4'
    } else if d == 5 {
        '5'
    } else if d == 6 {
        '6'
    } else if d == 7 {
        '7'
    } else if d == 8 {
        '8'
    } else {
        '9'
    }
}

/// The decimal digits of a non-negative value, most significant first, no
/// leading zeros except for zero itself.
pub open spec fn dec_digits(x: int) -> Seq<char>
    decreases x,
{
    if x < 10 {
        seq![dec_digit(x)]
    } else {
        dec_digits(x / 10).push(dec_digit(x % 10))
    }
}

/// The report line for one step and one millisecond reading: seconds to
/// three decimals, and the cycle figure, zero without a cycle source.
pub open spec fn step_report(step: Seq<char>, ms: int) -> Seq<char> {
    "Time for "@ + step + ": "@ + dec_digits(ms / 1000) + "."@ + (if ms % 1000 < 10 {
        "00"@
    } else if ms % 1000 < 100 {
        "0"@
    } else {
        Seq::<char>::empty()
    }) + dec_digits(ms % 1000) + " seconds, 0.000B cycles"@
}

/// Relies on std's `ToString` for `u128`: the decimal digits of the value.
#[verifier::external_body]
fn decimal_string(x: u128) -> (r: String)
    ensures
        r@ == dec_digits(x as int),
{
    x.to_string()
}

/// A stopwatch with an optional process handle and cycle reading.
#[derive(Clone)]
pub struct Timer {
    pub check_point: std::time::Instant,
    pub pid: Option<usize>,
    pub cycles: Option<u64>,
}

impl Default for Timer {
    /// A freshly started stopwatch.
    fn default() -> (r: Timer)
        ensures
            r.pid is None,
            r.cycles is None,
    {
        Timer::new()
    }
}

impl Timer {
    /// Starts a stopwatch at the current instant. No process-cycle source
    /// is attached, so `pid` and `cycles` stay empty.
    pub fn new() -> (r: Timer)
        ensures
            r.pid is None,
            r.cycles is None,
    {
        Timer { check_point: now_instant(), pid: None, cycles: None }
    }

    /// Moves the checkpoint to the current instant.
    pub fn reset(&mut self)
        ensures
            final(self).pid == old(self).pid,
            final(self).cycles is None,
    {
        self.check_point = now_instant();
        self.cycles = None;
    }

    /// Time elapsed since the checkpoint.
    pub fn elapsed(&self) -> std::time::Duration {
        duration_between(&now_instant(), &self.check_point)
    }

    /// A report line for one named step: seconds to the millisecond, and
    /// the cycle figure, which is zero without a cycle source. The line's
    /// shape is fixed; only the milliseconds reading comes from the clock.
    pub fn elapsed_seconds_for_step(&self, step: &str) -> (r: String)
        ensures
            exists|ms: int| 0 <= ms && r@ == step_report(step@, ms),
    {
        let d = self.elapsed();
        let ms = duration_millis(&d);
        let whole = ms / 1000;
        let frac = ms % 1000;
        let mut out = String::from_str("Time for ");
        out.append(step);
        out.append(": ");
        let whole_s = decimal_string(whole);
        out.append(whole_s.as_str());
        out.append(".");
        if frac < 10 {
            out.append("00");
        } else if frac < 100 {
            out.append("0");
        }
        let frac_s = decimal_string(frac);
        out.append(frac_s.as_str());
        out.append(" seconds, 0.000B cycles");
        proof {
            assert(out@ =~= step_report(step@, ms as int));
        }
        out
    }
}

} // verus!
