//! Splitting simulated times into the units the interactive view shows.
use vstd::prelude::*;

verus! {

/// A time of day split into whole days, hours, minutes and seconds.
pub struct ClockParts {
    pub days: u64,
    pub hours: u64,
    pub minutes: u64,
    pub seconds: u64,
}

/// How long ago a timestamp was, in the largest units that are not zero.
#[derive(Clone, Copy, PartialEq, Eq, Debug, Structural)]
pub enum Age {
    /// The timestamp lies ahead of now.
    Future,
    /// At least a day: whole days and the hours past them.
    Days(u64, u64),
    /// Under a day but at least an hour: hours and the minutes past them.
    Hours(u64, u64),
    /// Under an hour: whole minutes.
    Minutes(u64),
}

/// Split a number of seconds into days, hours, minutes and seconds.
pub fn clock_parts(unix: u64) -> (r: ClockParts)
    ensures
        r.days * 86400 + r.hours * 3600 + r.minutes * 60 + r.seconds == unix,
        r.hours < 24,
        r.minutes < 60,
        r.seconds < 60,
{
    let days = unix / 86400;
    let rem = unix % 86400;
    let h = rem / 3600;
    let m = (rem % 3600) / 60;
    let s = rem % 60;
    assert(rem % 3600 == m * 60 + s) by {
        assert(rem % 60 == (rem % 3600) % 60) by (nonlinear_arith)
            requires
                rem >= 0,
        ;
    }
    ClockParts { days, hours: h, minutes: m, seconds: s }
}

/// The age of `ts` at `now`.
pub fn age_parts(now: u64, ts: u64) -> (r: Age)
    ensures
        ts > now <==> r == Age::Future,
        ts <= now ==> {
            let diff = now - ts;
            let days = diff / 86400;
            let hours = (diff % 86400) / 3600;
            let mins = (diff % 3600) / 60;
            r == if days > 0 {
                Age::Days(days as u64, hours as u64)
            } else if hours > 0 {
                Age::Hours(hours as u64, mins as u64)
            } else {
                Age::Minutes(mins as u64)
            }
        },
{
    if ts > now {
        return Age::Future;
    }
    let diff = now - ts;
    let days = diff / 86400;
    let hours = (diff % 86400) / 3600;
    let mins = (diff % 3600) / 60;
    if days > 0 {
        Age::Days(days, hours)
    } else if hours > 0 {
        Age::Hours(hours, mins)
    } else {
        Age::Minutes(mins)
    }
}

} // verus!
