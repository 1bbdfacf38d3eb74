//! Points in time.

use vstd::prelude::*;

verus! {

/// A point in time, in UTC: whole seconds since the start of 1970, and the
/// nanoseconds past them.
///
/// A leap second is the second before it with a billion nanoseconds or more.
#[derive(Debug, Clone, Copy, PartialEq, Eq, Structural)]
pub struct Moment {
    secs: i64,
    nanos: u32,
}

/// The first second that a [`Moment`] can stand for.
pub const FIRST_SECOND: i64 = -8_334_601_228_800;

/// The last second that a [`Moment`] can stand for.
pub const LAST_SECOND: i64 = 8_210_266_876_799;

pub const NANOS_PER_SEC: u32 = 1_000_000_000;

/// Whether the calendar has a moment with these seconds and nanoseconds: no more
/// than some 262 000 years away, and a leap second only at the end of a minute.
pub open spec fn in_calendar(secs: int, nanos: int) -> bool {
    &&& FIRST_SECOND <= secs <= LAST_SECOND
    &&& 0 <= nanos < 2 * NANOS_PER_SEC
    &&& nanos >= NANOS_PER_SEC ==> secs % 60 == 59
}

impl Moment {
    pub closed spec fn secs_of(self) -> int {
        self.secs as int
    }

    pub closed spec fn nanos_of(self) -> int {
        self.nanos as int
    }

    /// Every moment is in the calendar.
    #[verifier::type_invariant]
    pub closed spec fn valid(self) -> bool {
        in_calendar(self.secs as int, self.nanos as int)
    }

    /// The moment with these seconds and nanoseconds, if the calendar has it.
    pub fn new(secs: i64, nanos: u32) -> (r: Option<Moment>)
        ensures
            match r {
                Some(m) => in_calendar(secs as int, nanos as int) && m.secs_of() == secs
                    && m.nanos_of() == nanos,
                None => !in_calendar(secs as int, nanos as int),
            },
    {
        if FIRST_SECOND <= secs && secs <= LAST_SECOND && nanos < 2 * NANOS_PER_SEC && (nanos
            < NANOS_PER_SEC || (secs - FIRST_SECOND) % 60 == 59) {
            Some(Moment { secs, nanos })
        } else {
            None
        }
    }

    pub fn secs(self) -> (r: i64)
        ensures
            r == self.secs_of(),
    {
        self.secs
    }

    pub fn nanos(self) -> (r: u32)
        ensures
            r == self.nanos_of(),
    {
        self.nanos
    }

    /// Whether `self` lies at or after `other`.
    pub open spec fn at_or_after(self, other: Moment) -> bool {
        self.secs_of() > other.secs_of() || (self.secs_of() == other.secs_of() && self.nanos_of()
            >= other.nanos_of())
    }

    pub fn is_at_or_after(self, other: Moment) -> (r: bool)
        ensures
            r == self.at_or_after(other),
    {
        self.secs > other.secs || (self.secs == other.secs && self.nanos >= other.nanos)
    }
}

/// The time of day of a moment, in seconds.
pub open spec fn second_of_day(m: Moment) -> int {
    m.secs_of() % 86_400
}

/// Nanoseconds from `then` to `now`. Days are taken to be of equal length; a
/// leap second counts where one of the two moments lies in it and the other
/// lies beyond it in the day.
pub open spec fn elapsed_nanos(then: Moment, now: Moment) -> int {
    let leap: int = if second_of_day(now) > second_of_day(then) && then.nanos_of()
        >= NANOS_PER_SEC {
        1
    } else if second_of_day(now) < second_of_day(then) && now.nanos_of() >= NANOS_PER_SEC {
        -1
    } else {
        0
    };
    (now.secs_of() - then.secs_of() + leap) * 1_000_000_000 + (now.nanos_of() - then.nanos_of())
}

/// Whole seconds from `then` to `now`, dropping the fraction.
pub open spec fn elapsed_secs(then: Moment, now: Moment) -> int {
    let d = elapsed_nanos(then, now);
    if d >= 0 {
        d / 1_000_000_000
    } else {
        -((-d) / 1_000_000_000)
    }
}

/// Whole seconds from `then` to `now`.
///
/// Trusted: `chrono`'s `DateTime::<Utc>::from_timestamp` accepts every moment
/// of the calendar; the difference of two of them has no limit that they could
/// pass; and `TimeDelta::num_seconds` drops the fraction of a second, towards
/// zero.
#[verifier::external_body]
pub(crate) fn seconds_between(then: Moment, now: Moment) -> (r: i64)
    requires
        then.valid(),
        now.valid(),
    ensures
        r == elapsed_secs(then, now),
{
    let a = chrono::DateTime::<chrono::Utc>::from_timestamp(then.secs, then.nanos).unwrap();
    let b = chrono::DateTime::<chrono::Utc>::from_timestamp(now.secs, now.nanos).unwrap();
    (b - a).num_seconds()
}

/// The seconds and nanoseconds on the clock.
///
/// Trusted: the two numbers that `chrono::Utc::now` gives are a moment of the
/// calendar, outside of any leap second. Which moment it is depends on the
/// clock, so nothing more is said of it. The clock must not show a time before
/// 1970.
#[verifier::external_body]
fn clock() -> (r: (i64, u32))
    ensures
        in_calendar(r.0 as int, r.1 as int),
        r.1 < NANOS_PER_SEC,
{
    let t = chrono::Utc::now();
    (t.timestamp(), t.timestamp_subsec_nanos())
}

/// The present moment, which is never within a leap second.
pub(crate) fn utc_now() -> (r: Moment)
    ensures
        r.valid(),
        r.nanos_of() < NANOS_PER_SEC,
{
    let (secs, nanos) = clock();
    Moment { secs, nanos }
}

/// Seconds and nanoseconds a day before `m`. From within a leap second, the
/// second after it is where counting back starts.
pub open spec fn a_day_earlier(m: Moment) -> (int, int) {
    if m.nanos_of() >= NANOS_PER_SEC {
        (m.secs_of() + 1 - 86_400, m.nanos_of() - NANOS_PER_SEC)
    } else {
        (m.secs_of() - 86_400, m.nanos_of())
    }
}

/// A day before `m`.
///
/// Trusted: subtracting `chrono::Duration::hours(24)` from a `DateTime` goes
/// back by as many seconds, keeps the nanoseconds, and steps out of a leap
/// second first. It panics where the calendar does not reach back that far.
#[verifier::external_body]
fn back_a_day(m: Moment) -> (r: (i64, u32))
    requires
        m.valid(),
        m.secs_of() - 86_400 >= FIRST_SECOND,
    ensures
        (r.0 as int, r.1 as int) == a_day_earlier(m),
{
    let t = chrono::DateTime::<chrono::Utc>::from_timestamp(m.secs, m.nanos).unwrap();
    let d = t - chrono::Duration::hours(24);
    (d.timestamp(), d.timestamp_subsec_nanos())
}

/// Midnight local time. Used to decide which finished tasks still deserve
/// screen space.
///
/// A DST transition can make local midnight nonexistent. A day ago is wrong by
/// an hour, twice a year, in one column of a task list.
pub fn start_of_today(midnight: Option<Moment>, now: Moment) -> (r: Moment)
    requires
        midnight is None ==> now.secs_of() - 86_400 >= FIRST_SECOND,
    ensures
        match midnight {
            Some(m) => r == m,
            None => (r.secs_of(), r.nanos_of()) == a_day_earlier(now),
        },
{
    match midnight {
        Some(m) => m,
        None => {
            proof {
                use_type_invariant(&now);
            }
            let (secs, nanos) = back_a_day(now);
            Moment { secs, nanos }
        },
    }
}

/// Moments are ordered by their seconds, and by their nanoseconds within one:
/// of any two, one lies at or after the other, and both only where they are the
/// same.
pub proof fn law_moments_are_ordered(a: Moment, b: Moment, c: Moment)
    ensures
        a.at_or_after(a),
        a.at_or_after(b) || b.at_or_after(a),
        a.at_or_after(b) && b.at_or_after(c) ==> a.at_or_after(c),
        a.at_or_after(b) && b.at_or_after(a) ==> a.secs_of() == b.secs_of() && a.nanos_of()
            == b.nanos_of(),
        a.secs_of() > b.secs_of() ==> a.at_or_after(b) && !b.at_or_after(a),
{
}

/// Outside of leap seconds, the time between two moments is the difference of
/// their seconds and nanoseconds; it is told in whole seconds, and the same both
/// ways.
pub proof fn law_time_passes_evenly(a: Moment, b: Moment)
    requires
        0 <= a.nanos_of() < 1_000_000_000,
        0 <= b.nanos_of() < 1_000_000_000,
    ensures
        elapsed_nanos(a, b) == (b.secs_of() * 1_000_000_000 + b.nanos_of()) - (a.secs_of()
            * 1_000_000_000 + a.nanos_of()),
        elapsed_secs(a, b) == -elapsed_secs(b, a),
        elapsed_secs(a, a) == 0,
        b.at_or_after(a) ==> elapsed_secs(a, b) * 1_000_000_000 <= elapsed_nanos(a, b) < (
        elapsed_secs(a, b) + 1) * 1_000_000_000,
{
}

/// A day earlier is 86400 seconds earlier, at the same fraction of a second.
pub proof fn law_a_day_has_24_hours(m: Moment)
    requires
        0 <= m.nanos_of() < 1_000_000_000,
    ensures
        a_day_earlier(m).0 == m.secs_of() - 24 * 60 * 60,
        a_day_earlier(m).1 == m.nanos_of(),
{
}

} // verus!
