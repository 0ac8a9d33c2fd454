//! Points in time on the UTC time line.

use vstd::prelude::*;

verus! {

/// The first second of the calendar: 1 January of the year -262143.
pub const MIN_SECONDS: i64 = -8_334_601_228_800;

/// The last second of the calendar: 31 December of the year 262142.
pub const MAX_SECONDS: i64 = 8_210_266_876_799;

/// The number of nanoseconds in one second.
pub const NANOS_PER_SECOND: u32 = 1_000_000_000;

/// A point in time: whole seconds since 1 January 1970 UTC and the
/// nanoseconds past that second. No leap second is counted.
#[derive(Clone, Copy, Debug, PartialEq, Eq, Structural)]
pub struct Timestamp {
    secs: i64,
    nanos: u32,
}

/// Whether the calendar has a time with these seconds since the epoch and
/// these nanoseconds. The nanoseconds of the last second of a minute may run
/// into a second thousand million, which stands for a leap second.
pub open spec fn in_calendar(secs: int, nanos: int) -> bool {
    &&& MIN_SECONDS <= secs <= MAX_SECONDS
    &&& 0 <= nanos
    &&& nanos < 1_000_000_000 || (nanos < 2_000_000_000 && secs % 60 == 59)
}

/// Nanoseconds as whole microseconds, rounded towards zero.
pub open spec fn whole_micros(nanos: int) -> int {
    if nanos >= 0 {
        nanos / 1000
    } else {
        -((-nanos) / 1000)
    }
}

/// The microseconds from `earlier` to `later`, both in nanoseconds since the
/// epoch, if they fit in 64 bits.
pub open spec fn micros_between(later: int, earlier: int) -> Option<i64> {
    let micros = whole_micros(later - earlier);
    if i64::MIN <= micros <= i64::MAX {
        Some(micros as i64)
    } else {
        None
    }
}

/// The microseconds from `earlier` to `later`; 0 where they do not fit in 64
/// bits.
pub open spec fn elapsed_micros(later: Timestamp, earlier: Timestamp) -> i64 {
    match micros_between(later.instant(), earlier.instant()) {
        Some(micros) => micros,
        None => 0,
    }
}

/// `chrono::DateTime::<Utc>::from_timestamp`, and of the time it makes
/// `timestamp` and `timestamp_subsec_nanos`. The time exists exactly when the
/// seconds lie within the calendar and the nanoseconds are below one second,
/// or below two in the last second of a minute; it then reports the seconds
/// and nanoseconds it was made from.
#[verifier::external_body]
fn calendar_time(secs: i64, nanos: u32) -> (r: Option<(i64, u32)>)
    ensures
        r is Some <==> in_calendar(secs as int, nanos as int),
        r matches Some(parts) ==> parts.0 == secs && parts.1 == nanos,
{
    match chrono::DateTime::from_timestamp(secs, nanos) {
        Some(time) => Some((time.timestamp(), time.timestamp_subsec_nanos())),
        None => None,
    }
}

/// `chrono::DateTime::<Utc>::timestamp_micros` of the time with these seconds
/// and nanoseconds: a million times the seconds, plus the whole microseconds
/// of the nanoseconds.
#[verifier::external_body]
fn calendar_micros(secs: i64, nanos: u32) -> (r: i64)
    requires
        MIN_SECONDS <= secs <= MAX_SECONDS,
        nanos < NANOS_PER_SECOND,
    ensures
        r == secs * 1_000_000 + nanos / 1000,
{
    chrono::DateTime::from_timestamp(secs, nanos).unwrap_or_default().timestamp_micros()
}

/// The difference of two `chrono::DateTime<Utc>` values, and of it
/// `chrono::TimeDelta::num_microseconds`: the whole microseconds from the
/// second time to the first, rounded towards zero, or `None` where they do
/// not fit in 64 bits.
#[verifier::external_body]
fn calendar_micros_between(secs: i64, nanos: u32, earlier_secs: i64, earlier_nanos: u32) -> (r:
    Option<i64>)
    requires
        MIN_SECONDS <= secs <= MAX_SECONDS,
        nanos < NANOS_PER_SECOND,
        MIN_SECONDS <= earlier_secs <= MAX_SECONDS,
        earlier_nanos < NANOS_PER_SECOND,
    ensures
        r == micros_between(
            secs * 1_000_000_000 + nanos,
            earlier_secs * 1_000_000_000 + earlier_nanos,
        ),
{
    let later = chrono::DateTime::from_timestamp(secs, nanos).unwrap_or_default();
    let earlier = chrono::DateTime::from_timestamp(earlier_secs, earlier_nanos).unwrap_or_default();
    (later - earlier).num_microseconds()
}

impl Timestamp {
    /// The seconds lie within the calendar and the nanoseconds within one
    /// second.
    #[verifier::type_invariant]
    spec fn in_range(self) -> bool {
        MIN_SECONDS <= self.secs <= MAX_SECONDS && self.nanos < NANOS_PER_SECOND
    }

    /// The time with these seconds since the epoch and these nanoseconds.
    pub closed spec fn at(secs: int, nanos: int) -> Timestamp {
        Timestamp { secs: secs as i64, nanos: nanos as u32 }
    }

    /// Whole seconds since the epoch.
    pub closed spec fn secs(self) -> int {
        self.secs as int
    }

    /// Nanoseconds past the whole second.
    pub closed spec fn nanos(self) -> int {
        self.nanos as int
    }

    /// Nanoseconds since the epoch.
    pub open spec fn instant(self) -> int {
        self.secs() * 1_000_000_000 + self.nanos()
    }

    /// A time that was made with `at` has the seconds and nanoseconds it was
    /// made from, as far as they fit their fields.
    pub proof fn lemma_at(secs: int, nanos: int)
        requires
            i64::MIN <= secs <= i64::MAX,
            0 <= nanos <= u32::MAX,
        ensures
            Self::at(secs, nanos).secs() == secs,
            Self::at(secs, nanos).nanos() == nanos,
    {
    }

    /// Two times with the same seconds and nanoseconds are one time.
    pub proof fn lemma_same(a: Timestamp, b: Timestamp)
        requires
            a.secs() == b.secs(),
            a.nanos() == b.nanos(),
        ensures
            a == b,
    {
    }

    /// The time `secs` seconds and `nanos` nanoseconds after the epoch, if
    /// the seconds lie within the calendar and the nanoseconds within one
    /// second.
    pub fn from_unix(secs: i64, nanos: u32) -> (r: Option<Timestamp>)
        ensures
            r is Some <==> MIN_SECONDS <= secs <= MAX_SECONDS && nanos < NANOS_PER_SECOND,
            r matches Some(t) ==> t == Self::at(secs as int, nanos as int),
    {
        if nanos >= NANOS_PER_SECOND {
            return None;
        }
        match calendar_time(secs, nanos) {
            Some((s, n)) => Some(Timestamp { secs: s, nanos: n }),
            None => None,
        }
    }

    /// The time `nanos` nanoseconds after the epoch, which always lies within
    /// the calendar.
    pub fn from_unix_nanos(nanos: u64) -> (r: Option<Timestamp>)
        ensures
            r == Some(Self::at(nanos as int / 1_000_000_000, nanos as int % 1_000_000_000)),
    {
        Self::from_unix((nanos / 1_000_000_000) as i64, (nanos % 1_000_000_000) as u32)
    }

    /// Whole seconds since the epoch.
    pub fn seconds(&self) -> (r: i64)
        ensures
            r == self.secs(),
            MIN_SECONDS <= r <= MAX_SECONDS,
    {
        proof {
            use_type_invariant(self);
        }
        self.secs
    }

    /// Nanoseconds past the whole second.
    pub fn subsec_nanos(&self) -> (r: u32)
        ensures
            r == self.nanos(),
            r < NANOS_PER_SECOND,
    {
        proof {
            use_type_invariant(self);
        }
        self.nanos
    }

    /// Whole microseconds since the epoch.
    pub fn unix_micros(&self) -> (r: i64)
        ensures
            r == self.secs() * 1_000_000 + self.nanos() / 1000,
    {
        proof {
            use_type_invariant(self);
        }
        calendar_micros(self.secs, self.nanos)
    }

    /// The whole microseconds from `earlier` to this time, rounded towards
    /// zero, if they fit in 64 bits.
    pub fn micros_since(&self, earlier: &Timestamp) -> (r: Option<i64>)
        ensures
            r == micros_between(self.instant(), earlier.instant()),
    {
        proof {
            use_type_invariant(self);
            use_type_invariant(earlier);
        }
        calendar_micros_between(self.secs, self.nanos, earlier.secs, earlier.nanos)
    }

    /// The whole microseconds from `earlier` to this time, rounded towards
    /// zero; 0 where they do not fit in 64 bits.
    pub fn elapsed_since(&self, earlier: &Timestamp) -> (r: i64)
        ensures
            r == elapsed_micros(*self, *earlier),
    {
        match self.micros_since(earlier) {
            Some(micros) => micros,
            None => 0,
        }
    }

    /// Whether this time comes after `other`.
    pub fn is_after(&self, other: &Timestamp) -> (r: bool)
        ensures
            r == (self.instant() > other.instant()),
    {
        proof {
            use_type_invariant(self);
            use_type_invariant(other);
        }
        self.secs > other.secs || (self.secs == other.secs && self.nanos > other.nanos)
    }
}

impl Default for Timestamp {
    /// The epoch.
    fn default() -> (r: Self)
        ensures
            r == Timestamp::at(0, 0),
    {
        Timestamp { secs: 0, nanos: 0 }
    }
}

} // verus!
