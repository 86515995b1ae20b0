//! Days, instants and spans of time as plain numbers.

use vstd::prelude::*;

verus! {

/// A calendar day, counted in the proleptic Gregorian calendar: day 1 is
/// January 1 of year 1, a Monday.
#[derive(Clone, Copy, Debug, PartialEq, Eq, Structural)]
pub struct Date {
    pub days: i32,
}

impl View for Date {
    type V = int;

    open spec fn view(&self) -> int {
        self.days as int
    }
}

impl Date {
    /// The day `days` days after this one, unless the count of days ends
    /// before it.
    pub fn checked_add_days(&self, days: u32) -> (later: Option<Date>)
        ensures
            match later {
                Some(day) => day@ == self@ + days,
                None => self@ + days > i32::MAX,
            },
    {
        let sum: i64 = self.days as i64 + days as i64;
        if sum <= i32::MAX as i64 {
            Some(Date { days: sum as i32 })
        } else {
            None
        }
    }
}

/// An instant: whole seconds since the Unix epoch and the nanoseconds past them.
#[derive(Clone, Copy, Debug, PartialEq, Eq, Structural)]
pub struct Timestamp {
    pub secs: i64,
    pub nanos: u32,
}

impl View for Timestamp {
    /// Nanoseconds since the Unix epoch.
    type V = int;

    open spec fn view(&self) -> int {
        self.secs * 1_000_000_000 + self.nanos
    }
}

/// A span of time that is not negative: whole seconds and the nanoseconds past
/// them, fewer than a second's worth.
#[derive(Clone, Copy, Debug)]
pub struct Duration {
    secs: u64,
    nanos: u32,
}

impl View for Duration {
    /// The span in nanoseconds.
    type V = nat;

    closed spec fn view(&self) -> nat {
        (self.secs * 1_000_000_000 + self.nanos) as nat
    }
}

impl Duration {
    #[verifier::type_invariant]
    spec fn normal(self) -> bool {
        self.nanos < 1_000_000_000
    }

    /// The span of `secs` seconds and `nanos` nanoseconds; a second's worth of
    /// nanoseconds or more is carried over into the seconds.
    pub fn new(secs: u64, nanos: u32) -> (span: Duration)
        requires
            secs + nanos / 1_000_000_000 <= u64::MAX,
        ensures
            span@ == secs * 1_000_000_000 + nanos,
    {
        Duration { secs: secs + (nanos / 1_000_000_000) as u64, nanos: nanos % 1_000_000_000 }
    }

    /// The span of `secs` whole seconds.
    pub fn from_secs(secs: u64) -> (span: Duration)
        ensures
            span@ == secs * 1_000_000_000,
    {
        Duration { secs, nanos: 0 }
    }

    /// The whole seconds of the span.
    pub fn as_secs(&self) -> (secs: u64)
        ensures
            secs == self@ / 1_000_000_000,
    {
        proof {
            use_type_invariant(self);
        }
        self.secs
    }

    /// The nanoseconds past the whole seconds.
    pub fn subsec_nanos(&self) -> (nanos: u32)
        ensures
            nanos == self@ % 1_000_000_000,
    {
        proof {
            use_type_invariant(self);
        }
        self.nanos
    }

    /// The two spans laid end to end, unless its seconds pass what a `u64` holds.
    pub fn checked_add(&self, other: &Duration) -> (sum: Option<Duration>)
        ensures
            match sum {
                Some(span) => span@ == self@ + other@ && span@ / 1_000_000_000 <= u64::MAX,
                None => (self@ + other@) / 1_000_000_000 > u64::MAX,
            },
    {
        proof {
            use_type_invariant(self);
            use_type_invariant(other);
        }
        let nanos: u32 = self.nanos + other.nanos;
        let carry: u64 = if nanos >= 1_000_000_000 {
            1
        } else {
            0
        };
        let rest: u32 = if nanos >= 1_000_000_000 {
            nanos - 1_000_000_000
        } else {
            nanos
        };
        match self.secs.checked_add(other.secs) {
            None => None,
            Some(secs) => match secs.checked_add(carry) {
                None => None,
                Some(secs) => Some(Duration { secs, nanos: rest }),
            },
        }
    }
}

impl Timestamp {
    /// The span from `earlier` to this instant; `None` where `earlier` is the
    /// later of the two, or where the seconds pass what a `u64` holds.
    pub fn duration_since(&self, earlier: &Timestamp) -> (elapsed: Option<Duration>)
        ensures
            match elapsed {
                Some(span) => span@ == self@ - earlier@ && span@ / 1_000_000_000 <= u64::MAX,
                None => self@ < earlier@ || (self@ - earlier@) / 1_000_000_000 > u64::MAX,
            },
    {
        let later: i128 = self.secs as i128 * 1_000_000_000 + self.nanos as i128;
        let sooner: i128 = earlier.secs as i128 * 1_000_000_000 + earlier.nanos as i128;
        if later < sooner {
            return None;
        }
        let span: i128 = later - sooner;
        let secs: i128 = span / 1_000_000_000;
        let nanos: i128 = span % 1_000_000_000;
        if secs > u64::MAX as i128 {
            None
        } else {
            Some(Duration { secs: secs as u64, nanos: nanos as u32 })
        }
    }
}

} // verus!
