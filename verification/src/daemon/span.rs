//! Lengths of time.

use vstd::prelude::*;

verus! {

/// The longest length of time, in nanoseconds: as many seconds as fit in 64 bits, and
/// all but a nanosecond of one more.
pub const LONGEST_NANOS: u128 = 18_446_744_073_709_551_615_999_999_999;

/// How many nanoseconds a second has.
pub const NANOS_PER_SEC: u128 = 1_000_000_000;

/// A length of time, in nanoseconds.
#[derive(Clone, Copy, Debug, PartialEq, Eq, Structural)]
pub struct Span {
    pub nanos: u128,
}

/// Twice a length of time, as far as there is such a length.
pub open spec fn doubled(n: u128) -> u128 {
    if n > LONGEST_NANOS / 2 {
        LONGEST_NANOS
    } else {
        (n * 2) as u128
    }
}

/// The smaller of two.
pub open spec fn least(a: u128, b: u128) -> u128 {
    if a <= b {
        a
    } else {
        b
    }
}

impl Span {
    pub fn from_secs(secs: u64) -> (r: Span)
        ensures
            r.nanos == secs * NANOS_PER_SEC,
            r.nanos <= LONGEST_NANOS,
    {
        Span { nanos: secs as u128 * NANOS_PER_SEC }
    }

    pub fn from_millis(millis: u64) -> (r: Span)
        ensures
            r.nanos == millis * 1_000_000,
            r.nanos <= LONGEST_NANOS,
    {
        Span { nanos: millis as u128 * 1_000_000 }
    }

    /// The whole seconds, as far as they fit.
    pub fn as_secs(&self) -> (r: u64)
        ensures
            r == (if self.nanos / NANOS_PER_SEC <= u64::MAX {
                self.nanos / NANOS_PER_SEC
            } else {
                u64::MAX as u128
            }),
    {
        let s: u128 = self.nanos / NANOS_PER_SEC;
        if s <= 0xffff_ffff_ffff_ffff {
            s as u64
        } else {
            u64::MAX
        }
    }

    /// The nanoseconds beyond the whole seconds.
    pub fn subsec_nanos(&self) -> (r: u32)
        ensures
            r == self.nanos % NANOS_PER_SEC,
    {
        (self.nanos % NANOS_PER_SEC) as u32
    }

    pub fn is_zero(&self) -> (r: bool)
        ensures
            r == (self.nanos == 0),
    {
        self.nanos == 0
    }

    /// Twice as long, as far as there is such a length.
    pub fn double(self) -> (r: Span)
        ensures
            r.nanos == doubled(self.nanos),
    {
        if self.nanos > LONGEST_NANOS / 2 {
            Span { nanos: LONGEST_NANOS }
        } else {
            Span { nanos: self.nanos * 2 }
        }
    }

    /// The shorter of two.
    pub fn min(self, other: Span) -> (r: Span)
        ensures
            r.nanos == least(self.nanos, other.nanos),
    {
        if self.nanos <= other.nanos {
            self
        } else {
            other
        }
    }

    /// What is left after another length, or nothing.
    pub fn saturating_sub(self, other: Span) -> (r: Span)
        ensures
            r.nanos == (if other.nanos <= self.nanos {
                self.nanos - other.nanos
            } else {
                0
            }),
    {
        if other.nanos <= self.nanos {
            Span { nanos: self.nanos - other.nanos }
        } else {
            Span { nanos: 0 }
        }
    }
}

/// The whole seconds and the rest are the whole of a length of time whose seconds fit, and a
/// number of seconds is read back as it was given.
pub proof fn law_seconds_and_rest_are_the_whole(s: &Span, secs: u64, rest: u32)
    requires
        call_ensures(Span::as_secs, (s,), secs),
        call_ensures(Span::subsec_nanos, (s,), rest),
        s.nanos <= LONGEST_NANOS,
    ensures
        secs * 1_000_000_000 + rest == s.nanos,
        rest < 1_000_000_000,
{
}

/// Twice a length is twice as long, and never shorter than it was, unless there is no such
/// length; then it is the longest that there is.
pub proof fn law_double_is_twice_as_long(s: Span, r: Span)
    requires
        call_ensures(Span::double, (s,), r),
        s.nanos <= LONGEST_NANOS,
    ensures
        r.nanos == 2 * s.nanos || 2 * s.nanos > LONGEST_NANOS && r.nanos == LONGEST_NANOS,
        s.nanos <= r.nanos <= LONGEST_NANOS,
{
}

/// The shorter of two is one of them, no longer than either. What is left of one after the
/// other makes, with the other, the longer of the two.
pub proof fn law_shorter_and_rest(a: Span, b: Span, m: Span, d: Span)
    requires
        call_ensures(Span::min, (a, b), m),
        call_ensures(Span::saturating_sub, (a, b), d),
    ensures
        m == a || m == b,
        m.nanos <= a.nanos && m.nanos <= b.nanos,
        m.nanos + d.nanos == a.nanos,
{
}

} // verus!
