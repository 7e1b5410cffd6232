//! Points in time.

use std::cmp::Ordering;

use vstd::prelude::*;

use crate::external;

verus! {

/// A point in time, with the offset from UTC that it was written with. The offset takes no part
/// in comparisons.
#[derive(Clone, Copy, Debug)]
pub struct Instant {
    /// Seconds since the Unix epoch.
    pub seconds: i64,
    /// Nanoseconds within the second; a leap second has more of them.
    pub nanos: u32,
    /// Offset from UTC in seconds.
    pub offset: i32,
}

impl Instant {
    /// The place of this instant on the time line.
    pub open spec fn point(self) -> int {
        self.seconds * 0x1_0000_0000 + self.nanos
    }

    /// Whether this instant comes before `other`.
    pub fn is_before(&self, other: &Instant) -> (r: bool)
        ensures
            r == (self.point() < other.point()),
            r == (self.seconds < other.seconds || (self.seconds == other.seconds && self.nanos
                < other.nanos)),
    {
        self.seconds < other.seconds || (self.seconds == other.seconds && self.nanos < other.nanos)
    }
}

impl PartialEq for Instant {
    fn eq(&self, other: &Instant) -> (r: bool) {
        self.seconds == other.seconds && self.nanos == other.nanos
    }
}

impl vstd::std_specs::cmp::PartialEqSpecImpl for Instant {
    open spec fn obeys_eq_spec() -> bool {
        true
    }

    open spec fn eq_spec(&self, other: &Instant) -> bool {
        self.point() == other.point()
    }
}

impl Eq for Instant {}

impl PartialOrd for Instant {
    fn partial_cmp(&self, other: &Instant) -> (r: Option<Ordering>) {
        if self.is_before(other) {
            Some(Ordering::Less)
        } else if other.is_before(self) {
            Some(Ordering::Greater)
        } else {
            Some(Ordering::Equal)
        }
    }
}

impl vstd::std_specs::cmp::PartialOrdSpecImpl for Instant {
    open spec fn obeys_partial_cmp_spec() -> bool {
        true
    }

    open spec fn partial_cmp_spec(&self, other: &Instant) -> Option<Ordering> {
        if self.point() < other.point() {
            Some(Ordering::Less)
        } else if self.point() > other.point() {
            Some(Ordering::Greater)
        } else {
            Some(Ordering::Equal)
        }
    }
}

/// The instant that the parts of a date and time stand for.
pub open spec fn instant_of(parts: Option<(i64, u32, i32)>) -> Option<Instant> {
    match parts {
        Some((seconds, nanos, offset)) => Some(Instant { seconds, nanos, offset }),
        None => None,
    }
}

/// Instants are ordered by their seconds, and those of the same second by their nanoseconds. They
/// are at the same point exactly where both are equal; the offset has no part in it.
pub proof fn law_time_is_ordered(a: Instant, b: Instant)
    ensures
        a.point() < b.point() <==> a.seconds < b.seconds || (a.seconds == b.seconds && a.nanos
            < b.nanos),
        a.point() == b.point() <==> a.seconds == b.seconds && a.nanos == b.nanos,
{
}

/// Comparing two instants tells which is earlier, and that they are equal exactly where seconds and
/// nanoseconds are.
pub proof fn law_comparisons_follow_time(a: Instant, b: Instant)
    ensures
        vstd::std_specs::cmp::PartialEqSpec::eq_spec(&a, &b) <==> a.seconds == b.seconds
            && a.nanos == b.nanos,
        vstd::std_specs::cmp::PartialOrdSpec::partial_cmp_spec(&a, &b) == Some(Ordering::Less)
            <==> a.seconds < b.seconds || (a.seconds == b.seconds && a.nanos < b.nanos),
        vstd::std_specs::cmp::PartialOrdSpec::partial_cmp_spec(&a, &b) == Some(Ordering::Equal)
            <==> a.seconds == b.seconds && a.nanos == b.nanos,
        vstd::std_specs::cmp::PartialOrdSpec::partial_cmp_spec(&a, &b) == Some(Ordering::Greater)
            <==> b.seconds < a.seconds || (b.seconds == a.seconds && b.nanos < a.nanos),
{
}

/// An instant keeps every part that it was put together from, and can be put together from all
/// parts.
pub proof fn law_instant_keeps_its_parts(seconds: i64, nanos: u32, offset: i32)
    ensures
        instant_of(None) is None,
        instant_of(Some((seconds, nanos, offset))) matches Some(at) && at.seconds == seconds
            && at.nanos == nanos && at.offset == offset,
{
}

/// Puts an instant together from its parts.
pub fn instant_from_parts(parts: Option<(i64, u32, i32)>) -> (r: Option<Instant>)
    ensures
        r == instant_of(parts),
        r is Some <==> parts is Some,
        parts matches Some((seconds, nanos, offset)) ==> (r->0).seconds == seconds && (r->0).nanos
            == nanos && (r->0).offset == offset,
{
    match parts {
        Some((seconds, nanos, offset)) => Some(Instant { seconds, nanos, offset }),
        None => None,
    }
}

/// The instant that a text in the notation of RFC 3339 stands for.
pub fn parse_instant(text: &str) -> (r: Option<Instant>)
    ensures
        r == instant_of(external::rfc3339_parts(text@)),
        r is Some <==> external::rfc3339_parts(text@) is Some,
        external::rfc3339_parts(text@) matches Some((seconds, nanos, offset)) ==> (r->0).seconds
            == seconds && (r->0).nanos == nanos && (r->0).offset == offset,
{
    instant_from_parts(external::parse_rfc3339(text))
}

} // verus!
