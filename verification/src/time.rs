//! Points in time.

use vstd::prelude::*;

verus! {

/// A point in time: seconds since 1970 in UTC, and nanoseconds.
#[derive(Debug, Clone, Copy, PartialEq, Eq, Structural)]
pub struct Timestamp {
    pub secs: i64,
    pub nanos: u32,
}

/// What chrono writes for a point in time; `None` where it has no such point.
pub uninterp spec fn rfc3339(secs: i64, nanos: u32) -> Option<Seq<char>>;

/// From 1970 to the year 9999, without a leap second.
pub open spec fn is_ordinary(secs: i64, nanos: u32) -> bool {
    0 <= secs < 253_402_300_800 && nanos < 1_000_000_000
}

/// `chrono::DateTime::to_rfc3339` on the point in UTC that
/// `chrono::DateTime::from_timestamp` makes of the seconds and nanoseconds, which
/// is none where they are out of range; the years from 1970 to 9999 are not. The
/// text is a function of the two numbers and is given a name.
#[verifier::external_body]
fn chrono_rfc3339(secs: i64, nanos: u32) -> (r: Option<String>)
    ensures
        crate::text::option_text(r) == rfc3339(secs, nanos),
        is_ordinary(secs, nanos) ==> r is Some,
{
    match chrono::DateTime::<chrono::Utc>::from_timestamp(secs, nanos) {
        Some(point) => Some(point.to_rfc3339()),
        None => None,
    }
}

impl Timestamp {
    /// The point in time as text.
    pub open spec fn text(self) -> Option<Seq<char>> {
        rfc3339(self.secs, self.nanos)
    }

    /// A point of the years from 1970 to 9999.
    pub open spec fn ordinary(self) -> bool {
        is_ordinary(self.secs, self.nanos)
    }

    /// The point in time as text; `None` where the numbers are out of range.
    pub fn to_rfc3339(&self) -> (r: Option<String>)
        ensures
            crate::text::option_text(r) == self.text(),
            self.ordinary() ==> r is Some,
    {
        chrono_rfc3339(self.secs, self.nanos)
    }
}

} // verus!
