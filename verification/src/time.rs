//! Creation timestamps of transcript entries.

use vstd::prelude::*;

verus! {

/// A point on the UTC time line: whole non-leap seconds since the Unix epoch
/// and the nanoseconds that have passed since that second began.
///
/// Points are ordered by `secs` first and by `nanos` second.
#[derive(Clone, Copy, Debug, PartialEq, Eq, Structural)]
pub struct Timestamp {
    pub secs: i64,
    pub nanos: u32,
}

impl Timestamp {
    /// `self` lies strictly before `other`.
    pub open spec fn earlier_than(self, other: Timestamp) -> bool {
        self.secs < other.secs || (self.secs == other.secs && self.nanos < other.nanos)
    }

    /// `self` lies before `other` or is the same point.
    pub open spec fn not_later_than(self, other: Timestamp) -> bool {
        !other.earlier_than(self)
    }

    pub fn new(secs: i64, nanos: u32) -> (t: Timestamp)
        ensures
            t == (Timestamp { secs, nanos }),
    {
        Timestamp { secs, nanos }
    }

    pub fn is_earlier_than(&self, other: &Timestamp) -> (r: bool)
        ensures
            r == self.earlier_than(*other),
    {
        self.secs < other.secs || (self.secs == other.secs && self.nanos < other.nanos)
    }
}

/// Reads the wall clock with `chrono::Utc::now` and splits the reading into
/// the seconds and sub-second nanoseconds that chrono reports for it
/// (`DateTime::timestamp`, `DateTime::timestamp_subsec_nanos`). Nothing is
/// claimed about the value: it is whatever the system clock says, and two
/// readings may be the same or stand in either order. chrono gives up on a
/// clock that shows a time before 1970.
#[verifier::external_body]
pub(crate) fn wall_clock() -> Timestamp {
    let now = chrono::Utc::now();
    Timestamp { secs: now.timestamp(), nanos: now.timestamp_subsec_nanos() }
}

} // verus!
