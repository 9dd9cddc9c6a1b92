//! Points in time.

use vstd::prelude::*;
use crate::text;

verus! {

/// A point in time: seconds and nanoseconds since the Unix epoch, in UTC.
#[derive(Debug, Clone, Copy, PartialEq, Eq, Structural)]
pub struct Timestamp {
    pub secs: i64,
    pub nanos: u32,
}

impl Timestamp {
    /// This point is earlier than `other`.
    pub open spec fn earlier(self, other: Timestamp) -> bool {
        self.secs < other.secs || (self.secs == other.secs && self.nanos < other.nanos)
    }

    /// Whether this point is earlier than `other`.
    pub fn is_before(self, other: Timestamp) -> (r: bool)
        ensures
            r == self.earlier(other),
    {
        self.secs < other.secs || (self.secs == other.secs && self.nanos < other.nanos)
    }
}

/// `chrono::Utc::now`: the current time of the system clock. Which point that is depends on the
/// clock, so all that is said of it is that the nanoseconds stay below two seconds, which leaves
/// room for a leap second, and that `chrono` can represent the point, as its seconds and
/// nanoseconds round-trip through `from_timestamp`. A clock set before the Unix epoch makes
/// `chrono` panic.
#[verifier::external_body]
pub(crate) fn now() -> (r: Timestamp)
    ensures
        r.nanos < 2_000_000_000,
        rfc3339_text(r.secs, r.nanos) is Some,
{
    let time = chrono::Utc::now();
    Timestamp { secs: time.timestamp(), nanos: time.timestamp_subsec_nanos() }
}

/// The text that `chrono` writes in RFC 3339 form for a point in time that it can represent.
pub uninterp spec fn rfc3339_text(secs: i64, nanos: u32) -> Option<Seq<char>>;

/// `chrono::DateTime::from_timestamp` followed by `to_rfc3339`: the point in RFC 3339 form, or
/// nothing for a point that `chrono` cannot represent. The form is left to the name.
#[verifier::external_body]
pub(crate) fn rfc3339(time: Timestamp) -> (r: Option<String>)
    ensures
        text::text_opt(r) == rfc3339_text(time.secs, time.nanos),
{
    chrono::DateTime::from_timestamp(time.secs, time.nanos).map(|point| point.to_rfc3339())
}

/// Points in time are ordered by their seconds, and within a second by their nanoseconds: of two
/// different points one is earlier, never both, and what is earlier than an earlier point is earlier.
pub proof fn law_time_goes_on(a: Timestamp, b: Timestamp, c: Timestamp)
    ensures
        a.secs < b.secs ==> a.earlier(b),
        a.secs == b.secs ==> (a.earlier(b) <==> a.nanos < b.nanos),
        a.secs > b.secs ==> !a.earlier(b),
        a == b || a.earlier(b) != b.earlier(a),
        a.earlier(b) && b.earlier(c) ==> a.earlier(c),
{
}

} // verus!
