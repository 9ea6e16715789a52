use vstd::prelude::*;

verus! {

/// An instant of local wall-clock time: seconds and nanoseconds since the
/// Unix epoch, together with the local zone's offset from UTC, in seconds,
/// as it was when the value was taken.  Two instants are ordered by
/// `(secs, nanos)` alone; the offset only records how the instant was seen
/// locally, so the ordering is portable across zones.
#[derive(Debug, Clone, Copy, PartialEq, Eq, Structural)]
pub struct Timestamp {
    pub secs: i64,
    pub nanos: u32,
    pub offset_secs: i32,
}

/// The order on instants: by seconds, then by nanoseconds.
pub open spec fn ts_le(a: Timestamp, b: Timestamp) -> bool {
    a.secs < b.secs || (a.secs == b.secs && a.nanos <= b.nanos)
}

impl Timestamp {
    /// Packs the three plain fields; total.
    pub fn new(secs: i64, nanos: u32, offset_secs: i32) -> (r: Timestamp)
        ensures
            r == (Timestamp { secs, nanos, offset_secs }),
    {
        Timestamp { secs, nanos, offset_secs }
    }

    /// Whether `self` is no later than `other`.
    pub fn le(&self, other: &Timestamp) -> (r: bool)
        ensures
            r == ts_le(*self, *other),
    {
        self.secs < other.secs || (self.secs == other.secs && self.nanos <= other.nanos)
    }
}

/// Relies on chrono's `Local::now`, read out through `DateTime::timestamp`,
/// `DateTime::timestamp_subsec_nanos` and `FixedOffset::local_minus_utc`,
/// to capture the current local wall-clock time as plain integers.  Nothing
/// is promised of the result: a wall clock may read anything.
#[verifier::external_body]
pub(crate) fn now_timestamp() -> Timestamp {
    let dt = chrono::Local::now();
    Timestamp {
        secs: dt.timestamp(),
        nanos: dt.timestamp_subsec_nanos(),
        offset_secs: dt.offset().local_minus_utc(),
    }
}

} // verus!
