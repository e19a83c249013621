//! Points in time, as the clock reports them.

use std::cmp::Ordering;
use vstd::prelude::*;

verus! {

/// The nanoseconds in one second.
pub const NANOS_PER_SEC: i128 = 1_000_000_000;

/// A point in time: whole seconds since the Unix epoch, and the
/// nanoseconds since the last whole second.
///
/// Two timestamps are ordered by their seconds first and by their
/// nanoseconds second.
#[derive(Copy, Clone, Debug, PartialEq, Eq, Structural)]
pub struct Timestamp {
    pub secs: i64,
    pub nanos: u32,
}

/// The order of two ranks, as an `Ordering`.
pub open spec fn order_of_ranks(a: int, b: int) -> Ordering {
    if a < b {
        Ordering::Less
    } else if a == b {
        Ordering::Equal
    } else {
        Ordering::Greater
    }
}

impl Timestamp {
    /// One number that orders timestamps as they are ordered.
    pub open spec fn rank(&self) -> int {
        self.secs * 0x1_0000_0000 + self.nanos
    }

    /// The nanoseconds from `earlier` to this timestamp; negative where
    /// `earlier` is the later one.
    pub open spec fn nanos_since(&self, earlier: Timestamp) -> int {
        (self.secs - earlier.secs) * 1_000_000_000 + (self.nanos - earlier.nanos)
    }

    /// The point in time `nanos` nanoseconds after the whole second `secs`.
    pub fn new(secs: i64, nanos: u32) -> (t: Timestamp)
        ensures
            t.secs == secs,
            t.nanos == nanos,
    {
        Timestamp { secs, nanos }
    }

    /// Whether this timestamp lies before `other`.
    pub fn earlier_than(&self, other: &Timestamp) -> (r: bool)
        ensures
            r == (self.rank() < other.rank()),
    {
        self.secs < other.secs || (self.secs == other.secs && self.nanos < other.nanos)
    }

    /// The nanoseconds that passed from `earlier` to this timestamp.
    pub fn elapsed_since(&self, earlier: &Timestamp) -> (r: i128)
        ensures
            r == self.nanos_since(*earlier),
    {
        let secs: i128 = self.secs as i128 - earlier.secs as i128;
        let nanos: i128 = self.nanos as i128 - earlier.nanos as i128;
        secs * NANOS_PER_SEC + nanos
    }
}

/// Timestamps with one rank are one timestamp.
pub proof fn lemma_rank_decides(a: Timestamp, b: Timestamp)
    ensures
        a.rank() == b.rank() <==> a == b,
        a.rank() < b.rank() <==> a.secs < b.secs || (a.secs == b.secs && a.nanos < b.nanos),
{
}

impl PartialOrd for Timestamp {
    fn partial_cmp(&self, other: &Self) -> (r: Option<Ordering>) {
        if self.earlier_than(other) {
            Some(Ordering::Less)
        } else if other.earlier_than(self) {
            Some(Ordering::Greater)
        } else {
            proof {
                lemma_rank_decides(*self, *other);
            }
            Some(Ordering::Equal)
        }
    }
}

impl vstd::std_specs::cmp::PartialOrdSpecImpl for Timestamp {
    open spec fn obeys_partial_cmp_spec() -> bool {
        true
    }

    open spec fn partial_cmp_spec(&self, other: &Self) -> Option<Ordering> {
        Some(order_of_ranks(self.rank(), other.rank()))
    }
}

/// Reads the clock with `chrono::Utc::now`, and takes the seconds since
/// the epoch and the nanoseconds of the second from what it returns.
/// Nothing is claimed of the time that comes back. `Utc::now` panics where
/// the system clock stands before the epoch.
#[verifier::external_body]
pub(crate) fn current_time() -> (now: Timestamp) {
    let now = chrono::Utc::now();
    Timestamp { secs: now.timestamp(), nanos: now.timestamp_subsec_nanos() }
}

} // verus!
