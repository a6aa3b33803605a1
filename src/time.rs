use vstd::prelude::*;

verus! {

/// A moment in time, in milliseconds since the Unix epoch.
#[derive(Copy, Clone, PartialEq, Eq, Structural, PartialOrd, Ord, Debug, Hash)]
pub struct Timestamp {
    millis: u64,
}

/// A span of time, in milliseconds.
#[derive(Copy, Clone, PartialEq, Eq, Structural, PartialOrd, Ord, Debug, Hash)]
pub struct TimeDiff {
    millis: u64,
}

impl Timestamp {
    pub closed spec fn spec_millis(self) -> u64 {
        self.millis
    }

    pub fn from_millis(millis: u64) -> (r: Timestamp)
        ensures
            r.spec_millis() == millis,
    {
        Timestamp { millis }
    }

    pub fn millis(&self) -> (r: u64)
        ensures
            r == self.spec_millis(),
    {
        self.millis
    }

    /// The time from `other` to `self`, or zero where `other` is later.
    pub fn saturating_diff(self, other: Timestamp) -> (r: TimeDiff)
        ensures
            r.spec_millis() == if self.spec_millis() >= other.spec_millis() {
                (self.spec_millis() - other.spec_millis()) as u64
            } else {
                0u64
            },
    {
        if self.millis >= other.millis {
            TimeDiff { millis: self.millis - other.millis }
        } else {
            TimeDiff { millis: 0 }
        }
    }

    /// Relies on casper_types::Timestamp::now: the wall-clock time in
    /// milliseconds since the Unix epoch. Nothing is promised of its value;
    /// that call panics where the system clock reads before the epoch.
    #[verifier::external_body]
    pub(crate) fn now() -> (r: Timestamp) {
        Timestamp { millis: casper_types::Timestamp::now().millis() }
    }
}

impl TimeDiff {
    pub closed spec fn spec_millis(self) -> u64 {
        self.millis
    }

    pub fn from_millis(millis: u64) -> (r: TimeDiff)
        ensures
            r.spec_millis() == millis,
    {
        TimeDiff { millis }
    }

    pub fn millis(&self) -> (r: u64)
        ensures
            r == self.spec_millis(),
    {
        self.millis
    }
}

} // verus!
