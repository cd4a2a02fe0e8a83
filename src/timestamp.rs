use vstd::prelude::*;

verus! {

/// Milliseconds since a fixed epoch.
#[derive(Clone, Copy, PartialEq, Eq, Structural, Debug)]
pub struct Timestamp {
    pub ms_since_1970: u64,
}

/// `a + b`, or the largest `u64` where the sum does not fit.
pub open spec fn saturating_add_spec(a: u64, b: u64) -> u64 {
    if a + b > u64::MAX {
        u64::MAX
    } else {
        (a + b) as u64
    }
}

impl Timestamp {
    /// The time `ms` later, saturating at the largest representable time.
    pub fn adding(&self, ms: u64) -> (r: Self)
        ensures
            r.ms_since_1970 == saturating_add_spec(self.ms_since_1970, ms),
    {
        Timestamp { ms_since_1970: self.ms_since_1970.saturating_add(ms) }
    }

    /// The time `ms` earlier, saturating at the epoch.
    pub fn removing(&self, ms: u64) -> (r: Self)
        ensures
            r.ms_since_1970 == (if self.ms_since_1970 >= ms {
                (self.ms_since_1970 - ms) as u64
            } else {
                0
            }),
    {
        Timestamp { ms_since_1970: self.ms_since_1970.saturating_sub(ms) }
    }

    /// How much later this time is than `other`; none if it is earlier.
    pub fn difference(&self, other: &Self) -> (r: Option<u64>)
        ensures
            self.ms_since_1970 >= other.ms_since_1970 ==> r == Some(
                (self.ms_since_1970 - other.ms_since_1970) as u64,
            ),
            self.ms_since_1970 < other.ms_since_1970 ==> r is None,
    {
        self.ms_since_1970.checked_sub(other.ms_since_1970)
    }

    pub fn min(&self, other: Self) -> (r: Self)
        ensures
            r.ms_since_1970 == (if self.ms_since_1970 <= other.ms_since_1970 {
                self.ms_since_1970
            } else {
                other.ms_since_1970
            }),
    {
        if self.ms_since_1970 <= other.ms_since_1970 {
            *self
        } else {
            other
        }
    }

    pub fn max(&self, other: Self) -> (r: Self)
        ensures
            r.ms_since_1970 == (if self.ms_since_1970 >= other.ms_since_1970 {
                self.ms_since_1970
            } else {
                other.ms_since_1970
            }),
    {
        if self.ms_since_1970 >= other.ms_since_1970 {
            *self
        } else {
            other
        }
    }
}

/// A source of the current time, supplied by the platform.
pub trait Clock {
    fn now(&mut self) -> Timestamp;
}

} // verus!
