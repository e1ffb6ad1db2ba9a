//! Positions in rhythmic time.
use vstd::prelude::*;
use vstd::std_specs::ops::{AddSpec, AddSpecImpl, SubSpec, SubSpecImpl};

verus! {

/// Resolution of the timeline: one beat is this many ticks.
pub const TICKS_PER_BEAT: i64 = 1_000_000;

/// Full intensity on the velocity and priority scale (the value `1.0`);
/// a level is a whole number of millionths.
pub const FULL_LEVEL: u64 = 1_000_000;

/// A moment in rhythmic time, counted in ticks (`TICKS_PER_BEAT` ticks per beat).
#[derive(Debug, Clone, Copy, PartialEq, Eq, Structural, PartialOrd, Ord, Hash)]
pub struct Beat(pub i64);

/// An `int` lies in the range of `i64`.
pub open spec fn fits_i64(x: int) -> bool {
    i64::MIN <= x <= i64::MAX
}

impl Beat {
    /// The origin of the timeline.
    pub fn zero() -> (r: Beat)
        ensures
            r.0 == 0,
    {
        Beat(0)
    }

    /// Is this the origin of the timeline?
    pub fn is_zero(&self) -> (r: bool)
        ensures
            r == (self.0 == 0),
    {
        self.0 == 0
    }

    /// The beat that lies `n` whole beats from the origin.
    pub fn beats(n: i64) -> (r: Beat)
        requires
            fits_i64(n * TICKS_PER_BEAT),
        ensures
            r.0 == n * TICKS_PER_BEAT,
    {
        Beat(n * TICKS_PER_BEAT)
    }
}

impl core::ops::Add for Beat {
    type Output = Beat;

    fn add(self, rhs: Beat) -> (r: Beat) {
        Beat(self.0 + rhs.0)
    }
}

impl AddSpecImpl for Beat {
    open spec fn obeys_add_spec() -> bool {
        true
    }

    open spec fn add_req(self, rhs: Beat) -> bool {
        fits_i64(self.0 + rhs.0)
    }

    open spec fn add_spec(self, rhs: Beat) -> Beat {
        Beat((self.0 + rhs.0) as i64)
    }
}

impl core::ops::Sub for Beat {
    type Output = Beat;

    fn sub(self, rhs: Beat) -> (r: Beat) {
        Beat(self.0 - rhs.0)
    }
}

impl SubSpecImpl for Beat {
    open spec fn obeys_sub_spec() -> bool {
        true
    }

    open spec fn sub_req(self, rhs: Beat) -> bool {
        fits_i64(self.0 - rhs.0)
    }

    open spec fn sub_spec(self, rhs: Beat) -> Beat {
        Beat((self.0 - rhs.0) as i64)
    }
}

/// Moving forward by `b` and back by `b` returns to the same beat.
pub proof fn lemma_sub_undoes_add(a: Beat, b: Beat)
    requires
        AddSpec::add_req(a, b),
    ensures
        SubSpec::sub_req(AddSpec::add_spec(a, b), b),
        SubSpec::sub_spec(AddSpec::add_spec(a, b), b) == a,
{
}

} // verus!
