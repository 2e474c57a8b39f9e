//! Shift-coverage scheduling data: a plain record plus one randomized
//! accessor.

use vstd::prelude::*;

verus! {

/// A shift-coverage requirement: which staff groups should cover which
/// shifts on a day, with its weighting and penalties.
pub struct Coverage {
    pub id: String,
    pub staff_groups: Vec<String>,
    pub shift: Vec<String>,
    pub desire_value: i8,
    pub day: i8,
    pub day_type: String,
    pub priority: i8,
    pub penalty: i8,
    pub types: Vec<String>,
}

/// Relies on rand::Rng::gen_range over `0..bound`: the sampled value
/// lies in the half-open range; the range is non-empty, so the call
/// cannot panic. Nothing more is assumed of a random draw.
#[verifier::external_body]
fn random_index(bound: usize) -> (r: usize)
    requires
        bound > 0,
    ensures
        r < bound,
{
    rand::Rng::gen_range(&mut rand::thread_rng(), 0..bound)
}

impl Coverage {
    /// One of this coverage's shifts, drawn at random; whatever the
    /// draw, the result is an element of the shift list.
    pub fn shift_random(&self) -> (s: String)
        requires
            self.shift@.len() > 0,
        ensures
            exists|i: int| 0 <= i < self.shift@.len() && s@ == (#[trigger] self.shift@[i])@,
    {
        let i = random_index(self.shift.len());
        let s = self.shift[i].clone();
        proof {
            assert(s@ == (self.shift@[i as int])@);
        }
        s
    }
}

} // verus!
