//! Time-shift state: whether the world currently shows the present or the
//! past. Each time-shift event flips it.

use vstd::prelude::*;

verus! {

/// Which of the two time layers is active.
pub struct TimeState {
    pub is_present: bool,
}

impl Default for TimeState {
    /// The world starts in the past layer.
    fn default() -> (r: TimeState)
        ensures
            r.is_present == false,
    {
        TimeState { is_present: false }
    }
}

impl TimeState {
    /// One time-shift event: the active layer flips.
    pub fn shift(&mut self)
        ensures
            final(self).is_present == !old(self).is_present,
    {
        self.is_present = !self.is_present;
    }
}

/// A request to shift between the two time layers.
pub struct TimeShiftEvent;

} // verus!
