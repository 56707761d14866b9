//! The level pack: an ordered list of level names inside a pack directory,
//! and the index of the current one. Relative level-change events move the
//! index, wrapping one step past either end.

use vstd::prelude::*;

verus! {

/// Where a one-step move lands: one past the last level wraps to the first,
/// one before the first wraps to the last.
pub open spec fn wrapped_index(cur: int, delta: int, n: int) -> int {
    let x = cur + delta;
    if x == n {
        0
    } else if x == -1 {
        n - 1
    } else {
        x
    }
}

/// An ordered set of levels loaded from one pack directory.
pub struct LevelPack {
    dir: String,
    levels: Vec<String>,
    cur_i: isize,
}

impl LevelPack {
    /// The pack directory the levels were listed from.
    pub closed spec fn spec_dir(&self) -> Seq<char> {
        self.dir@
    }

    /// The level names, in play order.
    pub closed spec fn spec_levels(&self) -> Seq<String> {
        self.levels@
    }

    /// The index of the current level.
    pub closed spec fn spec_cur_i(&self) -> int {
        self.cur_i as int
    }

    /// The index stays on a level (or at zero for an empty pack), and the
    /// pack is small enough for signed index arithmetic.
    pub open spec fn wf(&self) -> bool {
        &&& 0 <= self.spec_cur_i()
        &&& self.spec_levels().len() <= isize::MAX
        &&& if self.spec_levels().len() == 0 {
            self.spec_cur_i() == 0
        } else {
            self.spec_cur_i() < self.spec_levels().len()
        }
    }

    /// Builds a pack over the given level names (the directory listing,
    /// already sorted by the caller), starting at the first.
    pub fn new(dir: String, levels: Vec<String>) -> (r: LevelPack)
        requires
            levels@.len() <= isize::MAX,
        ensures
            r.spec_dir() == dir@,
            r.spec_levels() == levels@,
            r.spec_cur_i() == 0,
            r.wf(),
    {
        LevelPack { dir, levels, cur_i: 0 }
    }

    /// Moves to a neighbouring level (`delta` of 1, 0 or -1, wrapping at the
    /// ends) and returns the new current level's name for the caller to
    /// load.
    pub fn change_level(&mut self, delta: isize) -> (r: &String)
        requires
            old(self).wf(),
            old(self).spec_levels().len() > 0,
            -1 <= delta <= 1,
        ensures
            final(self).wf(),
            final(self).spec_dir() == old(self).spec_dir(),
            final(self).spec_levels() == old(self).spec_levels(),
            final(self).spec_cur_i() == wrapped_index(
                old(self).spec_cur_i(),
                delta as int,
                old(self).spec_levels().len() as int,
            ),
            *r == final(self).spec_levels()[final(self).spec_cur_i()],
    {
        self.set_cur_i(delta);
        let i = self.cur_i as usize;
        &self.levels[i]
    }

    /// Applies one wrapping move to the index.
    fn set_cur_i(&mut self, delta: isize)
        requires
            old(self).wf(),
            old(self).spec_levels().len() > 0,
            -1 <= delta <= 1,
        ensures
            final(self).wf(),
            final(self).spec_dir() == old(self).spec_dir(),
            final(self).spec_levels() == old(self).spec_levels(),
            final(self).spec_cur_i() == wrapped_index(
                old(self).spec_cur_i(),
                delta as int,
                old(self).spec_levels().len() as int,
            ),
    {
        self.cur_i += delta;
        let num_levels = self.levels.len() as isize;
        if self.cur_i == num_levels {
            self.cur_i = 0;
        } else if self.cur_i == -1 {
            self.cur_i = num_levels - 1;
        }
    }
}

/// A request to move to a neighbouring level: 1 for next, -1 for previous, 0
/// to reload the current one.
pub struct ChangeLevelEvent {
    delta: isize,
}

impl ChangeLevelEvent {
    /// The requested move.
    pub closed spec fn spec_delta(&self) -> int {
        self.delta as int
    }

    pub fn new(delta: isize) -> (r: ChangeLevelEvent)
        ensures
            r.spec_delta() == delta,
    {
        ChangeLevelEvent { delta }
    }

    /// The requested move, for the handler that applies it.
    pub fn delta(&self) -> (r: isize)
        ensures
            r == self.spec_delta(),
    {
        self.delta
    }
}

} // verus!
