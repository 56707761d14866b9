//! Output devices: doors the circuit drives. Each device consumes its bits
//! from the tail of the tick's pending output vector and commits them only
//! when they differ from its last-applied state.

use vstd::prelude::*;

verus! {

/// Write capability of an output device: how many bits it consumes, the
/// change test, and the commit. The candidate bits sit at the tail of the
/// pending output vector.
pub trait Output {
    /// The bits the device last applied.
    spec fn last_applied(&self) -> Seq<bool>;

    fn get_n(&self) -> (r: usize)
        ensures
            r == self.last_applied().len(),
    ;

    /// Compares the candidate tail bits against the last-applied state
    /// without committing. When no visible change is needed the candidate
    /// bits are consumed here; when a change is needed they are left for
    /// `pop_state`.
    fn needs_state_update(&self, new_state: &mut Vec<bool>) -> (r: bool)
        requires
            old(new_state)@.len() >= self.last_applied().len(),
        ensures
            r == (old(new_state)@.subrange(
                old(new_state)@.len() - self.last_applied().len(),
                old(new_state)@.len() as int,
            ) != self.last_applied()),
            r ==> final(new_state)@ == old(new_state)@,
            !r ==> final(new_state)@ == old(new_state)@.take(
                old(new_state)@.len() - self.last_applied().len(),
            ),
    ;

    /// Consumes the candidate tail bits and commits them as the new
    /// last-applied state, performing the device's visible side effect.
    fn pop_state(&mut self, new_state: &mut Vec<bool>)
        requires
            old(new_state)@.len() >= old(self).last_applied().len(),
        ensures
            final(self).last_applied() == old(new_state)@.subrange(
                old(new_state)@.len() - old(self).last_applied().len(),
                old(new_state)@.len() as int,
            ),
            final(new_state)@ == old(new_state)@.take(
                old(new_state)@.len() - old(self).last_applied().len(),
            ),
    ;
}

/// A door: passable exactly while its one state bit is `true`.
#[derive(Clone, Copy, Debug, PartialEq, Eq, Structural)]
#[verifier::ext_equal]
pub struct Door {
    pub state: bool,
}

impl Default for Door {
    /// A door starts open.
    fn default() -> (r: Door)
        ensures
            r.state == true,
    {
        Door { state: true }
    }
}

impl Output for Door {
    open spec fn last_applied(&self) -> Seq<bool> {
        seq![self.state]
    }

    fn get_n(&self) -> (r: usize)
    {
        1
    }

    fn needs_state_update(&self, new_state: &mut Vec<bool>) -> (r: bool)
    {
        let last = new_state.len() - 1;
        let needs_update = self.state != new_state[last];
        proof {
            let tail = old(new_state)@.subrange(
                old(new_state)@.len() - 1,
                old(new_state)@.len() as int,
            );
            assert(tail =~= seq![old(new_state)@.last()]);
            if old(new_state)@.last() == self.state {
                assert(tail =~= self.last_applied());
            } else {
                assert(tail[0] != self.last_applied()[0]);
            }
        }
        if !needs_update {
            new_state.pop();
            proof {
                assert(new_state@ =~= old(new_state)@.take(old(new_state)@.len() - 1));
            }
        }
        needs_update
    }

    fn pop_state(&mut self, new_state: &mut Vec<bool>)
    {
        self.state = new_state.pop().unwrap();
        proof {
            let tail = old(new_state)@.subrange(
                old(new_state)@.len() - 1,
                old(new_state)@.len() as int,
            );
            assert(tail =~= seq![old(new_state)@.last()]);
            assert(new_state@ =~= old(new_state)@.take(old(new_state)@.len() - 1));
        }
    }
}

/// The closed set of output devices a level can bind.
#[derive(Clone, Copy, Debug, PartialEq, Eq, Structural)]
#[verifier::ext_equal]
pub enum OutputDevice {
    Door(Door),
}

impl Output for OutputDevice {
    open spec fn last_applied(&self) -> Seq<bool> {
        match self {
            OutputDevice::Door(d) => d.last_applied(),
        }
    }

    fn get_n(&self) -> (r: usize)
    {
        match self {
            OutputDevice::Door(d) => d.get_n(),
        }
    }

    fn needs_state_update(&self, new_state: &mut Vec<bool>) -> (r: bool)
    {
        match self {
            OutputDevice::Door(d) => d.needs_state_update(new_state),
        }
    }

    fn pop_state(&mut self, new_state: &mut Vec<bool>)
    {
        match self {
            OutputDevice::Door(d) => d.pop_state(new_state),
        }
    }
}

} // verus!
