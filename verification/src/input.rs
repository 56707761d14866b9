//! Input devices: buttons the player drives. Each device reports a fixed
//! number of boolean state bits that the orchestrator feeds into the
//! circuit's input nodes.

use vstd::prelude::*;

verus! {

/// Read capability of an input device: how many bits it contributes and the
/// bits themselves, appended to the tick's input vector.
pub trait Input {
    /// The bits the device currently reports.
    spec fn state_bits(&self) -> Seq<bool>;

    fn get_n(&self) -> (r: usize)
        ensures
            r == self.state_bits().len(),
    ;

    fn append_state(&self, v: &mut Vec<bool>)
        ensures
            final(v)@ == old(v)@ + self.state_bits(),
    ;
}

/// The authored kinds of buttons.
#[derive(Clone, Copy, Debug, PartialEq, Eq, Structural)]
pub enum ButtonType {
    ToggleButton,
    PressButton,
}

/// A button that flips its state on each new press and keeps it afterwards.
pub struct ToggleButton {
    state: bool,
    prev_state: bool,
    on_key: String,
    off_key: String,
}

impl ToggleButton {
    pub fn new(on_key: &str, off_key: &str) -> (r: ToggleButton)
        ensures
            r.state_bits() == seq![false],
            !r.spec_prev_state(),
            r.spec_on_key() == on_key@,
            r.spec_off_key() == off_key@,
    {
        ToggleButton {
            state: false,
            prev_state: false,
            on_key: on_key.to_owned(),
            off_key: off_key.to_owned(),
        }
    }

    /// The material key for the pressed look.
    pub closed spec fn spec_on_key(&self) -> Seq<char> {
        self.on_key@
    }

    /// The material key for the released look.
    pub closed spec fn spec_off_key(&self) -> Seq<char> {
        self.off_key@
    }

    /// The sensor reading the button saw last tick.
    pub closed spec fn spec_prev_state(&self) -> bool {
        self.prev_state
    }

    /// The button after one sensor reading: the state flips exactly on a
    /// rising edge, and the reading is remembered.
    pub closed spec fn spec_after_sensor(self, overlapping: bool) -> ToggleButton {
        ToggleButton {
            state: if !self.prev_state && overlapping {
                !self.state
            } else {
                self.state
            },
            prev_state: overlapping,
            on_key: self.on_key,
            off_key: self.off_key,
        }
    }

    /// Feeds this tick's sensor reading (whether something overlaps the
    /// button): the state flips exactly on a rising edge. Returns whether
    /// the reported state changed, so the caller can restyle the button.
    pub fn sensor_update(&mut self, overlapping: bool) -> (changed: bool)
        ensures
            final(self).state_bits() == (if !old(self).spec_prev_state() && overlapping {
                seq![!old(self).state_bits()[0]]
            } else {
                old(self).state_bits()
            }),
            final(self).spec_prev_state() == overlapping,
            changed == (final(self).state_bits() != old(self).state_bits()),
            final(self).spec_on_key() == old(self).spec_on_key(),
            final(self).spec_off_key() == old(self).spec_off_key(),
            *final(self) == old(self).spec_after_sensor(overlapping),
    {
        let mut changed = false;
        if self.prev_state != overlapping {
            if !self.prev_state && overlapping {
                self.state = !self.state;
                changed = true;
            }
            self.prev_state = overlapping;
        }
        proof {
            assert(self.state_bits() =~= (if !old(self).spec_prev_state() && overlapping {
                seq![!old(self).state_bits()[0]]
            } else {
                old(self).state_bits()
            }));
        }
        changed
    }
}

impl Input for ToggleButton {
    closed spec fn state_bits(&self) -> Seq<bool> {
        seq![self.state]
    }

    fn get_n(&self) -> (r: usize)
    {
        1
    }

    fn append_state(&self, v: &mut Vec<bool>)
    {
        v.push(self.state);
        proof {
            assert(v@ =~= old(v)@ + self.state_bits());
        }
    }
}

/// A button that reports pressed exactly while something overlaps it.
pub struct PressButton {
    state: bool,
    on_key: String,
    off_key: String,
}

impl PressButton {
    pub fn new(on_key: &str, off_key: &str) -> (r: PressButton)
        ensures
            r.state_bits() == seq![false],
            r.spec_on_key() == on_key@,
            r.spec_off_key() == off_key@,
    {
        PressButton { state: false, on_key: on_key.to_owned(), off_key: off_key.to_owned() }
    }

    /// The material key for the pressed look.
    pub closed spec fn spec_on_key(&self) -> Seq<char> {
        self.on_key@
    }

    /// The material key for the released look.
    pub closed spec fn spec_off_key(&self) -> Seq<char> {
        self.off_key@
    }

    /// The button after one sensor reading: the state follows it directly.
    pub closed spec fn spec_after_sensor(self, overlapping: bool) -> PressButton {
        PressButton { state: overlapping, on_key: self.on_key, off_key: self.off_key }
    }

    /// Feeds this tick's sensor reading: the state follows it directly.
    /// Returns whether the reported state changed.
    pub fn sensor_update(&mut self, overlapping: bool) -> (changed: bool)
        ensures
            final(self).state_bits() == seq![overlapping],
            changed == (final(self).state_bits() != old(self).state_bits()),
            final(self).spec_on_key() == old(self).spec_on_key(),
            final(self).spec_off_key() == old(self).spec_off_key(),
            *final(self) == old(self).spec_after_sensor(overlapping),
    {
        let changed = self.state != overlapping;
        if changed {
            self.state = overlapping;
        }
        proof {
            assert(self.state_bits() =~= seq![overlapping]);
            if old(self).state_bits()[0] == overlapping {
                assert(self.state_bits() =~= old(self).state_bits());
            } else {
                assert(self.state_bits()[0] != old(self).state_bits()[0]);
            }
        }
        changed
    }
}

impl Input for PressButton {
    closed spec fn state_bits(&self) -> Seq<bool> {
        seq![self.state]
    }

    fn get_n(&self) -> (r: usize)
    {
        1
    }

    fn append_state(&self, v: &mut Vec<bool>)
    {
        v.push(self.state);
        proof {
            assert(v@ =~= old(v)@ + self.state_bits());
        }
    }
}

/// The closed set of input devices a level can bind.
pub enum InputDevice {
    Toggle(ToggleButton),
    Press(PressButton),
}

impl InputDevice {
    /// The device after one sensor reading, by its own kind's rule.
    pub open spec fn spec_after_sensor(self, overlapping: bool) -> InputDevice {
        match self {
            InputDevice::Toggle(b) => InputDevice::Toggle(b.spec_after_sensor(overlapping)),
            InputDevice::Press(b) => InputDevice::Press(b.spec_after_sensor(overlapping)),
        }
    }

    /// Feeds this tick's sensor reading to the device. Returns whether the
    /// reported state changed, so the caller can restyle the device.
    pub fn sensor_update(&mut self, overlapping: bool) -> (changed: bool)
        ensures
            *final(self) == old(self).spec_after_sensor(overlapping),
            changed == (final(self).state_bits() != old(self).state_bits()),
    {
        match self {
            InputDevice::Toggle(b) => b.sensor_update(overlapping),
            InputDevice::Press(b) => b.sensor_update(overlapping),
        }
    }
}

impl Input for InputDevice {
    open spec fn state_bits(&self) -> Seq<bool> {
        match self {
            InputDevice::Toggle(b) => b.state_bits(),
            InputDevice::Press(b) => b.state_bits(),
        }
    }

    fn get_n(&self) -> (r: usize)
    {
        match self {
            InputDevice::Toggle(b) => b.get_n(),
            InputDevice::Press(b) => b.get_n(),
        }
    }

    fn append_state(&self, v: &mut Vec<bool>)
    {
        match self {
            InputDevice::Toggle(b) => b.append_state(v),
            InputDevice::Press(b) => b.append_state(v),
        }
    }
}

} // verus!
