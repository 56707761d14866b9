//! Fixed-arity logic gates working over a shared bit stack: each gate pops
//! its input bits and pushes its output bit.

use vstd::prelude::*;

verus! {

/// A gate with `I` input bits and `O` output bits. `process` consumes the
/// last `I` bits of the working stack and appends `O` bits.
pub trait Gate<const I: usize, const O: usize>: Sized {
    /// What this gate computes from the bits it pops.
    spec fn gate_fn(&self, inputs: Seq<bool>) -> Seq<bool>;

    fn get_i() -> (r: usize)
        ensures
            r == I,
    {
        I
    }

    fn get_o() -> (r: usize)
        ensures
            r == O,
    {
        O
    }

    fn process(&mut self, i: &mut Vec<bool>, o: &mut Vec<bool>)
        requires
            old(i)@.len() >= I,
        ensures
            final(i)@ == old(i)@.take(old(i)@.len() - I as int),
            final(o)@ == old(o)@ + old(self).gate_fn(
                old(i)@.subrange(old(i)@.len() - I as int, old(i)@.len() as int),
            ),
    ;
}

/// Conjunction of two bits.
#[derive(Default)]
pub struct AndGate {
    pub state: bool,
}

impl Gate<2, 1> for AndGate {
    open spec fn gate_fn(&self, inputs: Seq<bool>) -> Seq<bool> {
        seq![inputs[0] && inputs[1]]
    }

    fn process(&mut self, i: &mut Vec<bool>, o: &mut Vec<bool>) {
        let a = i.pop().unwrap();
        let b = i.pop().unwrap();
        self.state = a && b;
        o.push(self.state);
        proof {
            let input2 = old(i)@.subrange(old(i)@.len() - 2, old(i)@.len() as int);
            assert(i@ =~= old(i)@.take(old(i)@.len() - 2));
            assert(o@ =~= old(o)@ + old(self).gate_fn(input2));
        }
    }
}

/// Disjunction of two bits.
#[derive(Default)]
pub struct OrGate {
    pub state: bool,
}

impl Gate<2, 1> for OrGate {
    open spec fn gate_fn(&self, inputs: Seq<bool>) -> Seq<bool> {
        seq![inputs[0] || inputs[1]]
    }

    fn process(&mut self, i: &mut Vec<bool>, o: &mut Vec<bool>) {
        let a = i.pop().unwrap();
        let b = i.pop().unwrap();
        self.state = a || b;
        o.push(self.state);
        proof {
            let input2 = old(i)@.subrange(old(i)@.len() - 2, old(i)@.len() as int);
            assert(i@ =~= old(i)@.take(old(i)@.len() - 2));
            assert(o@ =~= old(o)@ + old(self).gate_fn(input2));
        }
    }
}

/// The closed set of gate kinds, dispatched without trait objects.
pub enum GateTypes {
    AndGate(AndGate),
    OrGate(OrGate),
}

/// The bit a gate kind pushes for the two bits it pops.
pub open spec fn spec_gate_output(g: GateTypes, a: bool, b: bool) -> bool {
    match g {
        GateTypes::AndGate(_) => a && b,
        GateTypes::OrGate(_) => a || b,
    }
}

impl GateTypes {
    pub fn get_i(&self) -> (r: usize)
        ensures
            r == 2,
    {
        match self {
            GateTypes::AndGate(_) => AndGate::get_i(),
            GateTypes::OrGate(_) => OrGate::get_i(),
        }
    }

    pub fn get_o(&self) -> (r: usize)
        ensures
            r == 1,
    {
        match self {
            GateTypes::AndGate(_) => AndGate::get_o(),
            GateTypes::OrGate(_) => OrGate::get_o(),
        }
    }

    pub fn process(&mut self, i: &mut Vec<bool>, o: &mut Vec<bool>)
        requires
            old(i)@.len() >= 2,
        ensures
            final(i)@ == old(i)@.take(old(i)@.len() - 2),
            final(o)@ == old(o)@.push(
                spec_gate_output(
                    *old(self),
                    old(i)@[old(i)@.len() - 1],
                    old(i)@[old(i)@.len() - 2],
                ),
            ),
    {
        match self {
            GateTypes::AndGate(g) => g.process(i, o),
            GateTypes::OrGate(g) => g.process(i, o),
        }
        proof {
            assert(o@ =~= old(o)@.push(
                spec_gate_output(*old(self), old(i)@[old(i)@.len() - 1], old(i)@[old(i)@.len() - 2]),
            ));
        }
    }
}

} // verus!
