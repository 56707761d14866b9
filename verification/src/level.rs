//! The level state orchestrator: binds input and output devices to the
//! circuit's input and output slots positionally, gathers the input bits
//! once per tick, evaluates the circuit, and writes the output bits back to
//! the output devices only where they changed.

use crate::input::{Input, InputDevice};
use crate::logic_graph::{
    assign_states, graph_wf, lemma_evaluate_deterministic, spec_outputs, ConfigError, GraphV,
    LogicGraph, Operator,
};
use crate::output::{Door, Output, OutputDevice};
use vstd::prelude::*;

verus! {

/// Mathematical model of a `Level`.
pub struct LevelV {
    pub root: u64,
    pub graph: GraphV,
    pub inputs: Seq<Option<InputDevice>>,
    pub outputs: Seq<Option<OutputDevice>>,
}

/// The bits the live input bindings report, concatenated in binding order;
/// a despawned binding (`None`) contributes nothing.
pub open spec fn gathered_bits(devs: Seq<Option<InputDevice>>) -> Seq<bool>
    decreases devs.len(),
{
    if devs.len() == 0 {
        Seq::empty()
    } else {
        let rest = gathered_bits(devs.drop_last());
        match devs.last() {
            Some(d) => rest + d.state_bits(),
            None => rest,
        }
    }
}

/// How many bits the live output bindings before `j` consume (each device is
/// one bit wide).
pub open spec fn live_count(devs: Seq<Option<OutputDevice>>, j: int) -> int
    decreases j,
{
    if j <= 0 {
        0
    } else {
        live_count(devs, j - 1) + if devs[j - 1] is Some {
            1int
        } else {
            0int
        }
    }
}

/// The device after committing a candidate bit.
pub open spec fn apply_candidate(dev: OutputDevice, cand: bool) -> OutputDevice {
    match dev {
        OutputDevice::Door(_) => OutputDevice::Door(Door { state: cand }),
    }
}

/// What one tick leaves in output binding `q`, given the bindings before the
/// tick and the evaluated output bits: a dead binding is skipped; a live
/// device holds its candidate bit, taken from the tail of the output vector,
/// and counts as applied exactly when that bit differed.
pub open spec fn writeback_entry_ok(
    devs0: Seq<Option<OutputDevice>>,
    out0: Seq<bool>,
    cur: Option<OutputDevice>,
    applied: bool,
    q: int,
) -> bool {
    match devs0[q] {
        None => cur is None && !applied,
        Some(dev) => {
            let cand = out0[out0.len() - 1 - live_count(devs0, q)];
            &&& cur == Some(apply_candidate(dev, cand))
            &&& applied == (seq![cand] != dev.last_applied())
        },
    }
}

/// What one orchestrator tick does to a level (`l0` before, `l1` after,
/// `applied` the per-binding committed flags): the bindings, root and graph
/// structure are kept; with no authored logic, or with the gathered bits
/// short of the circuit's arity (a despawned input binding), nothing
/// changes; otherwise the circuit is evaluated over the gathered bits and
/// every output binding holds its candidate bit, committed exactly where it
/// differed.
pub open spec fn tick_post(l0: LevelV, l1: LevelV, applied: Seq<bool>) -> bool {
    &&& level_wf(l1)
    &&& l1.root == l0.root
    &&& l1.inputs == l0.inputs
    &&& l1.graph.nodes == l0.graph.nodes
    &&& l1.graph.input_nodes == l0.graph.input_nodes
    &&& l1.graph.output_nodes == l0.graph.output_nodes
    &&& {
        let g = l0.graph;
        let bits = gathered_bits(l0.inputs);
        let devs = l0.outputs;
        if g.nodes.len() == 0 || bits.len() != g.input_nodes.len() {
            l1 == l0 && applied.len() == 0
        } else {
            let out = spec_outputs(g, bits);
            &&& applied.len() == devs.len()
            &&& writeback_prefix_ok(devs, out, l1.outputs, applied, devs.len() as int)
            &&& forall|k: int|
                0 <= k < g.nodes.len() && g.nodes[k].op == Operator::Passthrough
                    ==> l1.graph.states[k] == assign_states(g.states, g.input_nodes, bits)[k]
        }
    }
}

/// `writeback_entry_ok` holds of every output binding before `j`.
pub open spec fn writeback_prefix_ok(
    devs0: Seq<Option<OutputDevice>>,
    out0: Seq<bool>,
    outs: Seq<Option<OutputDevice>>,
    apps: Seq<bool>,
    j: int,
) -> bool {
    forall|q: int| 0 <= q < j ==> #[trigger] writeback_entry_ok(devs0, out0, outs[q], apps[q], q)
}

/// A well-formed level: the graph is well-formed and the bindings cover the
/// graph's input and output slots, one bit each, in authoring order.
pub open spec fn level_wf(l: LevelV) -> bool {
    &&& graph_wf(l.graph)
    &&& l.inputs.len() == l.graph.input_nodes.len()
    &&& l.outputs.len() == l.graph.output_nodes.len()
}

proof fn lemma_live_count_bounds(devs: Seq<Option<OutputDevice>>, j: int)
    requires
        0 <= j,
    ensures
        0 <= live_count(devs, j) <= j,
    decreases j,
{
    if j > 0 {
        lemma_live_count_bounds(devs, j - 1);
    }
}

/// Live output bindings stay live and dead ones stay dead across a tick's
/// write-back, so the bits consumed ahead of any binding stay the same.
proof fn lemma_live_count_preserved(
    devs0: Seq<Option<OutputDevice>>,
    out0: Seq<bool>,
    devs1: Seq<Option<OutputDevice>>,
    apps: Seq<bool>,
    j: int,
)
    requires
        devs1.len() == devs0.len(),
        writeback_prefix_ok(devs0, out0, devs1, apps, devs0.len() as int),
        apps.len() == devs0.len(),
        0 <= j <= devs0.len(),
    ensures
        live_count(devs1, j) == live_count(devs0, j),
    decreases j,
{
    if j > 0 {
        lemma_live_count_preserved(devs0, out0, devs1, apps, j - 1);
        assert(writeback_entry_ok(devs0, out0, devs1[j - 1], apps[j - 1], j - 1));
    }
}

/// Law: steady-state re-evaluation commits nothing. When a tick follows a
/// tick that ran the circuit, and no input device changed in between, the
/// second tick leaves every output binding as it was and applies none of
/// them: an output device is mutated only on an actual transition.
pub proof fn lemma_steady_state_tick(
    l0: LevelV,
    l1: LevelV,
    a1: Seq<bool>,
    l2: LevelV,
    a2: Seq<bool>,
)
    requires
        level_wf(l0),
        tick_post(l0, l1, a1),
        tick_post(l1, l2, a2),
        l0.graph.nodes.len() > 0,
        gathered_bits(l0.inputs).len() == l0.graph.input_nodes.len(),
    ensures
        forall|j: int| 0 <= j < a2.len() ==> !a2[j],
        l2.outputs == l1.outputs,
{
    let bits = gathered_bits(l0.inputs);
    let out1 = spec_outputs(l0.graph, bits);
    let out2 = spec_outputs(l1.graph, bits);
    assert(gathered_bits(l1.inputs) == bits);
    lemma_evaluate_deterministic(l0.graph, l1.graph, bits);
    assert(out2 == out1);
    assert(l1.outputs.len() == l0.outputs.len());
    assert(l2.outputs.len() == l1.outputs.len());
    assert(a2.len() == l1.outputs.len());
    assert forall|j: int| 0 <= j < a2.len() implies !a2[j] && (#[trigger] l2.outputs[j])
        == l1.outputs[j] by {
        assert(writeback_entry_ok(l0.outputs, out1, l1.outputs[j], a1[j], j));
        assert(writeback_entry_ok(l1.outputs, out2, l2.outputs[j], a2[j], j));
        lemma_live_count_preserved(l0.outputs, out1, l1.outputs, a1, j);
        match l0.outputs[j] {
            None => {},
            Some(dev0) => {
                let cand = out1[out1.len() - 1 - live_count(l0.outputs, j)];
                let dev1 = apply_candidate(dev0, cand);
                assert(l1.outputs[j] == Some(dev1));
                assert(dev1.last_applied() =~= seq![cand]);
                assert(a2[j] == (seq![cand] != dev1.last_applied()));
                assert(apply_candidate(dev1, cand) =~= dev1);
            },
        }
    }
    assert forall|j: int| 0 <= j < a2.len() implies !(#[trigger] a2[j]) by {
        assert(l2.outputs[j] == l1.outputs[j]);
    }
    assert(l2.outputs =~= l1.outputs);
}

/// One live level: the spawned scene's root handle, the authored circuit,
/// and the devices bound to its input and output slots. A `None` binding
/// stands for a device whose entity no longer exists; it is skipped each
/// tick without failing the pass.
pub struct Level {
    root: u64,
    logic_graph: LogicGraph,
    inputs: Vec<Option<InputDevice>>,
    outputs: Vec<Option<OutputDevice>>,
}

impl View for Level {
    type V = LevelV;

    closed spec fn view(&self) -> LevelV {
        LevelV {
            root: self.root,
            graph: self.logic_graph@,
            inputs: self.inputs@,
            outputs: self.outputs@,
        }
    }
}

impl Level {
    /// Binds devices to a validated graph. Fails with `ArityMismatch` when
    /// the bindings do not cover the graph's slots exactly.
    pub fn new(
        root: u64,
        logic_graph: LogicGraph,
        inputs: Vec<Option<InputDevice>>,
        outputs: Vec<Option<OutputDevice>>,
    ) -> (r: Result<Level, ConfigError>)
        requires
            graph_wf(logic_graph@),
        ensures
            match r {
                Ok(l) => {
                    &&& l@.root == root
                    &&& l@.graph == logic_graph@
                    &&& l@.inputs == inputs@
                    &&& l@.outputs == outputs@
                    &&& level_wf(l@)
                },
                Err(e) => {
                    &&& e == ConfigError::ArityMismatch
                    &&& (inputs@.len() != logic_graph@.input_nodes.len() || outputs@.len()
                        != logic_graph@.output_nodes.len())
                },
            },
    {
        if inputs.len() != logic_graph.num_input_nodes() || outputs.len()
            != logic_graph.num_output_nodes() {
            return Err(ConfigError::ArityMismatch);
        }
        Ok(Level { root, logic_graph, inputs, outputs })
    }

    /// The root handle of the level's spawned scene subtree.
    pub fn root(&self) -> (r: u64)
        ensures
            r == self@.root,
    {
        self.root
    }

    /// Feeds a sensor reading to the live input device bound at slot `j`.
    /// Returns whether the device's reported state changed.
    pub fn input_sensor_update(&mut self, j: usize, overlapping: bool) -> (changed: bool)
        requires
            j < old(self)@.inputs.len(),
            old(self)@.inputs[j as int] is Some,
        ensures
            final(self)@.inputs == old(self)@.inputs.update(
                j as int,
                Some(old(self)@.inputs[j as int].unwrap().spec_after_sensor(overlapping)),
            ),
            final(self)@.root == old(self)@.root,
            final(self)@.graph == old(self)@.graph,
            final(self)@.outputs == old(self)@.outputs,
            changed == (final(self)@.inputs[j as int].unwrap().state_bits() != old(
                self,
            )@.inputs[j as int].unwrap().state_bits()),
    {
        let slot = &mut self.inputs[j];
        match slot {
            Some(dev) => dev.sensor_update(overlapping),
            None => false,
        }
    }

    /// Records that the input device bound at slot `j` no longer exists; the
    /// binding is skipped from now on.
    pub fn invalidate_input(&mut self, j: usize)
        requires
            j < old(self)@.inputs.len(),
        ensures
            final(self)@.inputs == old(self)@.inputs.update(j as int, None::<InputDevice>),
            final(self)@.root == old(self)@.root,
            final(self)@.graph == old(self)@.graph,
            final(self)@.outputs == old(self)@.outputs,
    {
        self.inputs[j] = None;
    }

    /// Records that the output device bound at slot `j` no longer exists.
    pub fn invalidate_output(&mut self, j: usize)
        requires
            j < old(self)@.outputs.len(),
        ensures
            final(self)@.outputs == old(self)@.outputs.update(j as int, None::<OutputDevice>),
            final(self)@.root == old(self)@.root,
            final(self)@.graph == old(self)@.graph,
            final(self)@.inputs == old(self)@.inputs,
    {
        self.outputs[j] = None;
    }

    /// The level's circuit, for serialization back to blueprint form.
    pub fn graph(&self) -> (r: &LogicGraph)
        ensures
            r@ == self@.graph,
    {
        &self.logic_graph
    }

    /// How many input bindings the level has.
    pub fn input_count(&self) -> (r: usize)
        ensures
            r == self@.inputs.len(),
    {
        self.inputs.len()
    }

    /// Whether the input binding at slot `j` is still live.
    pub fn input_is_live(&self, j: usize) -> (r: bool)
        requires
            j < self@.inputs.len(),
        ensures
            r == (self@.inputs[j as int] is Some),
    {
        self.inputs[j].is_some()
    }

    /// How many output bindings the level has.
    pub fn output_count(&self) -> (r: usize)
        ensures
            r == self@.outputs.len(),
    {
        self.outputs.len()
    }

    /// The output device bound at slot `j`, as last committed.
    pub fn output_at(&self, j: usize) -> (r: &Option<OutputDevice>)
        requires
            j < self@.outputs.len(),
        ensures
            *r == self@.outputs[j as int],
    {
        &self.outputs[j]
    }

    /// One orchestrator tick. Gathers the bits of the live input bindings in
    /// binding order, evaluates the circuit, and walks the output vector
    /// against the output bindings in binding order, one bit at a time from
    /// the tail: a live device is committed only when its candidate bit
    /// differs from its last-applied state. Returns, per output binding,
    /// whether its device was committed this tick.
    ///
    /// A level with no authored logic is a no-op. When a despawned input
    /// binding leaves the gathered bits short of the circuit's arity, the
    /// tick changes nothing.
    #[verifier::loop_isolation(false)]
    #[verifier::rlimit(60)]
    pub fn update_state(&mut self) -> (applied: Vec<bool>)
        requires
            level_wf(old(self)@),
        ensures
            tick_post(old(self)@, final(self)@, applied@),
    {
        let ghost l0 = self@;
        if self.logic_graph.has_no_logic() {
            return Vec::new();
        }
        let mut bits: Vec<bool> = Vec::new();
        let num_in = self.inputs.len();
        let mut q: usize = 0;
        while q < num_in
            invariant
                q <= num_in,
                self@ == l0,
                bits@ == gathered_bits(l0.inputs.take(q as int)),
            decreases num_in - q,
        {
            match &self.inputs[q] {
                Some(d) => d.append_state(&mut bits),
                None => {},
            }
            proof {
                assert(l0.inputs.take(q as int + 1).drop_last() =~= l0.inputs.take(q as int));
                assert(l0.inputs.take(q as int + 1).last() == l0.inputs[q as int]);
            }
            q += 1;
        }
        proof {
            assert(l0.inputs.take(num_in as int) =~= l0.inputs);
        }
        let ghost bits_v = bits@;
        let out = match self.logic_graph.process(bits) {
            Ok(o) => o,
            Err(_) => {
                proof {
                    assert(self@ =~= l0);
                }
                return Vec::new();
            },
        };
        let ghost g1 = self@.graph;
        let ghost out0 = out@;
        let ghost devs0 = l0.outputs;
        proof {
            assert forall|q: int| 0 <= q implies 0 <= #[trigger] live_count(devs0, q) <= q by {
                lemma_live_count_bounds(devs0, q);
            }
        }
        let mut outbuf = out;
        let mut applied: Vec<bool> = Vec::new();
        let num_out = self.outputs.len();
        let mut j: usize = 0;
        while j < num_out
            invariant
                j <= num_out,
                applied@.len() == j,
                self@.root == l0.root,
                self@.inputs == l0.inputs,
                self@.graph == g1,
                self@.outputs.len() == num_out,
                out0.len() == num_out,
                outbuf@ == out0.take(out0.len() - live_count(devs0, j as int)),
                forall|q: int| j <= q < num_out ==> self@.outputs[q] == devs0[q],
                writeback_prefix_ok(devs0, out0, self@.outputs, applied@, j as int),
            decreases num_out - j,
        {
            proof {
                lemma_live_count_bounds(devs0, j as int);
            }
            let ghost outs_pre = self@.outputs;
            let ghost app_pre = applied@;
            let slot = self.outputs[j];
            match slot {
                Some(mut dev) => {
                    let ghost dev0 = dev;
                    let ghost cand = out0[out0.len() - 1 - live_count(devs0, j as int)];
                    proof {
                        assert(outbuf@.last() == cand);
                        assert(outbuf@.subrange(outbuf@.len() - 1, outbuf@.len() as int) =~= seq![
                            cand,
                        ]);
                    }
                    if dev.needs_state_update(&mut outbuf) {
                        dev.pop_state(&mut outbuf);
                        self.outputs[j] = Some(dev);
                        applied.push(true);
                        proof {
                            assert(dev.last_applied() =~= seq![cand]);
                            assert(dev =~= apply_candidate(dev0, cand));
                            assert(self@.outputs == outs_pre.update(j as int, Some(dev)));
                        }
                    } else {
                        applied.push(false);
                        proof {
                            assert(dev0.last_applied() =~= seq![cand]);
                            assert(dev0.last_applied()[0] == cand);
                            assert(dev0 =~= apply_candidate(dev0, cand));
                        }
                    }
                    proof {
                        assert(outbuf@ =~= out0.take(
                            out0.len() - live_count(devs0, j as int + 1),
                        ));
                    }
                },
                None => {
                    applied.push(false);
                    proof {
                        assert(outbuf@ =~= out0.take(
                            out0.len() - live_count(devs0, j as int + 1),
                        ));
                    }
                },
            }
            proof {
                assert(applied@.len() == j + 1);
                assert forall|q: int| 0 <= q < j + 1 implies #[trigger] writeback_entry_ok(
                    devs0,
                    out0,
                    self@.outputs[q],
                    applied@[q],
                    q,
                ) by {
                    assert(applied@[q] == if q < j {
                        app_pre[q]
                    } else {
                        applied@.last()
                    });
                    if q < j {
                        assert(writeback_entry_ok(devs0, out0, outs_pre[q], app_pre[q], q));
                        assert(self@.outputs[q] == outs_pre[q]);
                    } else {
                        assert(outs_pre[q] == devs0[q]);
                    }
                }
            }
            j += 1;
        }
        applied
    }
}

} // verus!
