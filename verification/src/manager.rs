//! The level lifecycle manager: owns at most one active level and swaps it
//! atomically. A swap validates the incoming blueprint first; on any
//! configuration error the previously active level stays in place. On
//! success the new level is installed in one step and the old one is handed
//! back whole, for its entity subtree to be despawned.

use crate::blueprint::{ButtonBlueprint, InputBlueprint, LevelBlueprint, OutputBluePrint};
use crate::input::{ButtonType, Input, InputDevice, PressButton, ToggleButton};
use crate::level::{level_wf, tick_post, Level, LevelV};
use crate::logic_graph::{acyclic, indices_ok, view_nodes, ConfigError, LogicGraph};
use crate::output::{Door, OutputDevice};
use vstd::prelude::*;

verus! {

/// The device a blueprint entry constructs: fresh state, matching kind, and
/// the blueprint's material keys.
pub open spec fn input_binding_matches(dev: Option<InputDevice>, b: InputBlueprint) -> bool {
    match b {
        InputBlueprint::Button(bb) => match bb.button_type {
            ButtonType::ToggleButton => {
                &&& dev matches Some(InputDevice::Toggle(t))
                &&& t.state_bits() == seq![false]
                &&& !t.spec_prev_state()
                &&& t.spec_on_key() == bb.on_key@
                &&& t.spec_off_key() == bb.off_key@
            },
            ButtonType::PressButton => {
                &&& dev matches Some(InputDevice::Press(p))
                &&& p.state_bits() == seq![false]
                &&& p.spec_on_key() == bb.on_key@
                &&& p.spec_off_key() == bb.off_key@
            },
        },
    }
}

/// The level a blueprint constructs: its validated graph with every node in
/// the `false` state, and one fresh live device per authored binding, in
/// authoring order.
pub open spec fn level_matches_blueprint(l: LevelV, bp: LevelBlueprint, root: u64) -> bool {
    &&& l.root == root
    &&& l.graph.nodes == view_nodes(bp.logic_graph.nodes@)
    &&& l.graph.input_nodes == bp.logic_graph.input_node_indices@
    &&& l.graph.output_nodes == bp.logic_graph.output_node_indices@
    &&& l.graph.states == Seq::new(l.graph.nodes.len(), |i: int| false)
    &&& level_wf(l)
    &&& l.inputs.len() == bp.inputs@.len()
    &&& forall|q: int|
        0 <= q < l.inputs.len() ==> input_binding_matches(#[trigger] l.inputs[q], bp.inputs@[q])
    &&& l.outputs.len() == bp.outputs@.len()
    &&& forall|q: int|
        0 <= q < l.outputs.len() ==> #[trigger] l.outputs[q] == Some(
            OutputDevice::Door(Door { state: true }),
        )
}

/// Owns the active level, if any. Only `change_level` replaces it, and only
/// with a fully constructed one.
pub struct LevelManager {
    cur_level: Option<Level>,
}

impl View for LevelManager {
    type V = Option<LevelV>;

    closed spec fn view(&self) -> Option<LevelV> {
        match &self.cur_level {
            Some(l) => Some(l@),
            None => None,
        }
    }
}

impl LevelManager {
    /// A manager with no level loaded.
    pub fn new() -> (r: LevelManager)
        ensures
            r@ is None,
    {
        LevelManager { cur_level: None }
    }

    /// The active level, if any.
    pub fn current_level(&self) -> (r: &Option<Level>)
        ensures
            match r {
                Some(l) => self@ == Some(l@),
                None => self@ is None,
            },
    {
        &self.cur_level
    }

    /// Feeds a sensor reading to input binding `j` of the active level.
    /// Returns whether the device's reported state changed, or `None` when
    /// there is no level, no such slot, or the binding is dead.
    pub fn sensor_input(&mut self, j: usize, overlapping: bool) -> (r: Option<bool>)
        ensures
            match old(self)@ {
                None => r is None && final(self)@ is None,
                Some(l0) => {
                    if j < l0.inputs.len() && l0.inputs[j as int] is Some {
                        &&& final(self)@ matches Some(l1)
                        &&& l1.root == l0.root
                        &&& l1.graph == l0.graph
                        &&& l1.outputs == l0.outputs
                        &&& l1.inputs == l0.inputs.update(
                            j as int,
                            Some(l0.inputs[j as int].unwrap().spec_after_sensor(overlapping)),
                        )
                        &&& r matches Some(changed) && changed == (l1.inputs[j as int].unwrap().state_bits()
                            != l0.inputs[j as int].unwrap().state_bits())
                    } else {
                        r is None && final(self)@ == old(self)@
                    }
                },
            },
    {
        match &mut self.cur_level {
            Some(level) => {
                if j < level.input_count() && level.input_is_live(j) {
                    Some(level.input_sensor_update(j, overlapping))
                } else {
                    None
                }
            },
            None => None,
        }
    }

    /// One orchestrator tick on the active level; without one, a no-op. No
    /// tick ever observes a partially swapped level: the level ticked here
    /// is always one that `change_level` installed whole.
    pub fn tick(&mut self) -> (applied: Vec<bool>)
        requires
            old(self)@ matches Some(l) ==> level_wf(l),
        ensures
            old(self)@ is None ==> final(self)@ is None && applied@.len() == 0,
            old(self)@ matches Some(l0) ==> final(self)@ matches Some(l1) && tick_post(
                l0,
                l1,
                applied@,
            ),
    {
        match &mut self.cur_level {
            Some(level) => level.update_state(),
            None => Vec::new(),
        }
    }

    /// Atomic level swap: validates and constructs the new level from the
    /// blueprint, installs it in one step, and returns the previously active
    /// level whole so its entity subtree can be despawned. On any
    /// configuration error nothing changes: the previous level (or none)
    /// stays active.
    pub fn change_level(&mut self, blueprint: LevelBlueprint, new_root: u64) -> (r: Result<
        Option<Level>,
        ConfigError,
    >)
        ensures
            ({
                let ns = view_nodes(blueprint.logic_graph.nodes@);
                let ins = blueprint.logic_graph.input_node_indices@;
                let outs = blueprint.logic_graph.output_node_indices@;
                match r {
                    Ok(prev) => {
                        &&& final(self)@ is Some
                        &&& level_matches_blueprint(final(self)@.unwrap(), blueprint, new_root)
                        &&& match prev {
                            Some(l) => old(self)@ == Some(l@),
                            None => old(self)@ is None,
                        }
                    },
                    Err(e) => {
                        &&& final(self)@ == old(self)@
                        &&& (e == ConfigError::IndexOutOfRange <==> !indices_ok(ins, outs, ns))
                        &&& (e == ConfigError::CyclicGraph <==> indices_ok(ins, outs, ns)
                            && !acyclic(ns, outs))
                        &&& (e == ConfigError::ArityMismatch <==> indices_ok(ins, outs, ns)
                            && acyclic(ns, outs) && (blueprint.inputs@.len() != ins.len()
                            || blueprint.outputs@.len() != outs.len()))
                    },
                }
            }),
    {
        let LevelBlueprint { logic_graph, inputs, outputs } = blueprint;
        let graph = match LogicGraph::new(
            logic_graph.input_node_indices,
            logic_graph.output_node_indices,
            logic_graph.nodes,
        ) {
            Ok(g) => g,
            Err(e) => {
                return Err(e);
            },
        };
        let mut in_devs: Vec<Option<InputDevice>> = Vec::new();
        let num_in = inputs.len();
        let mut q: usize = 0;
        while q < num_in
            invariant
                q <= num_in,
                num_in == inputs@.len(),
                in_devs@.len() == q,
                forall|k: int|
                    0 <= k < q ==> input_binding_matches(#[trigger] in_devs@[k], inputs@[k]),
            decreases num_in - q,
        {
            match &inputs[q] {
                InputBlueprint::Button(b) => {
                    let dev = match b.button_type {
                        ButtonType::ToggleButton => InputDevice::Toggle(
                            ToggleButton::new(b.on_key.as_str(), b.off_key.as_str()),
                        ),
                        ButtonType::PressButton => InputDevice::Press(
                            PressButton::new(b.on_key.as_str(), b.off_key.as_str()),
                        ),
                    };
                    in_devs.push(Some(dev));
                },
            }
            q += 1;
        }
        let mut out_devs: Vec<Option<OutputDevice>> = Vec::new();
        let num_out = outputs.len();
        let mut q: usize = 0;
        while q < num_out
            invariant
                q <= num_out,
                num_out == outputs@.len(),
                out_devs@.len() == q,
                forall|k: int|
                    0 <= k < q ==> #[trigger] out_devs@[k] == Some(
                        OutputDevice::Door(Door { state: true }),
                    ),
            decreases num_out - q,
        {
            match &outputs[q] {
                OutputBluePrint::Door => {
                    out_devs.push(Some(OutputDevice::Door(Door::default())));
                },
            }
            q += 1;
        }
        let level = match Level::new(new_root, graph, in_devs, out_devs) {
            Ok(l) => l,
            Err(e) => {
                return Err(e);
            },
        };
        let mut slot = Some(level);
        core::mem::swap(&mut self.cur_level, &mut slot);
        Ok(slot)
    }
}

} // verus!
