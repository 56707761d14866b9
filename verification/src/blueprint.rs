//! Blueprints: the authored, not yet validated description of a level's
//! circuit and devices. Node order in the blueprint is the authoritative
//! node-index space. Geometry and materials are the host's concern and are
//! not part of the logic core.

use crate::input::ButtonType;
use crate::logic_graph::Node;
use vstd::prelude::*;

verus! {

/// The logic-graph section of a level blueprint: raw index lists and nodes.
pub struct LogicGraphBlueprint {
    pub input_node_indices: Vec<usize>,
    pub output_node_indices: Vec<usize>,
    pub nodes: Vec<Node>,
}

/// An authored button: its kind and the material keys for its two looks.
pub struct ButtonBlueprint {
    pub button_type: ButtonType,
    pub on_key: String,
    pub off_key: String,
}

/// An authored input device.
pub enum InputBlueprint {
    Button(ButtonBlueprint),
}

/// An authored output device.
pub enum OutputBluePrint {
    Door,
}

/// The logic-relevant part of a level blueprint: the circuit and the devices
/// bound to its input and output slots, in authoring order.
pub struct LevelBlueprint {
    pub logic_graph: LogicGraphBlueprint,
    pub inputs: Vec<InputBlueprint>,
    pub outputs: Vec<OutputBluePrint>,
}

} // verus!
