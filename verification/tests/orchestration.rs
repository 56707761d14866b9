use circuit_levels::blueprint::{
    ButtonBlueprint, InputBlueprint, LevelBlueprint, LogicGraphBlueprint, OutputBluePrint,
};
use circuit_levels::gate::{AndGate, GateTypes, OrGate};
use circuit_levels::input::{ButtonType, Input, InputDevice, PressButton, ToggleButton};
use circuit_levels::level::Level;
use circuit_levels::level_pack::{ChangeLevelEvent, LevelPack};
use circuit_levels::logic_graph::{ConfigError, LogicGraph, Node, Operator};
use circuit_levels::manager::LevelManager;
use circuit_levels::output::{Door, Output, OutputDevice};

fn and_graph() -> LogicGraph {
    let nodes = vec![
        Node::new(Operator::Passthrough, vec![]),
        Node::new(Operator::Passthrough, vec![]),
        Node::new(Operator::And, vec![0, 1]),
    ];
    LogicGraph::new(vec![0, 1], vec![2], nodes).unwrap()
}

fn and_blueprint() -> LevelBlueprint {
    LevelBlueprint {
        logic_graph: LogicGraphBlueprint {
            input_node_indices: vec![0, 1],
            output_node_indices: vec![2],
            nodes: vec![
                Node::new(Operator::Passthrough, vec![]),
                Node::new(Operator::Passthrough, vec![]),
                Node::new(Operator::And, vec![0, 1]),
            ],
        },
        inputs: vec![
            InputBlueprint::Button(ButtonBlueprint {
                button_type: ButtonType::PressButton,
                on_key: "green_on".to_string(),
                off_key: "green_off".to_string(),
            }),
            InputBlueprint::Button(ButtonBlueprint {
                button_type: ButtonType::ToggleButton,
                on_key: "yellow_on".to_string(),
                off_key: "yellow_off".to_string(),
            }),
        ],
        outputs: vec![OutputBluePrint::Door],
    }
}

fn door_state(level: &Level, j: usize) -> bool {
    match level.output_at(j) {
        Some(OutputDevice::Door(d)) => d.state,
        None => panic!("binding {} is dead", j),
    }
}

#[test]
fn change_aware_write_back() {
    // an OutputConsumer whose last-applied state is [false]
    let door = Door { state: false };
    let mut pending = vec![false];
    assert!(!door.needs_state_update(&mut pending));
    // the candidate was consumed without apply being invoked
    assert_eq!(pending.len(), 0);

    let mut door = Door { state: false };
    let mut pending = vec![true];
    assert!(door.needs_state_update(&mut pending));
    assert_eq!(pending.len(), 1);
    door.pop_state(&mut pending);
    assert_eq!(pending.len(), 0);
    assert!(door.state);
    let mut pending = vec![true];
    assert!(!door.needs_state_update(&mut pending));
}

#[test]
fn toggle_button_flips_on_rising_edge() {
    let mut b = ToggleButton::new("on", "off");
    let mut bits = vec![];
    b.append_state(&mut bits);
    assert_eq!(bits, vec![false]);

    assert!(b.sensor_update(true)); // rising edge: flips to true
    assert!(!b.sensor_update(true)); // still pressed: no change
    assert!(!b.sensor_update(false)); // release: state keeps its value
    assert!(b.sensor_update(true)); // next rising edge: flips back
    let mut bits = vec![];
    b.append_state(&mut bits);
    assert_eq!(bits, vec![false]);
}

#[test]
fn press_button_follows_the_sensor() {
    let mut b = PressButton::new("on", "off");
    assert!(b.sensor_update(true));
    let mut bits = vec![];
    b.append_state(&mut bits);
    assert_eq!(bits, vec![true]);
    assert!(!b.sensor_update(true));
    assert!(b.sensor_update(false));
    let mut bits = vec![];
    b.append_state(&mut bits);
    assert_eq!(bits, vec![false]);
}

#[test]
fn tick_drives_the_door_only_on_transitions() {
    let graph = and_graph();
    let inputs = vec![
        Some(InputDevice::Press(PressButton::new("on", "off"))),
        Some(InputDevice::Press(PressButton::new("on", "off"))),
    ];
    let outputs = vec![Some(OutputDevice::Door(Door { state: true }))];
    let mut level = Level::new(7, graph, inputs, outputs).unwrap();

    // both buttons released: AND is false, door starts true, so one commit
    let applied = level.update_state();
    assert_eq!(applied, vec![true]);
    assert!(!door_state(&level, 0));

    // steady state: no commit
    let applied = level.update_state();
    assert_eq!(applied, vec![false]);
    assert!(!door_state(&level, 0));

    // press both buttons: AND turns true, one commit
    assert!(level.input_sensor_update(0, true));
    assert!(level.input_sensor_update(1, true));
    let applied = level.update_state();
    assert_eq!(applied, vec![true]);
    assert!(door_state(&level, 0));
}

#[test]
fn dead_input_binding_skips_the_tick() {
    let graph = and_graph();
    let inputs = vec![
        Some(InputDevice::Press(PressButton::new("on", "off"))),
        Some(InputDevice::Press(PressButton::new("on", "off"))),
    ];
    let outputs = vec![Some(OutputDevice::Door(Door { state: true }))];
    let mut level = Level::new(7, graph, inputs, outputs).unwrap();
    level.invalidate_input(0);
    // the gathered bits are short of the circuit's arity: nothing changes
    let applied = level.update_state();
    assert_eq!(applied.len(), 0);
    assert!(door_state(&level, 0));
}

#[test]
fn dead_output_binding_is_skipped() {
    let graph = and_graph();
    let inputs = vec![
        Some(InputDevice::Press(PressButton::new("on", "off"))),
        Some(InputDevice::Press(PressButton::new("on", "off"))),
    ];
    let outputs = vec![Some(OutputDevice::Door(Door { state: true }))];
    let mut level = Level::new(7, graph, inputs, outputs).unwrap();
    level.invalidate_output(0);
    let applied = level.update_state();
    assert_eq!(applied, vec![false]);
    assert!(level.output_at(0).is_none());
}

#[test]
fn binding_arity_is_checked_at_load() {
    let graph = and_graph();
    let inputs = vec![Some(InputDevice::Press(PressButton::new("on", "off")))];
    let outputs = vec![Some(OutputDevice::Door(Door { state: true }))];
    assert!(matches!(
        Level::new(7, graph, inputs, outputs),
        Err(ConfigError::ArityMismatch)
    ));
}

#[test]
fn atomic_level_swap() {
    let mut manager = LevelManager::new();
    assert!(manager.current_level().is_none());

    let prev = manager.change_level(and_blueprint(), 1).unwrap();
    assert!(prev.is_none());
    assert_eq!(manager.current_level().as_ref().unwrap().root(), 1);

    // swapping to a second level returns the first one whole for teardown
    let prev = manager.change_level(and_blueprint(), 2).unwrap();
    assert_eq!(prev.unwrap().root(), 1);
    let cur = manager.current_level().as_ref().unwrap();
    assert_eq!(cur.root(), 2);
    // the new level is exactly the blueprint's spawned set
    assert!(matches!(
        cur.output_at(0),
        Some(OutputDevice::Door(Door { state: true }))
    ));
}

#[test]
fn failed_swap_keeps_the_active_level() {
    let mut manager = LevelManager::new();
    let _ = manager.change_level(and_blueprint(), 1).unwrap();

    let mut bad = and_blueprint();
    bad.logic_graph.output_node_indices = vec![9];
    assert!(matches!(
        manager.change_level(bad, 2),
        Err(ConfigError::IndexOutOfRange)
    ));
    // the previously active level is still in place
    assert_eq!(manager.current_level().as_ref().unwrap().root(), 1);

    let mut cyclic = and_blueprint();
    cyclic.logic_graph.nodes[2] = Node::new(Operator::And, vec![0, 2]);
    assert!(matches!(
        manager.change_level(cyclic, 3),
        Err(ConfigError::CyclicGraph)
    ));
    assert_eq!(manager.current_level().as_ref().unwrap().root(), 1);

    let mut short = and_blueprint();
    short.inputs.pop();
    assert!(matches!(
        manager.change_level(short, 4),
        Err(ConfigError::ArityMismatch)
    ));
    assert_eq!(manager.current_level().as_ref().unwrap().root(), 1);
}

#[test]
fn manager_tick_drives_the_current_level() {
    let mut manager = LevelManager::new();
    assert_eq!(manager.tick().len(), 0);
    let _ = manager.change_level(and_blueprint(), 1).unwrap();
    // fresh devices report false, the fresh door is open: one commit closes it
    let applied = manager.tick();
    assert_eq!(applied, vec![true]);
    assert!(matches!(
        manager.current_level().as_ref().unwrap().output_at(0),
        Some(OutputDevice::Door(Door { state: false }))
    ));
}

#[test]
fn level_pack_wraps_at_both_ends() {
    let mut pack = LevelPack::new(
        "packs/intro".to_string(),
        vec!["a".to_string(), "b".to_string(), "c".to_string()],
    );
    assert_eq!(pack.change_level(1).as_str(), "b");
    assert_eq!(pack.change_level(1).as_str(), "c");
    assert_eq!(pack.change_level(1).as_str(), "a"); // wraps forward
    assert_eq!(pack.change_level(-1).as_str(), "c"); // wraps backward
    assert_eq!(pack.change_level(0).as_str(), "c"); // reload stays put
}

#[test]
fn change_level_event_carries_its_delta() {
    assert_eq!(ChangeLevelEvent::new(1).delta(), 1);
    assert_eq!(ChangeLevelEvent::new(-1).delta(), -1);
    assert_eq!(ChangeLevelEvent::new(0).delta(), 0);
}

#[test]
fn gates_pop_two_bits_and_push_one() {
    let mut and_gate = GateTypes::AndGate(AndGate::default());
    assert_eq!(and_gate.get_i(), 2);
    assert_eq!(and_gate.get_o(), 1);
    let mut stack = vec![true, true];
    let mut out = vec![];
    and_gate.process(&mut stack, &mut out);
    assert_eq!(stack.len(), 0);
    assert_eq!(out, vec![true]);

    let mut or_gate = GateTypes::OrGate(OrGate::default());
    let mut stack = vec![false, true, false];
    let mut out = vec![];
    or_gate.process(&mut stack, &mut out);
    assert_eq!(stack, vec![false]);
    assert_eq!(out, vec![true]);
}
