use circuit_levels::logic_graph::{ConfigError, LogicGraph, Node, Operator};

fn two_inputs_one_gate(op: Operator) -> LogicGraph {
    let nodes = vec![
        Node::new(Operator::Passthrough, vec![]),
        Node::new(Operator::Passthrough, vec![]),
        Node::new(op, vec![0, 1]),
    ];
    LogicGraph::new(vec![0, 1], vec![2], nodes).unwrap()
}

#[test]
fn or_logic_graph() {
    let nodes = vec![
        Node::new(Operator::Passthrough, vec![]),
        Node::new(Operator::Passthrough, vec![]),
        Node::new(Operator::Or, vec![0, 1]),
    ];

    let mut logic_graph = LogicGraph::new(vec![0, 1], vec![2], nodes).unwrap();
    let out = logic_graph.process(vec![true, true]).unwrap();
    assert!(out[0] == true);

    let out = logic_graph.process(vec![true, false]).unwrap();
    assert!(out[0] == true);

    let out = logic_graph.process(vec![false, true]).unwrap();
    assert!(out[0] == true);

    let out = logic_graph.process(vec![false, false]).unwrap();
    assert!(out[0] == false);
}

#[test]
fn and_logic_graph() {
    let nodes = vec![
        Node::new(Operator::Passthrough, vec![]),
        Node::new(Operator::Passthrough, vec![]),
        Node::new(Operator::And, vec![0, 1]),
    ];

    let mut logic_graph = LogicGraph::new(vec![0, 1], vec![2], nodes).unwrap();
    let out = logic_graph.process(vec![true, true]).unwrap();
    assert!(out[0] == true);

    let out = logic_graph.process(vec![true, false]).unwrap();
    assert!(out[0] == false);

    let out = logic_graph.process(vec![false, true]).unwrap();
    assert!(out[0] == false);

    let out = logic_graph.process(vec![false, false]).unwrap();
    assert!(out[0] == false);
}

#[test]
fn nor_logic_graph() {
    let mut g = two_inputs_one_gate(Operator::Nor);
    assert_eq!(g.process(vec![false, false]).unwrap(), vec![true]);
    assert_eq!(g.process(vec![true, false]).unwrap(), vec![false]);
    assert_eq!(g.process(vec![false, true]).unwrap(), vec![false]);
    assert_eq!(g.process(vec![true, true]).unwrap(), vec![false]);
}

#[test]
fn empty_child_lists_have_vacuous_values() {
    // AND of no children is true, OR false, NOR true.
    let nodes = vec![
        Node::new(Operator::And, vec![]),
        Node::new(Operator::Or, vec![]),
        Node::new(Operator::Nor, vec![]),
    ];
    let mut g = LogicGraph::new(vec![], vec![0, 1, 2], nodes).unwrap();
    assert_eq!(g.process(vec![]).unwrap(), vec![true, false, true]);
}

#[test]
fn evaluation_is_deterministic() {
    let mut g = two_inputs_one_gate(Operator::And);
    let first = g.process(vec![true, false]).unwrap();
    let second = g.process(vec![true, false]).unwrap();
    assert_eq!(first, second);
    // interleaving other inputs does not disturb it either
    let _ = g.process(vec![true, true]).unwrap();
    let third = g.process(vec![true, false]).unwrap();
    assert_eq!(first, third);
}

#[test]
fn arity_mismatch_is_rejected() {
    let mut g = two_inputs_one_gate(Operator::And);
    assert!(matches!(g.process(vec![true]), Err(ConfigError::ArityMismatch)));
    assert!(matches!(
        g.process(vec![true, false, true]),
        Err(ConfigError::ArityMismatch)
    ));
    // and the graph still works afterwards
    assert_eq!(g.process(vec![true, true]).unwrap(), vec![true]);
}

#[test]
fn out_of_range_index_is_rejected() {
    let nodes = vec![Node::new(Operator::Passthrough, vec![])];
    assert!(matches!(
        LogicGraph::new(vec![0], vec![1], nodes),
        Err(ConfigError::IndexOutOfRange)
    ));
    let nodes = vec![Node::new(Operator::And, vec![5])];
    assert!(matches!(
        LogicGraph::new(vec![], vec![0], nodes),
        Err(ConfigError::IndexOutOfRange)
    ));
    let nodes = vec![Node::new(Operator::Passthrough, vec![])];
    assert!(matches!(
        LogicGraph::new(vec![3], vec![0], nodes),
        Err(ConfigError::IndexOutOfRange)
    ));
}

#[test]
fn reachable_cycle_is_rejected() {
    // node 1 depends on itself and feeds the output
    let nodes = vec![
        Node::new(Operator::Passthrough, vec![]),
        Node::new(Operator::And, vec![0, 1]),
    ];
    assert!(matches!(
        LogicGraph::new(vec![0], vec![1], nodes),
        Err(ConfigError::CyclicGraph)
    ));
    // a two-node cycle behind the output
    let nodes = vec![
        Node::new(Operator::Or, vec![1]),
        Node::new(Operator::Or, vec![0]),
        Node::new(Operator::And, vec![0]),
    ];
    assert!(matches!(
        LogicGraph::new(vec![], vec![2], nodes),
        Err(ConfigError::CyclicGraph)
    ));
}

#[test]
fn unreachable_cycle_is_accepted() {
    // nodes 1 and 2 form a cycle, but no output depends on them
    let nodes = vec![
        Node::new(Operator::Passthrough, vec![]),
        Node::new(Operator::Or, vec![2]),
        Node::new(Operator::Or, vec![1]),
    ];
    let mut g = LogicGraph::new(vec![0], vec![0], nodes).unwrap();
    assert_eq!(g.process(vec![true]).unwrap(), vec![true]);
    assert_eq!(g.process(vec![false]).unwrap(), vec![false]);
}

#[test]
fn diamond_is_evaluated_once_per_node() {
    // both outputs share the same AND node through two OR nodes
    let nodes = vec![
        Node::new(Operator::Passthrough, vec![]),
        Node::new(Operator::Passthrough, vec![]),
        Node::new(Operator::And, vec![0, 1]),
        Node::new(Operator::Or, vec![2]),
        Node::new(Operator::Or, vec![2]),
    ];
    let mut g = LogicGraph::new(vec![0, 1], vec![3, 4], nodes).unwrap();
    assert_eq!(g.process(vec![true, true]).unwrap(), vec![true, true]);
    assert_eq!(g.process(vec![true, false]).unwrap(), vec![false, false]);
}

#[test]
fn non_passthrough_input_node_is_recomputed() {
    // the second input slot points at a gate node: the assigned bit is
    // overwritten when the node resolves from its children
    let nodes = vec![
        Node::new(Operator::Passthrough, vec![]),
        Node::new(Operator::And, vec![0, 0]),
    ];
    let mut g = LogicGraph::new(vec![0, 1], vec![1], nodes).unwrap();
    assert_eq!(g.process(vec![true, false]).unwrap(), vec![true]);
    assert_eq!(g.process(vec![false, true]).unwrap(), vec![false]);
}

#[test]
fn blueprint_round_trip_evaluates_alike() {
    let mut g = two_inputs_one_gate(Operator::Or);
    // use the graph first, so its transient states are not all fresh
    let _ = g.process(vec![true, true]).unwrap();
    let bp = g.to_blueprint();
    let mut g2 = LogicGraph::new(
        bp.input_node_indices,
        bp.output_node_indices,
        bp.nodes,
    )
    .unwrap();
    for a in [false, true] {
        for b in [false, true] {
            assert_eq!(
                g.process(vec![a, b]).unwrap(),
                g2.process(vec![a, b]).unwrap()
            );
        }
    }
}
