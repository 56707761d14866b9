//! The circuit evaluation engine: a directed graph of boolean logic nodes,
//! validated at construction (index bounds, no cycle reachable backward from
//! an output node) and evaluated by a memoized depth-first resolution of the
//! requested output nodes.

use crate::blueprint::LogicGraphBlueprint;
use vstd::prelude::*;

verus! {

/// The combinational function of one node. `Passthrough` nodes never compute
/// a value from children; they hold whatever value was last externally
/// assigned and mark the externally driven leaves of the graph.
#[derive(Clone, Copy, Debug, PartialEq, Eq, Structural)]
pub enum Operator {
    Passthrough,
    And,
    Or,
    Nor,
}

/// Configuration errors, all detected at load time. The per-tick path is
/// never exposed to these because validation happens before a level becomes
/// active.
#[derive(Clone, Copy, Debug, PartialEq, Eq, Structural)]
pub enum ConfigError {
    IndexOutOfRange,
    CyclicGraph,
    ArityMismatch,
}

/// One logic element: its operator and the indices of the nodes it reads.
pub struct Node {
    op: Operator,
    in_nodes: Vec<usize>,
}

/// Mathematical model of a `Node`.
pub struct NodeV {
    pub op: Operator,
    pub in_nodes: Seq<usize>,
}

impl View for Node {
    type V = NodeV;

    closed spec fn view(&self) -> NodeV {
        NodeV { op: self.op, in_nodes: self.in_nodes@ }
    }
}

impl Node {
    pub fn new(op: Operator, in_nodes: Vec<usize>) -> (r: Node)
        ensures
            r@.op == op,
            r@.in_nodes == in_nodes@,
    {
        Node { op, in_nodes }
    }

    /// The node's operator.
    pub fn op(&self) -> (r: Operator)
        ensures
            r == self@.op,
    {
        self.op
    }

    /// The indices of the nodes this node reads.
    pub fn in_nodes(&self) -> (r: &Vec<usize>)
        ensures
            r@ == self@.in_nodes,
    {
        &self.in_nodes
    }
}

/// Mathematical model of a `LogicGraph`: the authored structure (`nodes`,
/// `input_nodes`, `output_nodes`) and the current value of each node.
pub struct GraphV {
    pub nodes: Seq<NodeV>,
    pub states: Seq<bool>,
    pub input_nodes: Seq<usize>,
    pub output_nodes: Seq<usize>,
}

pub open spec fn view_nodes(ns: Seq<Node>) -> Seq<NodeV> {
    ns.map_values(|n: Node| n@)
}

/// Every index in `idxs` addresses one of the `n` nodes.
pub open spec fn in_range(idxs: Seq<usize>, n: int) -> bool {
    forall|i: int| 0 <= i < idxs.len() ==> (#[trigger] idxs[i]) < n
}

/// Every child index of every node addresses one of the nodes.
pub open spec fn wf_in_nodes(nodes: Seq<NodeV>) -> bool {
    forall|k: int, j: int|
        0 <= k < nodes.len() && 0 <= j < nodes[k].in_nodes.len()
            ==> (#[trigger] nodes[k].in_nodes[j]) < nodes.len()
}

/// `p` walks the graph from a node down through child (`in_nodes`) edges.
pub open spec fn is_path(nodes: Seq<NodeV>, p: Seq<int>) -> bool {
    &&& p.len() >= 1
    &&& forall|i: int| 0 <= i < p.len() ==> 0 <= #[trigger] p[i] < nodes.len()
    &&& forall|i: int| 0 <= i < p.len() - 1 ==> is_child(nodes, #[trigger] p[i], p[i + 1])
}

/// `child` is listed among `parent`'s input nodes.
pub open spec fn is_child(nodes: Seq<NodeV>, parent: int, child: int) -> bool {
    exists|j: int|
        0 <= j < nodes[parent].in_nodes.len() && (#[trigger] nodes[parent].in_nodes[j]) as int
            == child
}

pub open spec fn contains_idx(idxs: Seq<usize>, v: int) -> bool {
    exists|i: int| 0 <= i < idxs.len() && (#[trigger] idxs[i]) as int == v
}

/// Node `k` is reachable backward from some output node: the evaluation of
/// that output depends (transitively) on `k`.
pub open spec fn reachable(nodes: Seq<NodeV>, outputs: Seq<usize>, k: int) -> bool {
    exists|p: Seq<int>|
        #[trigger] is_path(nodes, p) && contains_idx(outputs, p[0]) && p.last() == k
}

/// `r` witnesses that the subgraph reachable backward from the outputs is
/// acyclic: along every child edge out of a reachable node the rank strictly
/// drops, and ranks of reachable nodes are below the node count.
pub open spec fn valid_rank(nodes: Seq<NodeV>, outputs: Seq<usize>, r: Seq<nat>) -> bool {
    &&& r.len() == nodes.len()
    &&& forall|k: int|
        0 <= k < nodes.len() && reachable(nodes, outputs, k) ==> #[trigger] r[k] < nodes.len()
    &&& forall|k: int, j: int|
        0 <= k < nodes.len() && reachable(nodes, outputs, k) && 0 <= j < nodes[k].in_nodes.len()
            ==> r[(#[trigger] nodes[k].in_nodes[j]) as int] < r[k]
}

/// The subgraph reachable backward from the outputs contains no cycle.
pub open spec fn acyclic(nodes: Seq<NodeV>, outputs: Seq<usize>) -> bool {
    exists|r: Seq<nat>| valid_rank(nodes, outputs, r)
}

/// A well-formed graph: index bounds hold everywhere and no cycle is
/// reachable backward from an output. Established by `LogicGraph::new` and
/// preserved by every method.
pub open spec fn graph_wf(g: GraphV) -> bool {
    &&& g.states.len() == g.nodes.len()
    &&& in_range(g.input_nodes, g.nodes.len() as int)
    &&& in_range(g.output_nodes, g.nodes.len() as int)
    &&& wf_in_nodes(g.nodes)
    &&& acyclic(g.nodes, g.output_nodes)
}

/// The value of node `k` once resolved, given the node states `s0` right
/// after the input bits were assigned: a `Passthrough` node keeps its
/// assigned state; every other operator combines its children's resolved
/// values (`And` of no children is `true`; `Or` of none is `false`; `Nor` is
/// the negated disjunction, so `true` of no children).
pub open spec fn eval_node(nodes: Seq<NodeV>, s0: Seq<bool>, k: int, fuel: nat) -> bool
    decreases fuel,
{
    if !(0 <= k < nodes.len()) {
        false
    } else {
        let n = nodes[k];
        if n.op == Operator::Passthrough {
            s0[k]
        } else if fuel == 0 {
            false
        } else {
            let f = (fuel - 1) as nat;
            if n.op == Operator::And {
                forall|j: int|
                    0 <= j < n.in_nodes.len() ==> eval_node(
                        nodes,
                        s0,
                        (#[trigger] n.in_nodes[j]) as int,
                        f,
                    )
            } else if n.op == Operator::Or {
                exists|j: int|
                    0 <= j < n.in_nodes.len() && eval_node(
                        nodes,
                        s0,
                        (#[trigger] n.in_nodes[j]) as int,
                        f,
                    )
            } else {
                !(exists|j: int|
                    0 <= j < n.in_nodes.len() && eval_node(
                        nodes,
                        s0,
                        (#[trigger] n.in_nodes[j]) as int,
                        f,
                    ))
            }
        }
    }
}

/// The value of node `k` for an acyclic graph: `nodes.len()` is enough fuel
/// to resolve any reachable node.
pub open spec fn node_value(nodes: Seq<NodeV>, s0: Seq<bool>, k: int) -> bool {
    eval_node(nodes, s0, k, nodes.len() as nat)
}

/// Node states after the input bits are written over `states` at the input
/// node positions, in order (a later write to the same node wins).
pub open spec fn assign_states(states: Seq<bool>, idxs: Seq<usize>, bits: Seq<bool>) -> Seq<bool>
    decreases idxs.len(),
{
    if idxs.len() == 0 {
        states
    } else {
        assign_states(states, idxs.drop_last(), bits.drop_last()).update(
            idxs.last() as int,
            bits.last(),
        )
    }
}

/// What one `process` call returns: the resolved value of each output node,
/// in order, over the states as assigned from `bits`.
pub open spec fn spec_outputs(g: GraphV, bits: Seq<bool>) -> Seq<bool> {
    let s0 = assign_states(g.states, g.input_nodes, bits);
    Seq::new(g.output_nodes.len(), |q: int| node_value(g.nodes, s0, g.output_nodes[q] as int))
}

/// All three index lists address existing nodes.
pub open spec fn indices_ok(inputs: Seq<usize>, outputs: Seq<usize>, ns: Seq<NodeV>) -> bool {
    &&& in_range(inputs, ns.len() as int)
    &&& in_range(outputs, ns.len() as int)
    &&& wf_in_nodes(ns)
}

/// Every child of node `k` carries a `true` flag.
pub open spec fn spec_children_done(ns: Seq<NodeV>, flags: Seq<bool>, k: int) -> bool {
    forall|j: int|
        0 <= j < ns[k].in_nodes.len() ==> flags[(#[trigger] ns[k].in_nodes[j]) as int]
}

/// An output node is reachable (by the one-node path standing at it).
proof fn lemma_output_reachable(nodes: Seq<NodeV>, outputs: Seq<usize>, oi: int)
    requires
        0 <= oi < outputs.len(),
        (outputs[oi] as int) < nodes.len(),
    ensures
        reachable(nodes, outputs, outputs[oi] as int),
{
    let p = seq![outputs[oi] as int];
    assert(p.last() == outputs[oi] as int);
    assert(is_path(nodes, p));
    assert(contains_idx(outputs, p[0]));
}

/// Every child of a reachable node is reachable (extend the path by one).
proof fn lemma_reachable_child(nodes: Seq<NodeV>, outputs: Seq<usize>, k: int, j: int)
    requires
        reachable(nodes, outputs, k),
        0 <= k < nodes.len(),
        0 <= j < nodes[k].in_nodes.len(),
        wf_in_nodes(nodes),
    ensures
        reachable(nodes, outputs, nodes[k].in_nodes[j] as int),
{
    let c = nodes[k].in_nodes[j] as int;
    let p = choose|p: Seq<int>|
        #[trigger] is_path(nodes, p) && contains_idx(outputs, p[0]) && p.last() == k;
    let p2 = p.push(c);
    assert(p2[p.len() - 1] == k);
    assert(is_child(nodes, k, c));
    assert forall|i: int| 0 <= i < p2.len() - 1 implies is_child(nodes, #[trigger] p2[i], p2[i + 1]) by {
        if i < p.len() - 1 {
            assert(p2[i] == p[i] && p2[i + 1] == p[i + 1]);
        }
    }
    assert(is_path(nodes, p2));
    assert(p2[0] == p[0]);
    assert(p2.last() == c);
}

/// A set of marked nodes that contains the outputs and is closed under child
/// edges contains every reachable node.
proof fn lemma_reachable_marked(
    nodes: Seq<NodeV>,
    outputs: Seq<usize>,
    marked: Seq<bool>,
    p: Seq<int>,
)
    requires
        marked.len() == nodes.len(),
        is_path(nodes, p),
        contains_idx(outputs, p[0]),
        forall|oi: int|
            0 <= oi < outputs.len() ==> (outputs[oi] as int) < nodes.len() && marked[(
            #[trigger] outputs[oi]) as int],
        forall|k: int, j: int|
            0 <= k < nodes.len() && marked[k] && 0 <= j < nodes[k].in_nodes.len() ==> marked[(
            #[trigger] nodes[k].in_nodes[j]) as int],
    ensures
        marked[p.last()],
    decreases p.len(),
{
    if p.len() == 1 {
        let oi = choose|oi: int| 0 <= oi < outputs.len() && (#[trigger] outputs[oi]) as int == p[0];
        assert(marked[p[0]]);
    } else {
        let p1 = p.drop_last();
        assert(is_path(nodes, p1));
        assert(p1[0] == p[0]);
        lemma_reachable_marked(nodes, outputs, marked, p1);
        let parent = p[p.len() - 2];
        assert(p1.last() == parent);
        assert(is_child(nodes, parent, p.last()));
        let j = choose|j: int|
            0 <= j < nodes[parent].in_nodes.len() && (#[trigger] nodes[parent].in_nodes[j]) as int
                == p.last();
        assert(marked[nodes[parent].in_nodes[j] as int]);
    }
}

/// How many entries of `s` are `true`.
spec fn count_true(s: Seq<bool>) -> int
    decreases s.len(),
{
    if s.len() == 0 {
        0
    } else {
        count_true(s.drop_last()) + if s.last() {
            1int
        } else {
            0int
        }
    }
}

/// `count_true` is monotone under pointwise implication, strictly so where
/// some entry flips from `false` to `true`.
proof fn lemma_count_true_mono(s1: Seq<bool>, s2: Seq<bool>)
    requires
        s1.len() == s2.len(),
        forall|i: int| 0 <= i < s1.len() && s1[i] ==> s2[i],
    ensures
        count_true(s1) <= count_true(s2),
        (exists|i: int| 0 <= i < s1.len() && !s1[i] && s2[i]) ==> count_true(s1) < count_true(s2),
    decreases s1.len(),
{
    if s1.len() > 0 {
        let t1 = s1.drop_last();
        let t2 = s2.drop_last();
        lemma_count_true_mono(t1, t2);
        if exists|i: int| 0 <= i < s1.len() && !s1[i] && s2[i] {
            let i = choose|i: int| 0 <= i < s1.len() && !s1[i] && s2[i];
            if i < s1.len() - 1 {
                assert(!t1[i] && t2[i]);
            }
        }
    }
}

/// `count_true` is bounded by the length, strictly when some entry is false.
proof fn lemma_count_true_bound(s: Seq<bool>)
    ensures
        0 <= count_true(s) <= s.len(),
        (exists|i: int| 0 <= i < s.len() && !s[i]) ==> count_true(s) < s.len(),
    decreases s.len(),
{
    if s.len() > 0 {
        lemma_count_true_bound(s.drop_last());
        if exists|i: int| 0 <= i < s.len() && !s[i] {
            let i = choose|i: int| 0 <= i < s.len() && !s[i];
            if i < s.len() - 1 {
                assert(!s.drop_last()[i]);
            }
        }
    }
}

/// A vector of `false` entries has count zero.
proof fn lemma_count_true_zero(s: Seq<bool>)
    requires
        forall|i: int| 0 <= i < s.len() ==> !s[i],
    ensures
        count_true(s) == 0,
    decreases s.len(),
{
    if s.len() > 0 {
        lemma_count_true_zero(s.drop_last());
    }
}

/// Setting one `false` entry to `true` raises the count by exactly one.
proof fn lemma_count_true_update(s: Seq<bool>, i: int)
    requires
        0 <= i < s.len(),
        !s[i],
    ensures
        count_true(s.update(i, true)) == count_true(s) + 1,
    decreases s.len(),
{
    let s2 = s.update(i, true);
    if i == s.len() - 1 {
        assert(s2.drop_last() =~= s.drop_last());
    } else {
        assert(s2.drop_last() =~= s.drop_last().update(i, true));
        lemma_count_true_update(s.drop_last(), i);
    }
}

/// A nonempty set of indices below `bound` has an element of minimal rank.
proof fn lemma_seq_min(r: Seq<nat>, s: Set<int>, bound: int)
    requires
        forall|x: int| s.contains(x) ==> 0 <= x < bound,
        bound <= r.len(),
        exists|x: int| s.contains(x),
    ensures
        exists|m: int|
            #[trigger] s.contains(m) && forall|x: int| s.contains(x) ==> r[m] <= r[x],
    decreases bound,
{
    let last = bound - 1;
    if s.contains(last) {
        let s2 = s.remove(last);
        if exists|x: int| s2.contains(x) {
            lemma_seq_min(r, s2, last);
            let m2 = choose|m: int|
                #[trigger] s2.contains(m) && forall|x: int| s2.contains(x) ==> r[m] <= r[x];
            if r[m2] <= r[last] {
                assert forall|x: int| s.contains(x) implies r[m2] <= r[x] by {
                    if x != last {
                        assert(s2.contains(x));
                    }
                }
                assert(s.contains(m2));
            } else {
                assert forall|x: int| s.contains(x) implies r[last] <= r[x] by {
                    if x != last {
                        assert(s2.contains(x));
                    }
                }
            }
        } else {
            assert forall|x: int| s.contains(x) implies r[last] <= r[x] by {
                if x != last {
                    assert(s2.contains(x));
                }
            }
        }
    } else {
        assert forall|x: int| s.contains(x) implies 0 <= x < last by {}
        lemma_seq_min(r, s, last);
    }
}

/// Above a reachable node's rank, the fuel no longer matters: any two
/// sufficient fuels give the same value.
proof fn lemma_eval_fuel(
    nodes: Seq<NodeV>,
    outputs: Seq<usize>,
    r: Seq<nat>,
    s0: Seq<bool>,
    k: int,
    f1: nat,
    f2: nat,
)
    requires
        wf_in_nodes(nodes),
        valid_rank(nodes, outputs, r),
        reachable(nodes, outputs, k),
        0 <= k < nodes.len(),
        f1 > r[k],
        f2 > r[k],
    ensures
        eval_node(nodes, s0, k, f1) == eval_node(nodes, s0, k, f2),
    decreases r[k],
{
    let n = nodes[k];
    if n.op != Operator::Passthrough {
        assert forall|j: int| 0 <= j < n.in_nodes.len() implies eval_node(
            nodes,
            s0,
            (#[trigger] n.in_nodes[j]) as int,
            (f1 - 1) as nat,
        ) == eval_node(nodes, s0, n.in_nodes[j] as int, (f2 - 1) as nat) by {
            let c = n.in_nodes[j] as int;
            lemma_reachable_child(nodes, outputs, k, j);
            assert(r[c] < r[k]);
            lemma_eval_fuel(nodes, outputs, r, s0, c, (f1 - 1) as nat, (f2 - 1) as nat);
        }
    }
}

/// Evaluation reads the assigned states only at `Passthrough` nodes: if two
/// state vectors agree there, every node resolves to the same value.
proof fn lemma_eval_states(nodes: Seq<NodeV>, s1: Seq<bool>, s2: Seq<bool>, k: int, fuel: nat)
    requires
        forall|p: int|
            0 <= p < nodes.len() && nodes[p].op == Operator::Passthrough ==> s1[p] == s2[p],
    ensures
        eval_node(nodes, s1, k, fuel) == eval_node(nodes, s2, k, fuel),
    decreases fuel,
{
    if 0 <= k < nodes.len() {
        let n = nodes[k];
        if n.op != Operator::Passthrough && fuel > 0 {
            assert forall|j: int| 0 <= j < n.in_nodes.len() implies eval_node(
                nodes,
                s1,
                (#[trigger] n.in_nodes[j]) as int,
                (fuel - 1) as nat,
            ) == eval_node(nodes, s2, n.in_nodes[j] as int, (fuel - 1) as nat) by {
                lemma_eval_states(nodes, s1, s2, n.in_nodes[j] as int, (fuel - 1) as nat);
            }
        }
    }
}

/// Assignment never changes the vector's length.
proof fn lemma_assign_len(states: Seq<bool>, idxs: Seq<usize>, bits: Seq<bool>)
    requires
        in_range(idxs, states.len() as int),
    ensures
        assign_states(states, idxs, bits).len() == states.len(),
    decreases idxs.len(),
{
    if idxs.len() > 0 {
        assert forall|i: int| 0 <= i < idxs.drop_last().len() implies (#[trigger] idxs.drop_last()[
            i]) < states.len() by {
            assert(idxs.drop_last()[i] == idxs[i]);
        }
        lemma_assign_len(states, idxs.drop_last(), bits.drop_last());
    }
}

/// At a position some input is assigned to, the result does not depend on
/// the prior states.
proof fn lemma_assign_agree(
    s1: Seq<bool>,
    s2: Seq<bool>,
    idxs: Seq<usize>,
    bits: Seq<bool>,
    k: int,
)
    requires
        s1.len() == s2.len(),
        in_range(idxs, s1.len() as int),
        0 <= k < s1.len(),
        exists|i: int| 0 <= i < idxs.len() && (#[trigger] idxs[i]) as int == k,
    ensures
        assign_states(s1, idxs, bits)[k] == assign_states(s2, idxs, bits)[k],
    decreases idxs.len(),
{
    assert forall|i: int| 0 <= i < idxs.drop_last().len() implies (#[trigger] idxs.drop_last()[i])
        < s1.len() by {
        assert(idxs.drop_last()[i] == idxs[i]);
    }
    lemma_assign_len(s1, idxs.drop_last(), bits.drop_last());
    lemma_assign_len(s2, idxs.drop_last(), bits.drop_last());
    if idxs.last() as int != k {
        let i = choose|i: int| 0 <= i < idxs.len() && (#[trigger] idxs[i]) as int == k;
        assert(idxs.drop_last()[i] as int == k);
        lemma_assign_agree(s1, s2, idxs.drop_last(), bits.drop_last(), k);
    }
}

/// At a position no input is assigned to, the state is untouched.
proof fn lemma_assign_untouched(s: Seq<bool>, idxs: Seq<usize>, bits: Seq<bool>, k: int)
    requires
        in_range(idxs, s.len() as int),
        0 <= k < s.len(),
        forall|i: int| 0 <= i < idxs.len() ==> (#[trigger] idxs[i]) as int != k,
    ensures
        assign_states(s, idxs, bits)[k] == s[k],
    decreases idxs.len(),
{
    if idxs.len() > 0 {
        assert forall|i: int| 0 <= i < idxs.drop_last().len() implies (#[trigger] idxs.drop_last()[
            i]) < s.len() && idxs.drop_last()[i] as int != k by {
            assert(idxs.drop_last()[i] == idxs[i]);
        }
        lemma_assign_len(s, idxs.drop_last(), bits.drop_last());
        lemma_assign_untouched(s, idxs.drop_last(), bits.drop_last(), k);
    }
}

/// Law: evaluation is deterministic. For a well-formed graph, the outputs of
/// a `process` call are a pure function of the input bits: a second call on
/// the graph as `process` leaves it (structure unchanged, every
/// `Passthrough` node holding its assigned state) returns the same vector.
pub proof fn lemma_evaluate_deterministic(g_before: GraphV, g_after: GraphV, bits: Seq<bool>)
    requires
        graph_wf(g_before),
        g_after.nodes == g_before.nodes,
        g_after.input_nodes == g_before.input_nodes,
        g_after.output_nodes == g_before.output_nodes,
        g_after.states.len() == g_before.states.len(),
        forall|k: int|
            0 <= k < g_before.nodes.len() && g_before.nodes[k].op == Operator::Passthrough
                ==> g_after.states[k] == assign_states(
                g_before.states,
                g_before.input_nodes,
                bits,
            )[k],
    ensures
        spec_outputs(g_after, bits) == spec_outputs(g_before, bits),
{
    let s0b = assign_states(g_before.states, g_before.input_nodes, bits);
    let s0a = assign_states(g_after.states, g_after.input_nodes, bits);
    lemma_assign_len(g_before.states, g_before.input_nodes, bits);
    lemma_assign_len(g_after.states, g_after.input_nodes, bits);
    assert forall|k: int|
        0 <= k < g_before.nodes.len() && g_before.nodes[k].op
            == Operator::Passthrough implies s0a[k] == s0b[k] by {
        if exists|i: int|
            0 <= i < g_before.input_nodes.len() && (#[trigger] g_before.input_nodes[i]) as int
                == k {
            lemma_assign_agree(g_after.states, g_before.states, g_before.input_nodes, bits, k);
        } else {
            lemma_assign_untouched(g_after.states, g_before.input_nodes, bits, k);
            lemma_assign_untouched(g_before.states, g_before.input_nodes, bits, k);
        }
    }
    assert forall|q: int| 0 <= q < g_before.output_nodes.len() implies node_value(
        g_before.nodes,
        s0a,
        g_before.output_nodes[q] as int,
    ) == node_value(g_before.nodes, s0b, g_before.output_nodes[q] as int) by {
        lemma_eval_states(
            g_before.nodes,
            s0a,
            s0b,
            g_before.output_nodes[q] as int,
            g_before.nodes.len() as nat,
        );
    }
    assert(spec_outputs(g_after, bits) =~= spec_outputs(g_before, bits));
}

/// Law: the outputs are a function of the graph's structure, the input bits,
/// and the states of the `Passthrough` nodes that no input drives. Any two
/// graphs with the same structure that agree on those states evaluate alike
/// on every input vector.
pub proof fn lemma_outputs_depend_on_structure(g1: GraphV, g2: GraphV, bits: Seq<bool>)
    requires
        graph_wf(g1),
        g2.nodes == g1.nodes,
        g2.input_nodes == g1.input_nodes,
        g2.output_nodes == g1.output_nodes,
        g2.states.len() == g1.states.len(),
        forall|k: int|
            0 <= k < g1.nodes.len() && g1.nodes[k].op == Operator::Passthrough && !contains_idx(
                g1.input_nodes,
                k,
            ) ==> g2.states[k] == g1.states[k],
    ensures
        spec_outputs(g2, bits) == spec_outputs(g1, bits),
{
    let s01 = assign_states(g1.states, g1.input_nodes, bits);
    let s02 = assign_states(g2.states, g1.input_nodes, bits);
    lemma_assign_len(g1.states, g1.input_nodes, bits);
    lemma_assign_len(g2.states, g1.input_nodes, bits);
    assert forall|k: int|
        0 <= k < g1.nodes.len() && g1.nodes[k].op == Operator::Passthrough implies s02[k]
        == s01[k] by {
        if contains_idx(g1.input_nodes, k) {
            lemma_assign_agree(g2.states, g1.states, g1.input_nodes, bits, k);
        } else {
            lemma_assign_untouched(g1.states, g1.input_nodes, bits, k);
            lemma_assign_untouched(g2.states, g1.input_nodes, bits, k);
        }
    }
    assert forall|q: int| 0 <= q < g1.output_nodes.len() implies node_value(
        g1.nodes,
        s02,
        g1.output_nodes[q] as int,
    ) == node_value(g1.nodes, s01, g1.output_nodes[q] as int) by {
        lemma_eval_states(g1.nodes, s02, s01, g1.output_nodes[q] as int, g1.nodes.len() as nat);
    }
    assert(spec_outputs(g2, bits) =~= spec_outputs(g1, bits));
}

/// `process` never touches a `Passthrough` node that no input drives: its
/// state carries over unchanged from before the call. (Its hypotheses are
/// exactly what `process` ensures of the graph it leaves behind.)
pub proof fn lemma_process_preserves_undriven_states(g0: GraphV, g1: GraphV, bits: Seq<bool>)
    requires
        graph_wf(g0),
        g1.nodes == g0.nodes,
        g1.input_nodes == g0.input_nodes,
        g1.states.len() == g0.states.len(),
        forall|k: int|
            0 <= k < g1.nodes.len() && g1.nodes[k].op == Operator::Passthrough ==> g1.states[k]
                == assign_states(g0.states, g0.input_nodes, bits)[k],
    ensures
        forall|k: int|
            0 <= k < g1.nodes.len() && g1.nodes[k].op == Operator::Passthrough && !contains_idx(
                g1.input_nodes,
                k,
            ) ==> g1.states[k] == g0.states[k],
{
    assert forall|k: int|
        0 <= k < g1.nodes.len() && g1.nodes[k].op == Operator::Passthrough && !contains_idx(
            g1.input_nodes,
            k,
        ) implies g1.states[k] == g0.states[k] by {
        lemma_assign_untouched(g0.states, g0.input_nodes, bits, k);
    }
}

/// Law: blueprint round trip. A graph rebuilt from the blueprint data a
/// graph was serialized to (same structure, every node state starting
/// `false`) produces the same evaluation results as the original for every
/// input vector, as long as the original's undriven `Passthrough` states are
/// still `false` — which holds of every graph built by `new`, however many
/// times it was processed.
pub proof fn lemma_blueprint_round_trip(g: GraphV, g2: GraphV, bits: Seq<bool>)
    requires
        graph_wf(g),
        forall|k: int|
            0 <= k < g.nodes.len() && g.nodes[k].op == Operator::Passthrough && !contains_idx(
                g.input_nodes,
                k,
            ) ==> g.states[k] == false,
        g2.nodes == g.nodes,
        g2.input_nodes == g.input_nodes,
        g2.output_nodes == g.output_nodes,
        g2.states == Seq::new(g.nodes.len(), |i: int| false),
    ensures
        spec_outputs(g2, bits) == spec_outputs(g, bits),
{
    lemma_outputs_depend_on_structure(g, g2, bits);
}

/// Whether every child of node `k` carries a `true` flag.
#[verifier::loop_isolation(false)]
fn children_resolved(nodes: &Vec<Node>, flags: &Vec<bool>, k: usize) -> (r: bool)
    requires
        k < nodes@.len(),
        flags@.len() == nodes@.len(),
        wf_in_nodes(view_nodes(nodes@)),
    ensures
        r == spec_children_done(view_nodes(nodes@), flags@, k as int),
{
    let ghost ns = view_nodes(nodes@);
    assert(ns[k as int] == nodes@[k as int]@);
    let m = nodes[k].in_nodes.len();
    let mut j: usize = 0;
    while j < m
        invariant
            j <= m,
            forall|jj: int| 0 <= jj < j ==> flags@[(#[trigger] ns[k as int].in_nodes[jj]) as int],
        decreases m - j,
    {
        let c = nodes[k].in_nodes[j];
        assert(c == ns[k as int].in_nodes[j as int]);
        if !flags[c] {
            return false;
        }
        j += 1;
    }
    true
}

/// Whether the subgraph reachable backward from the outputs is acyclic:
/// marks the reachable nodes, then peels reachable nodes whose children are
/// all peeled; a leftover reachable node means a reachable cycle.
#[verifier::loop_isolation(false)]
#[verifier::rlimit(100)]
fn check_acyclic(output_nodes: &Vec<usize>, nodes: &Vec<Node>) -> (r: bool)
    requires
        in_range(output_nodes@, nodes@.len() as int),
        wf_in_nodes(view_nodes(nodes@)),
    ensures
        r == acyclic(view_nodes(nodes@), output_nodes@),
{
    let ghost ns = view_nodes(nodes@);
    let ghost outs = output_nodes@;
    let n = nodes.len();

    // Mark every node reachable backward from an output.
    let mut reach: Vec<bool> = vec![false; n];
    let mut oi: usize = 0;
    while oi < output_nodes.len()
        invariant
            oi <= outs.len(),
            reach@.len() == n,
            forall|q: int| 0 <= q < oi ==> reach@[(#[trigger] outs[q]) as int],
            forall|k: int| 0 <= k < n && reach@[k] ==> reachable(ns, outs, k),
        decreases outs.len() - oi,
    {
        let o = output_nodes[oi];
        proof {
            lemma_output_reachable(ns, outs, oi as int);
        }
        reach[o] = true;
        oi += 1;
    }

    // Close the marked set under child edges.
    #[verifier::loop_isolation(true)]
    loop
        invariant
            n == nodes@.len(),
            ns == view_nodes(nodes@),
            outs == output_nodes@,
            wf_in_nodes(ns),
            in_range(outs, n as int),
            reach@.len() == n,
            forall|q: int| 0 <= q < outs.len() ==> reach@[(#[trigger] outs[q]) as int],
            forall|k: int| 0 <= k < n && reach@[k] ==> reachable(ns, outs, k),
        ensures
            reach@.len() == n,
            forall|q: int| 0 <= q < outs.len() ==> reach@[(#[trigger] outs[q]) as int],
            forall|k: int| 0 <= k < n && reach@[k] ==> reachable(ns, outs, k),
            forall|k: int, j: int|
                0 <= k < n && reach@[k] && 0 <= j < ns[k].in_nodes.len() ==> reach@[(
                #[trigger] ns[k].in_nodes[j]) as int],
        decreases n - count_true(reach@),
    {
        let ghost start = reach@;
        let mut changed = false;
        let mut k: usize = 0;
        while k < n
            invariant
                k <= n,
                reach@.len() == n,
                forall|q: int| 0 <= q < outs.len() ==> reach@[(#[trigger] outs[q]) as int],
                forall|x: int| 0 <= x < n && reach@[x] ==> reachable(ns, outs, x),
                changed ==> (forall|x: int| 0 <= x < n && start[x] ==> reach@[x]) && (exists|x: int|
                    0 <= x < n && !start[x] && reach@[x]),
                !changed ==> reach@ == start,
                !changed ==> forall|k2: int, j: int|
                    0 <= k2 < k && reach@[k2] && 0 <= j < ns[k2].in_nodes.len() ==> reach@[(
                    #[trigger] ns[k2].in_nodes[j]) as int],
            decreases n - k,
        {
            if reach[k] {
                assert(ns[k as int] == nodes@[k as int]@);
                let m = nodes[k].in_nodes.len();
                let mut j: usize = 0;
                while j < m
                    invariant
                        j <= m,
                        k < n,
                        m == ns[k as int].in_nodes.len(),
                        reach@.len() == n,
                        reach@[k as int],
                        forall|q: int| 0 <= q < outs.len() ==> reach@[(#[trigger] outs[q]) as int],
                        forall|x: int| 0 <= x < n && reach@[x] ==> reachable(ns, outs, x),
                        changed ==> (forall|x: int| 0 <= x < n && start[x] ==> reach@[x]) && (
                        exists|x: int| 0 <= x < n && !start[x] && reach@[x]),
                        !changed ==> reach@ == start,
                        !changed ==> forall|k2: int, jj: int|
                            0 <= k2 < k && reach@[k2] && 0 <= jj < ns[k2].in_nodes.len()
                                ==> reach@[(#[trigger] ns[k2].in_nodes[jj]) as int],
                        !changed ==> forall|jj: int|
                            0 <= jj < j ==> reach@[(#[trigger] ns[k as int].in_nodes[jj]) as int],
                    decreases m - j,
                {
                    let c = nodes[k].in_nodes[j];
                    if !reach[c] {
                        proof {
                            lemma_reachable_child(ns, outs, k as int, j as int);
                        }
                        reach[c] = true;
                        changed = true;
                    }
                    j += 1;
                }
            }
            k += 1;
        }
        if !changed {
            break;
        }
        proof {
            lemma_count_true_mono(start, reach@);
            lemma_count_true_bound(reach@);
        }
    }

    proof {
        assert forall|k: int| 0 <= k < n && reachable(ns, outs, k) implies reach@[k] by {
            let p = choose|p: Seq<int>|
                #[trigger] is_path(ns, p) && contains_idx(outs, p[0]) && p.last() == k;
            lemma_reachable_marked(ns, outs, reach@, p);
        }
    }

    // Peel reachable nodes whose children are all peeled; the peel order is a
    // topological rank witness. A reachable node that can never be peeled
    // lies on a reachable cycle.
    let mut done: Vec<bool> = vec![false; n];
    proof {
        lemma_count_true_zero(done@);
    }
    let ghost mut rank: Seq<nat> = Seq::new(n as nat, |i: int| 0nat);
    let mut order: usize = 0;
    loop
        invariant
            done@.len() == n,
            rank.len() == n,
            order == count_true(done@),
            order <= n,
            forall|k: int| 0 <= k < n && done@[k] ==> reach@[k],
            forall|k: int| 0 <= k < n && done@[k] ==> rank[k] < order,
            forall|k: int, j: int|
                0 <= k < n && done@[k] && 0 <= j < ns[k].in_nodes.len() ==> done@[(
                #[trigger] ns[k].in_nodes[j]) as int] && rank[ns[k].in_nodes[j] as int] < rank[k],
        decreases n - count_true(done@),
    {
        let ghost c0 = count_true(done@);
        let mut k: usize = 0;
        let mut found = false;
        while k < n && !found
            invariant
                k <= n,
                done@.len() == n,
                rank.len() == n,
                order == count_true(done@),
                order <= n,
                forall|x: int| 0 <= x < n && done@[x] ==> reach@[x],
                forall|x: int| 0 <= x < n && done@[x] ==> rank[x] < order,
                forall|x: int, j: int|
                    0 <= x < n && done@[x] && 0 <= j < ns[x].in_nodes.len() ==> done@[(
                    #[trigger] ns[x].in_nodes[j]) as int] && rank[ns[x].in_nodes[j] as int]
                        < rank[x],
                !found ==> count_true(done@) == c0,
                found ==> count_true(done@) == c0 + 1,
                !found ==> forall|k2: int|
                    0 <= k2 < k && reach@[k2] && !done@[k2] ==> !spec_children_done(
                        ns,
                        done@,
                        k2,
                    ),
            decreases (if found {
                0int
            } else {
                1int
            }), n - k,
        {
            if reach[k] && !done[k] && children_resolved(nodes, &done, k) {
                proof {
                    lemma_count_true_bound(done@);
                }
                let ghost pre = done@;
                done[k] = true;
                proof {
                    lemma_count_true_update(pre, k as int);
                    rank = rank.update(k as int, order as nat);
                }
                order += 1;
                found = true;
            } else {
                k += 1;
            }
        }
        if !found {
            let mut k2: usize = 0;
            let mut remaining = false;
            let ghost mut witness: int = 0;
            while k2 < n
                invariant
                    k2 <= n,
                    !remaining ==> forall|x: int| 0 <= x < k2 ==> !(reach@[x] && !done@[x]),
                    remaining ==> 0 <= witness < n && reach@[witness] && !done@[witness],
                decreases n - k2,
            {
                if reach[k2] && !done[k2] {
                    remaining = true;
                    proof {
                        witness = k2 as int;
                    }
                }
                k2 += 1;
            }
            if remaining {
                proof {
                    assert forall|r: Seq<nat>| !(#[trigger] valid_rank(ns, outs, r)) by {
                        if valid_rank(ns, outs, r) {
                            let s = Set::new(|x: int| 0 <= x < n && reach@[x] && !done@[x]);
                            assert(s.contains(witness));
                            lemma_seq_min(r, s, n as int);
                            let m = choose|m: int|
                                #[trigger] s.contains(m) && forall|x: int|
                                    s.contains(x) ==> r[m] <= r[x];
                            assert(reach@[m] && !done@[m] && 0 <= m < n);
                            assert(!spec_children_done(ns, done@, m));
                            let j = choose|j: int|
                                0 <= j < ns[m].in_nodes.len() && !done@[(
                                #[trigger] ns[m].in_nodes[j]) as int];
                            let c = ns[m].in_nodes[j] as int;
                            assert(reachable(ns, outs, m));
                            lemma_reachable_child(ns, outs, m, j);
                            assert(reach@[c]);
                            assert(s.contains(c));
                            assert(r[c] < r[m]);
                        }
                    }
                }
                return false;
            } else {
                proof {
                    assert forall|k3: int|
                        0 <= k3 < n && reachable(ns, outs, k3) implies #[trigger] rank[k3]
                        < ns.len() by {
                        assert(reach@[k3]);
                        assert(done@[k3]);
                    }
                    assert(valid_rank(ns, outs, rank));
                }
                return true;
            }
        }
    }
}

/// The authored circuit: an index-addressed arena of logic nodes, the node
/// indices driven by the level's input devices, and the node indices read by
/// its output devices.
pub struct LogicGraph {
    input_nodes: Vec<usize>,
    output_nodes: Vec<usize>,
    nodes: Vec<Node>,
    states: Vec<bool>,
}

impl View for LogicGraph {
    type V = GraphV;

    closed spec fn view(&self) -> GraphV {
        GraphV {
            nodes: view_nodes(self.nodes@),
            states: self.states@,
            input_nodes: self.input_nodes@,
            output_nodes: self.output_nodes@,
        }
    }
}

impl LogicGraph {
    /// Builds a graph after validating it: every referenced index must
    /// address a node, and no output may transitively depend on a node that
    /// depends on itself. Every node starts in the `false` state.
    #[verifier::loop_isolation(false)]
    pub fn new(input_nodes: Vec<usize>, output_nodes: Vec<usize>, nodes: Vec<Node>) -> (r: Result<
        LogicGraph,
        ConfigError,
    >)
        ensures
            ({
                let ns = view_nodes(nodes@);
                match r {
                    Ok(g) => {
                        &&& indices_ok(input_nodes@, output_nodes@, ns)
                        &&& acyclic(ns, output_nodes@)
                        &&& graph_wf(g@)
                        &&& g@.nodes == ns
                        &&& g@.input_nodes == input_nodes@
                        &&& g@.output_nodes == output_nodes@
                        &&& g@.states == Seq::new(ns.len(), |i: int| false)
                    },
                    Err(e) => {
                        &&& (e == ConfigError::IndexOutOfRange <==> !indices_ok(
                            input_nodes@,
                            output_nodes@,
                            ns,
                        ))
                        &&& (e == ConfigError::CyclicGraph <==> indices_ok(
                            input_nodes@,
                            output_nodes@,
                            ns,
                        ) && !acyclic(ns, output_nodes@))
                        &&& e != ConfigError::ArityMismatch
                    },
                }
            }),
    {
        let ghost ns = view_nodes(nodes@);
        let n = nodes.len();
        let mut i: usize = 0;
        while i < input_nodes.len()
            invariant
                i <= input_nodes@.len(),
                forall|q: int| 0 <= q < i ==> (#[trigger] input_nodes@[q]) < n,
            decreases input_nodes@.len() - i,
        {
            if input_nodes[i] >= n {
                return Err(ConfigError::IndexOutOfRange);
            }
            i += 1;
        }
        let mut i: usize = 0;
        while i < output_nodes.len()
            invariant
                i <= output_nodes@.len(),
                forall|q: int| 0 <= q < i ==> (#[trigger] output_nodes@[q]) < n,
            decreases output_nodes@.len() - i,
        {
            if output_nodes[i] >= n {
                return Err(ConfigError::IndexOutOfRange);
            }
            i += 1;
        }
        let mut k: usize = 0;
        while k < n
            invariant
                k <= n,
                forall|kk: int, jj: int|
                    0 <= kk < k && 0 <= jj < ns[kk].in_nodes.len() ==> (#[trigger] ns[kk].in_nodes[
                    jj]) < n,
            decreases n - k,
        {
            assert(ns[k as int] == nodes@[k as int]@);
            let m = nodes[k].in_nodes.len();
            let mut j: usize = 0;
            while j < m
                invariant
                    j <= m,
                    k < n,
                    m == ns[k as int].in_nodes.len(),
                    forall|jj: int| 0 <= jj < j ==> (#[trigger] ns[k as int].in_nodes[jj]) < n,
                decreases m - j,
            {
                if nodes[k].in_nodes[j] >= n {
                    return Err(ConfigError::IndexOutOfRange);
                }
                j += 1;
            }
            k += 1;
        }
        if !check_acyclic(&output_nodes, &nodes) {
            return Err(ConfigError::CyclicGraph);
        }
        let states: Vec<bool> = vec![false; n];
        let g = LogicGraph { input_nodes, output_nodes, nodes, states };
        proof {
            assert(g@.states =~= Seq::new(ns.len(), |i: int| false));
        }
        Ok(g)
    }

    /// How many graph slots input devices drive.
    pub fn num_input_nodes(&self) -> (r: usize)
        ensures
            r == self@.input_nodes.len(),
    {
        self.input_nodes.len()
    }

    /// How many graph slots output devices read.
    pub fn num_output_nodes(&self) -> (r: usize)
        ensures
            r == self@.output_nodes.len(),
    {
        self.output_nodes.len()
    }

    /// A level whose graph has no nodes carries no authored logic.
    pub fn has_no_logic(&self) -> (r: bool)
        ensures
            r == (self@.nodes.len() == 0),
    {
        self.nodes.is_empty()
    }

    /// Serializes the graph back to blueprint data: exactly the authored
    /// structure, without the transient node states.
    #[verifier::loop_isolation(false)]
    pub fn to_blueprint(&self) -> (bp: LogicGraphBlueprint)
        ensures
            bp.input_node_indices@ == self@.input_nodes,
            bp.output_node_indices@ == self@.output_nodes,
            view_nodes(bp.nodes@) == self@.nodes,
    {
        let input_node_indices = self.input_nodes.clone();
        let output_node_indices = self.output_nodes.clone();
        proof {
            assert(input_node_indices@ =~= self@.input_nodes);
            assert(output_node_indices@ =~= self@.output_nodes);
        }
        let mut nodes: Vec<Node> = Vec::new();
        let n = self.nodes.len();
        let mut k: usize = 0;
        while k < n
            invariant
                k <= n,
                nodes@.len() == k,
                forall|q: int| 0 <= q < k ==> (#[trigger] nodes@[q]@) == self@.nodes[q],
            decreases n - k,
        {
            let in_nodes = self.nodes[k].in_nodes.clone();
            proof {
                assert(in_nodes@ =~= self.nodes@[k as int].in_nodes@);
            }
            nodes.push(Node::new(self.nodes[k].op, in_nodes));
            k += 1;
        }
        proof {
            assert(view_nodes(nodes@) =~= self@.nodes);
        }
        LogicGraphBlueprint { input_node_indices, output_node_indices, nodes }
    }

    /// Resolves node `i` depth-first: children first, then this node's
    /// operator over their values. A node already resolved in this call is
    /// not recomputed; a `Passthrough` node keeps its assigned state.
    #[verifier::loop_isolation(false)]
    #[verifier::rlimit(60)]
    fn update_node(
        &mut self,
        i: usize,
        resolved: &mut Vec<bool>,
        Ghost(s0): Ghost<Seq<bool>>,
        Ghost(rank): Ghost<Seq<nat>>,
    )
        requires
            wf_in_nodes(old(self)@.nodes),
            in_range(old(self)@.output_nodes, old(self)@.nodes.len() as int),
            valid_rank(old(self)@.nodes, old(self)@.output_nodes, rank),
            reachable(old(self)@.nodes, old(self)@.output_nodes, i as int),
            i < old(self)@.nodes.len(),
            inv_resolution(old(self)@, old(resolved)@, s0),
        ensures
            final(self)@.nodes == old(self)@.nodes,
            final(self)@.input_nodes == old(self)@.input_nodes,
            final(self)@.output_nodes == old(self)@.output_nodes,
            final(resolved)@.len() == old(resolved)@.len(),
            forall|k: int|
                0 <= k < old(resolved)@.len() && old(resolved)@[k] ==> final(resolved)@[k],
            inv_resolution(final(self)@, final(resolved)@, s0),
            final(self)@.states[i as int] == node_value(final(self)@.nodes, s0, i as int),
            final(self)@.nodes[i as int].op != Operator::Passthrough ==> final(resolved)@[i as int],
        decreases rank[i as int],
    {
        let ghost g0 = self@;
        if resolved[i] {
            return ;
        }
        let op = self.nodes[i].op;
        assert(g0.nodes[i as int] == self.nodes@[i as int]@);
        if op == Operator::Passthrough {
            return ;
        }
        let num = self.nodes[i].in_nodes.len();
        let mut j: usize = 0;
        while j < num
            invariant
                j <= num,
                self@.nodes == g0.nodes,
                self@.input_nodes == g0.input_nodes,
                self@.output_nodes == g0.output_nodes,
                resolved@.len() == old(resolved)@.len(),
                forall|k: int| 0 <= k < old(resolved)@.len() && old(resolved)@[k] ==> resolved@[k],
                inv_resolution(self@, resolved@, s0),
                forall|jj: int|
                    0 <= jj < j ==> {
                        let c = (#[trigger] g0.nodes[i as int].in_nodes[jj]) as int;
                        resolved@[c] || g0.nodes[c].op == Operator::Passthrough
                    },
            decreases num - j,
        {
            let c = self.nodes[i].in_nodes[j];
            assert(c == g0.nodes[i as int].in_nodes[j as int]);
            proof {
                lemma_reachable_child(g0.nodes, g0.output_nodes, i as int, j as int);
            }
            self.update_node(c, resolved, Ghost(s0), Ghost(rank));
            j += 1;
        }
        let ghost children_value = |jj: int|
            node_value(g0.nodes, s0, g0.nodes[i as int].in_nodes[jj] as int);
        let mut acc = op == Operator::And;
        let mut j: usize = 0;
        while j < num
            invariant
                j <= num,
                self@.nodes == g0.nodes,
                self@.input_nodes == g0.input_nodes,
                self@.output_nodes == g0.output_nodes,
                resolved@.len() == old(resolved)@.len(),
                forall|k: int| 0 <= k < old(resolved)@.len() && old(resolved)@[k] ==> resolved@[k],
                inv_resolution(self@, resolved@, s0),
                forall|jj: int|
                    0 <= jj < num ==> {
                        let c = (#[trigger] g0.nodes[i as int].in_nodes[jj]) as int;
                        resolved@[c] || g0.nodes[c].op == Operator::Passthrough
                    },
                op == Operator::And ==> acc == (forall|jj: int|
                    0 <= jj < j ==> #[trigger] children_value(jj)),
                op != Operator::And ==> acc == (exists|jj: int|
                    0 <= jj < j && #[trigger] children_value(jj)),
            decreases num - j,
        {
            let c = self.nodes[i].in_nodes[j];
            assert(c == g0.nodes[i as int].in_nodes[j as int]);
            let cv = self.states[c];
            proof {
                if g0.nodes[c as int].op == Operator::Passthrough {
                    assert(cv == s0[c as int]);
                    assert(cv == children_value(j as int));
                } else {
                    assert(resolved@[c as int]);
                    assert(cv == children_value(j as int));
                }
            }
            if op == Operator::And {
                acc = acc && cv;
            } else {
                acc = acc || cv;
            }
            j += 1;
        }
        let val = if op == Operator::Nor {
            !acc
        } else {
            acc
        };
        self.states[i] = val;
        resolved[i] = true;
        proof {
            let ns = g0.nodes;
            let len = ns.len() as nat;
            let f = (len - 1) as nat;
            assert(rank[i as int] < len);
            assert forall|jj: int| 0 <= jj < num implies eval_node(
                ns,
                s0,
                (#[trigger] ns[i as int].in_nodes[jj]) as int,
                f,
            ) == children_value(jj) by {
                let c = ns[i as int].in_nodes[jj] as int;
                lemma_reachable_child(ns, g0.output_nodes, i as int, jj as int);
                assert(rank[c] < rank[i as int]);
                lemma_eval_fuel(ns, g0.output_nodes, rank, s0, c, f, len);
            }
            if op == Operator::And {
                assert(val == eval_node(ns, s0, i as int, len));
            } else if op == Operator::Or {
                assert(val == eval_node(ns, s0, i as int, len));
            } else {
                assert(val == eval_node(ns, s0, i as int, len));
            }
        }
    }

    /// Evaluates the circuit: writes `input` over the input nodes in order,
    /// resolves every output node depth-first, and returns their values in
    /// order. Fails (and changes nothing) when `input` does not carry
    /// exactly one bit per input node.
    #[verifier::loop_isolation(false)]
    pub fn process(&mut self, input: Vec<bool>) -> (r: Result<Vec<bool>, ConfigError>)
        requires
            graph_wf(old(self)@),
        ensures
            graph_wf(final(self)@),
            final(self)@.nodes == old(self)@.nodes,
            final(self)@.input_nodes == old(self)@.input_nodes,
            final(self)@.output_nodes == old(self)@.output_nodes,
            match r {
                Ok(out) => {
                    &&& input@.len() == old(self)@.input_nodes.len()
                    &&& out@ == spec_outputs(old(self)@, input@)
                    &&& forall|k: int|
                        0 <= k < final(self)@.nodes.len() && final(self)@.nodes[k].op
                            == Operator::Passthrough ==> final(self)@.states[k] == assign_states(
                            old(self)@.states,
                            old(self)@.input_nodes,
                            input@,
                        )[k]
                },
                Err(e) => {
                    &&& e == ConfigError::ArityMismatch
                    &&& input@.len() != old(self)@.input_nodes.len()
                    &&& final(self)@ == old(self)@
                },
            },
    {
        let ghost g0 = self@;
        if input.len() != self.input_nodes.len() {
            return Err(ConfigError::ArityMismatch);
        }
        let n = self.nodes.len();
        let mut q: usize = 0;
        while q < input.len()
            invariant
                q <= input@.len(),
                self@.nodes == g0.nodes,
                self@.input_nodes == g0.input_nodes,
                self@.output_nodes == g0.output_nodes,
                self@.states == assign_states(
                    g0.states,
                    g0.input_nodes.take(q as int),
                    input@.take(q as int),
                ),
                self@.states.len() == n,
            decreases input@.len() - q,
        {
            let ghost pre = self@.states;
            let idx = self.input_nodes[q];
            self.states[idx] = input[q];
            proof {
                let t1 = g0.input_nodes.take(q as int + 1);
                let t2 = input@.take(q as int + 1);
                assert(t1.drop_last() =~= g0.input_nodes.take(q as int));
                assert(t2.drop_last() =~= input@.take(q as int));
                assert(t1.last() == idx);
                assert(t2.last() == input@[q as int]);
                assert(self@.states =~= pre.update(idx as int, input@[q as int]));
            }
            q += 1;
        }
        proof {
            assert(g0.input_nodes.take(g0.input_nodes.len() as int) =~= g0.input_nodes);
            assert(input@.take(input@.len() as int) =~= input@);
        }
        let ghost s0 = assign_states(g0.states, g0.input_nodes, input@);
        assert(self@.states == s0);
        let ghost rank = choose|rk: Seq<nat>| valid_rank(g0.nodes, g0.output_nodes, rk);
        let mut resolved: Vec<bool> = vec![false; n];
        let mut output: Vec<bool> = Vec::new();
        let num_out = self.output_nodes.len();
        let mut q: usize = 0;
        while q < num_out
            invariant
                q <= num_out,
                output@.len() == q,
                self@.nodes == g0.nodes,
                self@.input_nodes == g0.input_nodes,
                self@.output_nodes == g0.output_nodes,
                resolved@.len() == n,
                inv_resolution(self@, resolved@, s0),
                forall|qq: int|
                    0 <= qq < q ==> output@[qq] == node_value(
                        g0.nodes,
                        s0,
                        (#[trigger] g0.output_nodes[qq]) as int,
                    ),
            decreases num_out - q,
        {
            let oi = self.output_nodes[q];
            proof {
                lemma_output_reachable(g0.nodes, g0.output_nodes, q as int);
            }
            self.update_node(oi, &mut resolved, Ghost(s0), Ghost(rank));
            output.push(self.states[oi]);
            q += 1;
        }
        proof {
            assert(output@ =~= spec_outputs(g0, input@));
        }
        Ok(output)
    }
}

/// The running resolution state inside one `process` call: `Passthrough`
/// nodes hold their assigned state, and every node flagged resolved is a
/// reachable operator node already holding its resolved value.
spec fn inv_resolution(g: GraphV, resolved: Seq<bool>, s0: Seq<bool>) -> bool {
    &&& resolved.len() == g.nodes.len()
    &&& s0.len() == g.nodes.len()
    &&& g.states.len() == g.nodes.len()
    &&& forall|k: int|
        0 <= k < g.nodes.len() && g.nodes[k].op == Operator::Passthrough ==> g.states[k] == s0[k]
    &&& forall|k: int|
        0 <= k < g.nodes.len() && resolved[k] ==> g.nodes[k].op != Operator::Passthrough
            && reachable(g.nodes, g.output_nodes, k) && g.states[k] == node_value(g.nodes, s0, k)
}

} // verus!
