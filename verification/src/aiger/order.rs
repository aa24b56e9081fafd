//! The layout of the graphs that parsing builds.
//!
//! A parse adds the inputs first, then the latches, then the AND nodes, each
//! of them from signals already defined; so every graph that it yields is
//! laid out in AIGER order.

use crate::aiger::model::{
    add_and_step, add_input_step, add_latch_step, delta_scan, initial_state, label_kind, line_int, line_ints,
    lits_get, next_line, num_labels, resolve_labels, resolve_latches, run_steps, spec_parse, spec_parse_body, step,
    ParseState, Step,
};
use crate::aiger::{
    lemma_lits_closed_add, lemma_lits_closed_get, lemma_lits_closed_grow, lits_closed, spec_header, AigerHeader,
};
use crate::graph::{
    and_gate_ids, and_shortcut, lemma_index_roundtrip, lists_index, node_kinds_listed, model_add_and_optimized, model_add_and_raw, model_add_input,
    model_add_label, model_add_latch, model_set_latch_input, ordered_children, strash_key, AigGraph, AigNode,
    BuilderModel, GraphModel, NodeId, MAX_GRAPH_INDEX, NODE_ID_MASK,
};
use vstd::prelude::*;

verus! {

/// Every signal of `s` is a constant or names one of the first `n` nodes.
pub open spec fn all_signals(s: Seq<NodeId>, n: int) -> bool {
    forall|i: int| 0 <= i < s.len() ==> (#[trigger] s[i]).is_signal_of(n)
}

/// The graph is laid out as an AIGER file lays it out: the inputs are its
/// first nodes, in order, the latches the next ones, and the AND nodes the
/// rest, each of them referring only to nodes before it; every latch and
/// every label refers to a signal of the graph, and the labels together
/// number at most `usize::MAX`.
pub open spec fn in_aiger_order(m: GraphModel) -> bool {
    let n = m.nodes.len() as int;
    let ni = m.inputs.len() as int;
    let nl = m.latches.len() as int;
    &&& n <= MAX_GRAPH_INDEX + 1
    &&& ni + nl <= n
    &&& m.outputs.len() + m.bad_states.len() + m.constraints.len() + m.justice.len() + m.fairness.len()
        <= usize::MAX
    &&& forall|i: int|
        0 <= i < ni ==> #[trigger] m.inputs[i] == NodeId::spec_from_index(i) && m.nodes[i] == (AigNode {
            left: NodeId(NODE_ID_MASK),
            right: NodeId(NODE_ID_MASK),
        })
    &&& forall|j: int|
        0 <= j < nl ==> #[trigger] m.latches[j] == NodeId::spec_from_index(ni + j) && m.nodes[ni + j].left
            == NodeId(NODE_ID_MASK) && m.nodes[ni + j].right.is_signal_of(n)
    &&& forall|k: int|
        ni + nl <= k < n ==> (#[trigger] m.nodes[k]).left.is_signal_of(k) && m.nodes[k].right.is_signal_of(k)
    &&& all_signals(m.outputs, n)
    &&& all_signals(m.bad_states, n)
    &&& all_signals(m.constraints, n)
    &&& all_signals(m.justice, n)
    &&& all_signals(m.fairness, n)
}

impl AigGraph {
    /// The graph is laid out in AIGER order (see [`in_aiger_order`]).
    pub open spec fn aiger_ordered(&self) -> bool {
        in_aiger_order(self.model())
    }
}

/// A parse state whose graph is in AIGER order so far and has no labels yet,
/// whose literal map and structural hash name only its signals, and whose
/// pending latches are its latches, in order.
pub open spec fn state_in_order(s: ParseState) -> bool {
    let m = s.b.graph;
    let n = m.nodes.len() as int;
    &&& in_aiger_order(m)
    &&& m.outputs.len() == 0
    &&& m.bad_states.len() == 0
    &&& m.constraints.len() == 0
    &&& m.justice.len() == 0
    &&& m.fairness.len() == 0
    &&& lits_closed(s.lits, n)
    &&& forall|k: u64| #[trigger] s.b.strash.contains_key(k) ==> s.b.strash[k].is_signal_of(n)
    &&& s.latch_inputs.len() == m.latches.len()
    &&& forall|j: int| 0 <= j < s.latch_inputs.len() ==> (#[trigger] s.latch_inputs[j]).0 == m.latches[j]
}

/// Adding an input while there are only inputs.
proof fn lemma_input_in_order(s: ParseState, lit: nat, pos: int)
    requires
        state_in_order(s),
        s.b.graph.nodes.len() == s.b.graph.inputs.len(),
        add_input_step(s, lit, pos) is Ok,
    ensures
        ({
            let t = add_input_step(s, lit, pos)->Ok_0;
            &&& state_in_order(t)
            &&& t.b.graph.nodes.len() == t.b.graph.inputs.len()
            &&& t.label_lits == s.label_lits
        }),
{
    let n = s.b.graph.nodes.len() as int;
    let (b, id) = model_add_input(s.b);
    lemma_index_roundtrip(n);
    lemma_lits_closed_grow(s.lits, n, n + 1);
    lemma_lits_closed_add(s.lits, n + 1, lit, id);
    let t = add_input_step(s, lit, pos)->Ok_0;
    assert(t.b.graph.nodes[n] == AigNode { left: NodeId(NODE_ID_MASK), right: NodeId(NODE_ID_MASK) });
    assert(forall|i: int| 0 <= i < n ==> t.b.graph.nodes[i] == s.b.graph.nodes[i]);
    assert(forall|i: int| 0 <= i < n ==> t.b.graph.inputs[i] == s.b.graph.inputs[i]);
    assert forall|k: u64| #[trigger] t.b.strash.contains_key(k) implies t.b.strash[k].is_signal_of(n + 1) by {
        assert(s.b.strash[k].is_signal_of(n));
    }
    assert(s.b.graph.latches.len() == 0);
    assert(t.latch_inputs =~= s.latch_inputs);
}

/// Adding a latch while there are only inputs and latches.
proof fn lemma_latch_in_order(s: ParseState, lit: nat, next_lit: nat, pos: int)
    requires
        state_in_order(s),
        s.b.graph.nodes.len() == s.b.graph.inputs.len() + s.b.graph.latches.len(),
        add_latch_step(s, lit, next_lit, pos) is Ok,
    ensures
        ({
            let t = add_latch_step(s, lit, next_lit, pos)->Ok_0;
            &&& state_in_order(t)
            &&& t.b.graph.nodes.len() == t.b.graph.inputs.len() + t.b.graph.latches.len()
            &&& t.b.graph.inputs == s.b.graph.inputs
            &&& t.label_lits == s.label_lits
        }),
{
    let n = s.b.graph.nodes.len() as int;
    let ni = s.b.graph.inputs.len() as int;
    let (b, id) = model_add_latch(s.b, NodeId(0));
    lemma_index_roundtrip(n);
    lemma_lits_closed_grow(s.lits, n, n + 1);
    lemma_lits_closed_add(s.lits, n + 1, lit, id);
    let t = add_latch_step(s, lit, next_lit, pos)->Ok_0;
    let nl = s.b.graph.latches.len() as int;
    assert(forall|i: int| 0 <= i < n ==> t.b.graph.nodes[i] == s.b.graph.nodes[i]);
    assert(forall|j: int| 0 <= j < nl ==> t.b.graph.latches[j] == s.b.graph.latches[j]);
    assert(t.b.graph.latches[nl] == NodeId::spec_from_index(ni + nl));
    assert(t.b.graph.nodes[ni + nl].right.is_signal_of(n + 1));
    assert forall|k: u64| #[trigger] t.b.strash.contains_key(k) implies t.b.strash[k].is_signal_of(n + 1) by {
        assert(s.b.strash[k].is_signal_of(n));
    }
    assert forall|j: int| 0 <= j < t.latch_inputs.len() implies (#[trigger] t.latch_inputs[j]).0
        == t.b.graph.latches[j] by {
        if j < nl {
            assert(t.latch_inputs[j] == s.latch_inputs[j]);
        }
    }
}

/// Adding an AND gate, raw or optimized.
proof fn lemma_and_in_order(s: ParseState, lhs: nat, rhs0: nat, rhs1: nat, pos: int, pre_optimize: bool)
    requires
        state_in_order(s),
        add_and_step(s, lhs, rhs0, rhs1, pos, pre_optimize) is Ok,
    ensures
        ({
            let t = add_and_step(s, lhs, rhs0, rhs1, pos, pre_optimize)->Ok_0;
            &&& state_in_order(t)
            &&& t.b.graph.inputs == s.b.graph.inputs
            &&& t.b.graph.latches == s.b.graph.latches
            &&& t.label_lits == s.label_lits
        }),
{
    let n = s.b.graph.nodes.len() as int;
    let left = lits_get(s.lits, rhs0)->0;
    let right = lits_get(s.lits, rhs1)->0;
    lemma_lits_closed_get(s.lits, n, rhs0);
    lemma_lits_closed_get(s.lits, n, rhs1);
    if n <= MAX_GRAPH_INDEX {
        lemma_index_roundtrip(n);
    }
    let t = add_and_step(s, lhs, rhs0, rhs1, pos, pre_optimize)->Ok_0;
    let (b, id) = if pre_optimize {
        model_add_and_optimized(s.b, left, right)
    } else {
        model_add_and_raw(s.b, left, right)
    };
    let n2 = b.graph.nodes.len() as int;
    assert(n2 == n || n2 == n + 1);
    assert(id.is_signal_of(n2)) by {
        if pre_optimize {
            let (a, c) = ordered_children(left, right);
            let key = strash_key(a, c);
            if and_shortcut(left, right) is None && s.b.strash.contains_key(key) {
                assert(s.b.strash[key].is_signal_of(n));
            }
        }
    }
    lemma_lits_closed_grow(s.lits, n, n2);
    lemma_lits_closed_add(s.lits, n2, lhs, id);
    assert(forall|i: int| 0 <= i < n ==> b.graph.nodes[i] == s.b.graph.nodes[i]);
    assert forall|k: u64| #[trigger] b.strash.contains_key(k) implies b.strash[k].is_signal_of(n2) by {
        if s.b.strash.contains_key(k) && b.strash[k] == s.b.strash[k] {
            assert(s.b.strash[k].is_signal_of(n));
        }
    }
}


/// What a phase of kind `kind` keeps: only inputs while reading inputs, only
/// inputs and latches while reading latches.
pub open spec fn phase_ok(s: ParseState, kind: Step) -> bool {
    match kind {
        Step::AsciiInput | Step::BinaryInput => s.b.graph.nodes.len() == s.b.graph.inputs.len(),
        Step::AsciiLatch | Step::BinaryLatch => s.b.graph.nodes.len() == s.b.graph.inputs.len()
            + s.b.graph.latches.len(),
        _ => true,
    }
}

/// The number of label literals that one step of kind `kind` adds.
pub open spec fn labels_added(kind: Step) -> nat {
    match kind {
        Step::Label => 1,
        _ => 0,
    }
}

/// One step of any kind keeps the state in order.
proof fn lemma_step_in_order(data: Seq<u8>, s: ParseState, idx: nat, kind: Step, h: AigerHeader, pre_optimize: bool)
    requires
        state_in_order(s),
        phase_ok(s, kind),
        step(data, s, idx, kind, h, pre_optimize) is Ok,
    ensures
        ({
            let t = step(data, s, idx, kind, h, pre_optimize)->Ok_0;
            &&& state_in_order(t)
            &&& phase_ok(t, kind)
            &&& t.label_lits.len() == s.label_lits.len() + labels_added(kind)
        }),
{
    match kind {
        Step::AsciiInput => {
            let (lit, next) = line_int(data, s.pos)->Ok_0;
            lemma_input_in_order(s, lit, next);
        },
        Step::AsciiLatch => {
            let (v, next) = line_ints(data, s.pos, 2)->Ok_0;
            lemma_latch_in_order(s, v[0], v[1], next);
        },
        Step::Label => {},
        Step::AsciiAnd => {
            let (v, next) = line_ints(data, s.pos, 3)->Ok_0;
            lemma_and_in_order(s, v[0], v[1], v[2], next, pre_optimize);
        },
        Step::BinaryInput => {
            lemma_input_in_order(s, 2 * (idx + 1), s.pos);
        },
        Step::BinaryLatch => {
            let (next_lit, next) = line_int(data, s.pos)->Ok_0;
            lemma_latch_in_order(s, (2 * (h.num_inputs + idx + 1)) as nat, next_lit, next);
        },
        Step::BinaryAnd => {
            let lhs = 2 * (h.num_inputs + h.num_latches + idx + 1);
            let (delta0, p0) = delta_scan(data, s.pos, 0, 0)->Ok_0;
            let (delta1, p1) = delta_scan(data, p0, 0, 0)->Ok_0;
            lemma_and_in_order(
                s,
                lhs as nat,
                (lhs - delta0) as nat,
                (lhs - delta0 - delta1) as nat,
                p1,
                pre_optimize,
            );
        },
    }
}

/// A phase of `k` steps keeps the state in order.
proof fn lemma_run_in_order(data: Seq<u8>, s: ParseState, k: nat, kind: Step, h: AigerHeader, pre_optimize: bool)
    requires
        state_in_order(s),
        phase_ok(s, kind),
        run_steps(data, s, k, kind, h, pre_optimize) is Ok,
    ensures
        ({
            let t = run_steps(data, s, k, kind, h, pre_optimize)->Ok_0;
            &&& state_in_order(t)
            &&& phase_ok(t, kind)
            &&& t.label_lits.len() == s.label_lits.len() + (if kind is Label {
                k
            } else {
                0
            })
        }),
    decreases k,
{
    if k > 0 {
        let k1 = (k - 1) as nat;
        lemma_run_in_order(data, s, k1, kind, h, pre_optimize);
        let t1 = run_steps(data, s, k1, kind, h, pre_optimize)->Ok_0;
        lemma_step_in_order(data, t1, k1, kind, h, pre_optimize);
    }
}


/// Setting the next states of the latches keeps the graph in order.
pub(crate) proof fn lemma_resolve_latches_in_order(b: BuilderModel, lits: Seq<NodeId>, li: Seq<(NodeId, usize)>)
    requires
        in_aiger_order(b.graph),
        lits_closed(lits, b.graph.nodes.len() as int),
        li.len() <= b.graph.latches.len(),
        forall|j: int| 0 <= j < li.len() ==> (#[trigger] li[j]).0 == b.graph.latches[j],
        resolve_latches(b, lits, li) is Ok,
    ensures
        ({
            let b2 = resolve_latches(b, lits, li)->Ok_0;
            &&& in_aiger_order(b2.graph)
            &&& b2.graph.nodes.len() == b.graph.nodes.len()
            &&& b2.graph.inputs == b.graph.inputs
            &&& b2.graph.latches == b.graph.latches
            &&& b2.graph.outputs == b.graph.outputs
            &&& b2.graph.bad_states == b.graph.bad_states
            &&& b2.graph.constraints == b.graph.constraints
            &&& b2.graph.justice == b.graph.justice
            &&& b2.graph.fairness == b.graph.fairness
        }),
    decreases li.len(),
{
    if li.len() > 0 {
        let rest = li.drop_last();
        assert forall|j: int| 0 <= j < rest.len() implies (#[trigger] rest[j]).0 == b.graph.latches[j] by {
            assert(rest[j] == li[j]);
        }
        lemma_resolve_latches_in_order(b, lits, rest);
        let b2 = resolve_latches(b, lits, rest)->Ok_0;
        let (id, lit) = li.last();
        let n = b.graph.nodes.len() as int;
        let ni = b.graph.inputs.len() as int;
        let j = li.len() - 1;
        lemma_lits_closed_get(lits, n, lit as nat);
        let x = lits_get(lits, lit as nat)->0;
        assert(id == b.graph.latches[j]);
        assert(id == NodeId::spec_from_index(ni + j));
        lemma_index_roundtrip(ni + j);
        let b3 = model_set_latch_input(b2, id, x);
        assert(forall|i: int| 0 <= i < n && i != ni + j ==> b3.graph.nodes[i] == b2.graph.nodes[i]);
        assert(b3.graph.nodes[ni + j] == AigNode { left: NodeId(NODE_ID_MASK), right: x });
    }
}

/// The total number of labels of a graph.
pub open spec fn label_count(m: GraphModel) -> nat {
    m.outputs.len() + m.bad_states.len() + m.constraints.len() + m.justice.len() + m.fairness.len()
}

/// Adding labels from the literal map keeps every label a signal.
pub(crate) proof fn lemma_resolve_labels_in_order(b: BuilderModel, lits: Seq<NodeId>, ll: Seq<usize>, h: AigerHeader)
    requires
        lits_closed(lits, b.graph.nodes.len() as int),
        all_signals(b.graph.outputs, b.graph.nodes.len() as int),
        all_signals(b.graph.bad_states, b.graph.nodes.len() as int),
        all_signals(b.graph.constraints, b.graph.nodes.len() as int),
        all_signals(b.graph.justice, b.graph.nodes.len() as int),
        all_signals(b.graph.fairness, b.graph.nodes.len() as int),
        resolve_labels(b, lits, ll, h) is Ok,
    ensures
        ({
            let b2 = resolve_labels(b, lits, ll, h)->Ok_0;
            let n = b.graph.nodes.len() as int;
            &&& b2.graph.nodes == b.graph.nodes
            &&& b2.graph.inputs == b.graph.inputs
            &&& b2.graph.latches == b.graph.latches
            &&& all_signals(b2.graph.outputs, n)
            &&& all_signals(b2.graph.bad_states, n)
            &&& all_signals(b2.graph.constraints, n)
            &&& all_signals(b2.graph.justice, n)
            &&& all_signals(b2.graph.fairness, n)
            &&& label_count(b2.graph) == label_count(b.graph) + ll.len()
        }),
    decreases ll.len(),
{
    if ll.len() > 0 {
        lemma_resolve_labels_in_order(b, lits, ll.drop_last(), h);
        let b2 = resolve_labels(b, lits, ll.drop_last(), h)->Ok_0;
        let n = b.graph.nodes.len() as int;
        lemma_lits_closed_get(lits, n, ll.last() as nat);
        let x = lits_get(lits, ll.last() as nat)->0;
        let b3 = model_add_label(b2, label_kind(h, ll.len() - 1), x);
        assert(all_signals(b3.graph.outputs, n));
        assert(all_signals(b3.graph.bad_states, n));
        assert(all_signals(b3.graph.constraints, n));
        assert(all_signals(b3.graph.justice, n));
        assert(all_signals(b3.graph.fairness, n));
    }
}


/// The parse state after the node and label phases of a body parse.
pub open spec fn phases_end(data: Seq<u8>, pos: int, h: AigerHeader, pre_optimize: bool, ascii: bool) -> ParseState {
    let input_kind = if ascii { Step::AsciiInput } else { Step::BinaryInput };
    let latch_kind = if ascii { Step::AsciiLatch } else { Step::BinaryLatch };
    let and_kind = if ascii { Step::AsciiAnd } else { Step::BinaryAnd };
    let s1 = run_steps(data, initial_state(h, pos), h.num_inputs as nat, input_kind, h, pre_optimize)->Ok_0;
    let s2 = run_steps(data, s1, h.num_latches as nat, latch_kind, h, pre_optimize)->Ok_0;
    let s3 = run_steps(data, s2, num_labels(h) as nat, Step::Label, h, pre_optimize)->Ok_0;
    run_steps(data, s3, h.num_and_gates as nat, and_kind, h, pre_optimize)->Ok_0
}

/// The graph a body parse yields is the phases' graph with its latches and
/// labels resolved.
pub(crate) proof fn lemma_body_result(data: Seq<u8>, pos: int, h: AigerHeader, pre_optimize: bool, ascii: bool)
    requires
        spec_parse_body(data, pos, h, pre_optimize, ascii) is Ok,
    ensures
        ({
            let s4 = phases_end(data, pos, h, pre_optimize, ascii);
            &&& resolve_latches(s4.b, s4.lits, s4.latch_inputs) is Ok
            &&& resolve_labels(resolve_latches(s4.b, s4.lits, s4.latch_inputs)->Ok_0, s4.lits, s4.label_lits, h) is Ok
            &&& spec_parse_body(data, pos, h, pre_optimize, ascii)->Ok_0.graph == resolve_labels(
                resolve_latches(s4.b, s4.lits, s4.latch_inputs)->Ok_0,
                s4.lits,
                s4.label_lits,
                h,
            )->Ok_0.graph
        }),
{
}

/// The phases of a parse keep the state in order and read one literal per
/// label.
pub(crate) proof fn lemma_phases_in_order(data: Seq<u8>, pos: int, h: AigerHeader, pre_optimize: bool, ascii: bool)
    requires
        spec_parse_body(data, pos, h, pre_optimize, ascii) is Ok,
    ensures
        state_in_order(phases_end(data, pos, h, pre_optimize, ascii)),
        phases_end(data, pos, h, pre_optimize, ascii).label_lits.len() == num_labels(h),
{
    let s0 = initial_state(h, pos);
    let input_kind = if ascii { Step::AsciiInput } else { Step::BinaryInput };
    let latch_kind = if ascii { Step::AsciiLatch } else { Step::BinaryLatch };
    let and_kind = if ascii { Step::AsciiAnd } else { Step::BinaryAnd };
    assert(state_in_order(s0));
    lemma_run_in_order(data, s0, h.num_inputs as nat, input_kind, h, pre_optimize);
    let s1 = run_steps(data, s0, h.num_inputs as nat, input_kind, h, pre_optimize)->Ok_0;
    lemma_run_in_order(data, s1, h.num_latches as nat, latch_kind, h, pre_optimize);
    let s2 = run_steps(data, s1, h.num_latches as nat, latch_kind, h, pre_optimize)->Ok_0;
    let nlab = num_labels(h) as nat;
    lemma_run_in_order(data, s2, nlab, Step::Label, h, pre_optimize);
    let s3 = run_steps(data, s2, nlab, Step::Label, h, pre_optimize)->Ok_0;
    lemma_run_in_order(data, s3, h.num_and_gates as nat, and_kind, h, pre_optimize);
}

/// Every graph that a body parse yields is in AIGER order.
pub(crate) proof fn lemma_body_in_order(data: Seq<u8>, pos: int, h: AigerHeader, pre_optimize: bool, ascii: bool)
    requires
        spec_parse_body(data, pos, h, pre_optimize, ascii) is Ok,
    ensures
        in_aiger_order(spec_parse_body(data, pos, h, pre_optimize, ascii)->Ok_0.graph),
{
    lemma_body_result(data, pos, h, pre_optimize, ascii);
    lemma_phases_in_order(data, pos, h, pre_optimize, ascii);
    let s4 = phases_end(data, pos, h, pre_optimize, ascii);
    lemma_resolve_latches_in_order(s4.b, s4.lits, s4.latch_inputs);
    let b4 = resolve_latches(s4.b, s4.lits, s4.latch_inputs)->Ok_0;
    lemma_resolve_labels_in_order(b4, s4.lits, s4.label_lits, h);
}

/// Every graph that parsing yields is laid out in AIGER order: inputs
/// first, then latches, then AND nodes that refer only to nodes before
/// them, with every latch and label referring to a signal of the graph.
pub proof fn lemma_parsed_graph_in_aiger_order(data: Seq<u8>, pos: int, pre_optimize: bool)
    requires
        spec_parse(data, pos, pre_optimize) is Ok,
    ensures
        in_aiger_order(spec_parse(data, pos, pre_optimize)->Ok_0.graph),
{
    let (line, next) = next_line(data, pos);
    let h = spec_header(line)->Ok_0;
    lemma_body_in_order(data, next, h, pre_optimize, h.is_ascii);
}


/// The AND gates of a graph in AIGER order are the nodes after its inputs
/// and latches.
proof fn lemma_order_and_ids(m: GraphModel, n: int)
    requires
        in_aiger_order(m),
        0 <= n <= m.nodes.len(),
    ensures
        and_gate_ids(m.nodes.take(n)).len() == if n <= m.inputs.len() + m.latches.len() {
            0
        } else {
            n - m.inputs.len() - m.latches.len()
        },
    decreases n,
{
    if n > 0 {
        lemma_order_and_ids(m, n - 1);
        assert(m.nodes.take(n).drop_last() =~= m.nodes.take(n - 1));
        let ni = m.inputs.len() as int;
        let i = n - 1;
        if i < ni {
            assert(m.inputs[i] == NodeId::spec_from_index(i));
        } else if i < ni + m.latches.len() {
            assert(m.latches[i - ni] == NodeId::spec_from_index(ni + (i - ni)));
        } else {
            assert(m.nodes[i].left.is_signal_of(i));
        }
    } else {
        assert(m.nodes.take(0) =~= Seq::<AigNode>::empty());
    }
}

/// A graph in AIGER order lists its node kinds: its inputs and latches are
/// the nodes that are not AND nodes.
pub proof fn lemma_order_kinds_listed(m: GraphModel)
    requires
        in_aiger_order(m),
    ensures
        node_kinds_listed(m.nodes, m.inputs, m.latches),
{
    let ni = m.inputs.len() as int;
    let nl = m.latches.len() as int;
    lemma_order_and_ids(m, m.nodes.len() as int);
    assert(m.nodes.take(m.nodes.len() as int) =~= m.nodes);
    assert forall|i: int|
        0 <= i < m.nodes.len() && !(#[trigger] m.nodes[i]).spec_is_and() implies lists_index(m.inputs, i)
        || lists_index(m.latches, i) by {
        if i < ni {
            assert(m.inputs[i] == NodeId::spec_from_index(i));
        } else if i < ni + nl {
            assert(m.latches[i - ni] == NodeId::spec_from_index(ni + (i - ni)));
        } else {
            assert(m.nodes[i].left.is_signal_of(i));
        }
    }
}

/// Every graph that parsing yields lists its node kinds.
pub proof fn lemma_parsed_graph_kinds_listed(data: Seq<u8>, pos: int, pre_optimize: bool)
    requires
        spec_parse(data, pos, pre_optimize) is Ok,
    ensures
        ({
            let m = spec_parse(data, pos, pre_optimize)->Ok_0.graph;
            node_kinds_listed(m.nodes, m.inputs, m.latches)
        }),
{
    lemma_parsed_graph_in_aiger_order(data, pos, pre_optimize);
    lemma_order_kinds_listed(spec_parse(data, pos, pre_optimize)->Ok_0.graph);
}

} // verus!
