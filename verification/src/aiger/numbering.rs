//! How a binary AIGER file numbers its variables.
//!
//! A binary file does not list the literals of its inputs, latches and AND
//! gates: the inputs are the variables `1..=I`, the latches the next `L`
//! and the AND gates the last `A`, in order. Parsing one therefore gives the
//! variable `v` to the `v`-th node, whose signal is `NodeId(2 * v)`.

use crate::aiger::model::{
    delta_bytes, delta_scan, initial_state, lemma_delta_scan_decodes, lits_add, lits_get, num_labels, resolve_latches, run_steps,
    spec_parse_body, step, ParseState, Step,
};
use crate::aiger::order::{
    lemma_body_result, lemma_phases_in_order, lemma_resolve_labels_in_order, lemma_resolve_latches_in_order,
    phases_end, state_in_order,
};
use crate::aiger::AigerHeader;
use crate::graph::{model_add_and_optimized, model_add_and_raw, AigNode, NodeId, MAX_GRAPH_INDEX};
use vstd::prelude::*;

verus! {

/// Every literal of the variables `1..=m` gives the signal with the same
/// number: literal `2 * v` the `v`-th node, literal `2 * v + 1` its inversion.
pub open spec fn literals_are_ids(lits: Seq<NodeId>, m: int) -> bool {
    forall|lit: nat| 2 <= lit < 2 * (m + 1) ==> #[trigger] lits_get(lits, lit) == Some(NodeId(lit as u32))
}

/// Recording variable `m + 1` as node `m` extends the numbering by one.
proof fn lemma_record_next_variable(lits: Seq<NodeId>, m: int, lit: nat, id: NodeId)
    requires
        0 <= m <= MAX_GRAPH_INDEX,
        literals_are_ids(lits, m),
        lit == 2 * (m + 1),
        id == NodeId::spec_from_index(m),
        lits_add(lits, lit, id) is Some,
    ensures
        literals_are_ids(lits_add(lits, lit, id)->0, m + 1),
{
    let t = lits_add(lits, lit, id)->0;
    assert forall|l: nat| 2 <= l < 2 * (m + 2) implies #[trigger] lits_get(t, l) == Some(NodeId(l as u32)) by {
        let v = (l / 2) as int;
        if v <= m {
            assert(t[v] == lits[v]);
            assert(lits_get(lits, l) == Some(NodeId(l as u32)));
        } else {
            assert(v == m + 1);
            assert(t[v] == id);
        }
    }
}

/// Recording a variable beyond `m` leaves the numbering of `1..=m` as it is.
proof fn lemma_record_later_variable(lits: Seq<NodeId>, m: int, lit: nat, id: NodeId)
    requires
        literals_are_ids(lits, m),
        lit / 2 > m,
        lits_add(lits, lit, id) is Some,
    ensures
        literals_are_ids(lits_add(lits, lit, id)->0, m),
{
    let t = lits_add(lits, lit, id)->0;
    assert forall|l: nat| 2 <= l < 2 * (m + 1) implies #[trigger] lits_get(t, l) == Some(NodeId(l as u32)) by {
        let v = (l / 2) as int;
        assert(t[v] == lits[v]);
        assert(lits_get(lits, l) == Some(NodeId(l as u32)));
    }
}

/// The first variable of the phase of `kind`: inputs, latches or raw AND
/// gates.
pub open spec fn phase_base(kind: Step, h: AigerHeader) -> int {
    match kind {
        Step::BinaryLatch => h.num_inputs as int,
        Step::BinaryAnd => h.num_inputs + h.num_latches,
        _ => 0,
    }
}

/// A binary step that adds a node: an input, a latch, or a raw AND gate.
pub open spec fn numbered_step(kind: Step, pre_optimize: bool) -> bool {
    kind is BinaryInput || kind is BinaryLatch || (kind is BinaryAnd && !pre_optimize)
}

/// One binary step that adds a node gives it the next variable.
proof fn lemma_numbered_step(data: Seq<u8>, s: ParseState, idx: nat, kind: Step, h: AigerHeader, pre_optimize: bool)
    requires
        numbered_step(kind, pre_optimize),
        s.b.graph.nodes.len() == phase_base(kind, h) + idx,
        literals_are_ids(s.lits, phase_base(kind, h) + idx),
        step(data, s, idx, kind, h, pre_optimize) is Ok,
    ensures
        ({
            let t = step(data, s, idx, kind, h, pre_optimize)->Ok_0;
            &&& t.b.graph.nodes.len() == phase_base(kind, h) + idx + 1
            &&& literals_are_ids(t.lits, phase_base(kind, h) + idx + 1)
            &&& t.b.graph.inputs.len() == s.b.graph.inputs.len() + if kind is BinaryInput {
                1int
            } else {
                0
            }
            &&& t.b.graph.latches.len() == s.b.graph.latches.len() + if kind is BinaryLatch {
                1int
            } else {
                0
            }
        }),
{
    let m = phase_base(kind, h) + idx;
    let id = NodeId::spec_from_index(m);
    match kind {
        Step::BinaryInput => {
            lemma_record_next_variable(s.lits, m, 2 * (idx + 1), id);
        },
        Step::BinaryLatch => {
            lemma_record_next_variable(s.lits, m, (2 * (h.num_inputs + idx + 1)) as nat, id);
        },
        Step::BinaryAnd => {
            let lhs = 2 * (h.num_inputs + h.num_latches + idx + 1);
            let (delta0, p0) = delta_scan(data, s.pos, 0, 0)->Ok_0;
            let (delta1, p1) = delta_scan(data, p0, 0, 0)->Ok_0;
            let left = lits_get(s.lits, (lhs - delta0) as nat)->0;
            let right = lits_get(s.lits, (lhs - delta0 - delta1) as nat)->0;
            assert(model_add_and_raw(s.b, left, right).1 == id);
            lemma_record_next_variable(s.lits, m, lhs as nat, id);
        },
        _ => {},
    }
}

/// A phase of binary steps that add nodes gives them the variables after
/// the phase's base, in order.
proof fn lemma_numbered_run(data: Seq<u8>, s: ParseState, k: nat, kind: Step, h: AigerHeader, pre_optimize: bool)
    requires
        numbered_step(kind, pre_optimize),
        s.b.graph.nodes.len() == phase_base(kind, h),
        literals_are_ids(s.lits, phase_base(kind, h)),
        run_steps(data, s, k, kind, h, pre_optimize) is Ok,
    ensures
        ({
            let t = run_steps(data, s, k, kind, h, pre_optimize)->Ok_0;
            &&& t.b.graph.nodes.len() == phase_base(kind, h) + k
            &&& literals_are_ids(t.lits, phase_base(kind, h) + k)
            &&& t.b.graph.inputs.len() == s.b.graph.inputs.len() + if kind is BinaryInput {
                k as int
            } else {
                0
            }
            &&& t.b.graph.latches.len() == s.b.graph.latches.len() + if kind is BinaryLatch {
                k as int
            } else {
                0
            }
        }),
    decreases k,
{
    if k > 0 {
        let k1 = (k - 1) as nat;
        lemma_numbered_run(data, s, k1, kind, h, pre_optimize);
        let t1 = run_steps(data, s, k1, kind, h, pre_optimize)->Ok_0;
        lemma_numbered_step(data, t1, k1, kind, h, pre_optimize);
    }
}

/// Label steps, and binary AND steps with pre-optimization, keep the
/// numbering of the inputs and latches.
proof fn lemma_run_keeps_numbering(
    data: Seq<u8>,
    s: ParseState,
    k: nat,
    kind: Step,
    h: AigerHeader,
    pre_optimize: bool,
    m: int,
)
    requires
        kind is Label || kind is BinaryAnd,
        m <= h.num_inputs + h.num_latches,
        literals_are_ids(s.lits, m),
        run_steps(data, s, k, kind, h, pre_optimize) is Ok,
    ensures
        ({
            let t = run_steps(data, s, k, kind, h, pre_optimize)->Ok_0;
            &&& literals_are_ids(t.lits, m)
            &&& t.b.graph.inputs == s.b.graph.inputs
            &&& t.b.graph.latches == s.b.graph.latches
            &&& (kind is Label ==> t.b == s.b)
        }),
    decreases k,
{
    if k > 0 {
        let k1 = (k - 1) as nat;
        lemma_run_keeps_numbering(data, s, k1, kind, h, pre_optimize, m);
        let t1 = run_steps(data, s, k1, kind, h, pre_optimize)->Ok_0;
        if kind is BinaryAnd {
            let lhs = 2 * (h.num_inputs + h.num_latches + k1 + 1);
            let (delta0, p0) = delta_scan(data, t1.pos, 0, 0)->Ok_0;
            let (delta1, p1) = delta_scan(data, p0, 0, 0)->Ok_0;
            let left = lits_get(t1.lits, (lhs - delta0) as nat)->0;
            let right = lits_get(t1.lits, (lhs - delta0 - delta1) as nat)->0;
            let (b, id) = if pre_optimize {
                model_add_and_optimized(t1.b, left, right)
            } else {
                model_add_and_raw(t1.b, left, right)
            };
            lemma_record_later_variable(t1.lits, m, lhs as nat, id);
        }
    }
}

/// The numbering after the phases of a binary body parse.
proof fn lemma_phases_numbering(data: Seq<u8>, pos: int, h: AigerHeader, pre_optimize: bool)
    requires
        spec_parse_body(data, pos, h, pre_optimize, false) is Ok,
    ensures
        ({
            let s4 = phases_end(data, pos, h, pre_optimize, false);
            &&& literals_are_ids(s4.lits, h.num_inputs + h.num_latches)
            &&& !pre_optimize ==> literals_are_ids(s4.lits, h.num_inputs + h.num_latches + h.num_and_gates)
            &&& s4.b.graph.inputs.len() == h.num_inputs
            &&& s4.b.graph.latches.len() == h.num_latches
        }),
{
    let s0 = initial_state(h, pos);
    let ni = h.num_inputs as nat;
    let nl = h.num_latches as nat;
    let nlab = num_labels(h) as nat;
    let na = h.num_and_gates as nat;
    assert(literals_are_ids(s0.lits, 0));
    lemma_numbered_run(data, s0, ni, Step::BinaryInput, h, pre_optimize);
    let s1 = run_steps(data, s0, ni, Step::BinaryInput, h, pre_optimize)->Ok_0;
    lemma_numbered_run(data, s1, nl, Step::BinaryLatch, h, pre_optimize);
    let s2 = run_steps(data, s1, nl, Step::BinaryLatch, h, pre_optimize)->Ok_0;
    let m = h.num_inputs + h.num_latches;
    lemma_run_keeps_numbering(data, s2, nlab, Step::Label, h, pre_optimize, m);
    let s3 = run_steps(data, s2, nlab, Step::Label, h, pre_optimize)->Ok_0;
    lemma_run_keeps_numbering(data, s3, na, Step::BinaryAnd, h, pre_optimize, m);
    if !pre_optimize {
        lemma_numbered_run(data, s3, na, Step::BinaryAnd, h, pre_optimize);
    }
}

/// The inputs and latches of a body parse's graph are those of its phases.
proof fn lemma_body_keeps_inputs_latches(data: Seq<u8>, pos: int, h: AigerHeader, pre_optimize: bool)
    requires
        spec_parse_body(data, pos, h, pre_optimize, false) is Ok,
    ensures
        ({
            let s4 = phases_end(data, pos, h, pre_optimize, false);
            let g = spec_parse_body(data, pos, h, pre_optimize, false)->Ok_0.graph;
            &&& state_in_order(s4)
            &&& g.inputs == s4.b.graph.inputs
            &&& g.latches == s4.b.graph.latches
        }),
{
    let s4 = phases_end(data, pos, h, pre_optimize, false);
    lemma_body_result(data, pos, h, pre_optimize, false);
    lemma_phases_in_order(data, pos, h, pre_optimize, false);
    lemma_resolve_latches_in_order(s4.b, s4.lits, s4.latch_inputs);
    let b4 = resolve_latches(s4.b, s4.lits, s4.latch_inputs)->Ok_0;
    lemma_resolve_labels_in_order(b4, s4.lits, s4.label_lits, h);
}

/// In a binary file, the variables of the inputs and latches are fixed by
/// their positions: after the parse phases, the literal `2 * (i + 1)` gives
/// the `i`-th input and the literal `2 * (I + k + 1)` the `k`-th latch, and
/// every literal of a variable `v` of them gives the signal numbered like
/// it (node `v - 1`). Without pre-optimization the same holds of every
/// variable up to `I + L + A`, AND gates included. The latches' next states
/// and the labels are read through this map.
pub proof fn lemma_binary_literals_name_nodes(data: Seq<u8>, pos: int, h: AigerHeader, pre_optimize: bool)
    requires
        spec_parse_body(data, pos, h, pre_optimize, false) is Ok,
    ensures
        ({
            let s4 = phases_end(data, pos, h, pre_optimize, false);
            let g = spec_parse_body(data, pos, h, pre_optimize, false)->Ok_0.graph;
            &&& literals_are_ids(s4.lits, h.num_inputs + h.num_latches)
            &&& !pre_optimize ==> literals_are_ids(s4.lits, h.num_inputs + h.num_latches + h.num_and_gates)
            &&& g.inputs.len() == h.num_inputs
            &&& g.latches.len() == h.num_latches
            &&& forall|i: int|
                0 <= i < h.num_inputs ==> lits_get(s4.lits, (2 * (i + 1)) as nat) == Some(#[trigger] g.inputs[i])
            &&& forall|k: int|
                0 <= k < h.num_latches ==> lits_get(s4.lits, (2 * (h.num_inputs + k + 1)) as nat) == Some(
                    #[trigger] g.latches[k],
                )
        }),
{
    let s4 = phases_end(data, pos, h, pre_optimize, false);
    let g = spec_parse_body(data, pos, h, pre_optimize, false)->Ok_0.graph;
    lemma_phases_numbering(data, pos, h, pre_optimize);
    lemma_body_keeps_inputs_latches(data, pos, h, pre_optimize);
    assert forall|i: int| 0 <= i < h.num_inputs implies lits_get(s4.lits, (2 * (i + 1)) as nat) == Some(
        #[trigger] g.inputs[i],
    ) by {
        assert(g.inputs[i] == NodeId::spec_from_index(i));
        assert(lits_get(s4.lits, (2 * (i + 1)) as nat) == Some(NodeId(((2 * (i + 1)) as nat) as u32)));
    }
    assert forall|k: int| 0 <= k < h.num_latches implies lits_get(s4.lits, (2 * (h.num_inputs + k + 1)) as nat)
        == Some(#[trigger] g.latches[k]) by {
        assert(g.latches[k] == NodeId::spec_from_index(h.num_inputs + k));
        assert(lits_get(s4.lits, (2 * (h.num_inputs + k + 1)) as nat) == Some(
            NodeId(((2 * (h.num_inputs + k + 1)) as nat) as u32),
        ));
    }
}

/// An AND gate `2v = r0 & r1` stored as its two deltas, `2v - r0` and then
/// `r0 - r1` (so `r1 <= r0 < 2v`), is read back without pre-optimization as
/// the `v`-th node, whose children are the signals numbered `r0` and `r1`;
/// the parse goes on after the two deltas.
pub proof fn lemma_binary_and_reads_back(data: Seq<u8>, s: ParseState, idx: nat, h: AigerHeader, r0: nat, r1: nat)
    requires
        s.b.graph.nodes.len() == h.num_inputs + h.num_latches + idx,
        s.b.graph.nodes.len() <= MAX_GRAPH_INDEX,
        literals_are_ids(s.lits, h.num_inputs + h.num_latches + idx),
        s.lits.len() > h.num_inputs + h.num_latches + idx + 1,
        s.lits[0] == NodeId(0),
        2 * (h.num_inputs + h.num_latches + idx + 1) <= usize::MAX,
        r1 <= r0 < 2 * (h.num_inputs + h.num_latches + idx + 1),
        0 <= s.pos,
        s.pos + (delta_bytes((2 * (h.num_inputs + h.num_latches + idx + 1) - r0) as nat) + delta_bytes(
            (r0 - r1) as nat,
        )).len() <= data.len(),
        data.subrange(
            s.pos,
            s.pos + (delta_bytes((2 * (h.num_inputs + h.num_latches + idx + 1) - r0) as nat) + delta_bytes(
                (r0 - r1) as nat,
            )).len(),
        ) == delta_bytes((2 * (h.num_inputs + h.num_latches + idx + 1) - r0) as nat) + delta_bytes(
            (r0 - r1) as nat,
        ),
    ensures
        ({
            let v = h.num_inputs + h.num_latches + idx + 1;
            let e = delta_bytes((2 * v - r0) as nat) + delta_bytes((r0 - r1) as nat);
            let r = step(data, s, idx, Step::BinaryAnd, h, false);
            &&& r is Ok
            &&& r->Ok_0.b.graph.nodes == s.b.graph.nodes.push(
                AigNode { left: NodeId(r0 as u32), right: NodeId(r1 as u32) },
            )
            &&& r->Ok_0.pos == s.pos + e.len()
            &&& literals_are_ids(r->Ok_0.lits, v)
        }),
{
    let v = h.num_inputs + h.num_latches + idx + 1;
    let lhs = 2 * v;
    let d0 = (lhs - r0) as usize;
    let d1 = (r0 - r1) as usize;
    let e0 = delta_bytes(d0 as nat);
    let e1 = delta_bytes(d1 as nat);
    let e = e0 + e1;
    let p = s.pos;
    assert(data.subrange(p, p + e0.len()) =~= e0) by {
        assert forall|j: int| 0 <= j < e0.len() implies data.subrange(p, p + e0.len())[j] == e0[j] by {
            assert(data.subrange(p, p + e.len())[j] == e[j]);
        }
    }
    assert(data.subrange(p + e0.len(), p + e0.len() + e1.len()) =~= e1) by {
        assert forall|j: int| 0 <= j < e1.len() implies data.subrange(p + e0.len(), p + e0.len() + e1.len())[j]
            == e1[j] by {
            assert(data.subrange(p, p + e.len())[e0.len() + j] == e[e0.len() + j]);
        }
    }
    lemma_delta_scan_decodes(data, p, d0);
    lemma_delta_scan_decodes(data, p + e0.len(), d1);
    let m = v - 1;
    assert(lits_get(s.lits, r0) == Some(NodeId(r0 as u32))) by {
        if r0 >= 2 {
            assert(lits_get(s.lits, r0) == Some(NodeId(r0 as u32)));
        }
    }
    assert(lits_get(s.lits, r1) == Some(NodeId(r1 as u32))) by {
        if r1 >= 2 {
            assert(lits_get(s.lits, r1) == Some(NodeId(r1 as u32)));
        }
    }
    let id = NodeId::spec_from_index(m);
    assert(model_add_and_raw(s.b, NodeId(r0 as u32), NodeId(r1 as u32)).1 == id);
    lemma_record_next_variable(s.lits, m, lhs as nat, id);
}

} // verus!
