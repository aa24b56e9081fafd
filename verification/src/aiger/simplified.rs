//! What a pre-optimized parse leaves of the AND gates of a file.
//!
//! With pre-optimization every AND gate of the file, ASCII or binary, goes
//! through simplification and structural hashing, so no AND node of the
//! graph could have been simplified away or shared with an earlier one.

use crate::aiger::model::{
    delta_scan, initial_state, line_ints, lits_get, next_line, num_labels, resolve_labels, resolve_latches,
    run_steps, spec_parse, spec_parse_body, step, ParseState, Step,
};
use crate::aiger::{spec_header, AigerHeader};
use crate::graph::{
    and_shortcut, lemma_invert_involution, model_add_and_optimized, model_add_input, model_add_latch,
    model_set_latch_input, ordered_children, strash_key, AigNode, BuilderModel, NodeId,
};
use vstd::prelude::*;

verus! {

/// No AND node can be simplified away (no constant child, no two equal or
/// complementary children), its children stand smaller ID first, and no two
/// AND nodes have the same children.
pub open spec fn and_nodes_reduced(nodes: Seq<AigNode>) -> bool {
    &&& forall|k: int|
        0 <= k < nodes.len() && (#[trigger] nodes[k]).spec_is_and() ==> and_shortcut(nodes[k].left, nodes[k].right)
            is None && nodes[k].left.0 < nodes[k].right.0
    &&& forall|j: int, k: int|
        0 <= j < k < nodes.len() && (#[trigger] nodes[j]).spec_is_and() && (#[trigger] nodes[k]).spec_is_and()
            ==> nodes[j].left != nodes[k].left || nodes[j].right != nodes[k].right
}

/// The AND nodes are reduced and each is in the structural hash.
pub open spec fn builder_reduced(b: BuilderModel) -> bool {
    &&& and_nodes_reduced(b.graph.nodes)
    &&& forall|k: int|
        0 <= k < b.graph.nodes.len() && (#[trigger] b.graph.nodes[k]).spec_is_and() ==> b.strash.contains_key(
            strash_key(b.graph.nodes[k].left, b.graph.nodes[k].right),
        )
}

/// Adding a node that is no AND node keeps the builder reduced.
proof fn lemma_push_other_node(b: BuilderModel, c: BuilderModel, node: AigNode)
    requires
        builder_reduced(b),
        !node.spec_is_and(),
        c.graph.nodes == b.graph.nodes.push(node),
        c.strash == b.strash,
    ensures
        builder_reduced(c),
{
    let n = b.graph.nodes.len() as int;
    assert(forall|k: int| 0 <= k < n ==> c.graph.nodes[k] == b.graph.nodes[k]);
}

/// Adding an AND gate with simplification and structural hashing keeps the
/// builder reduced.
proof fn lemma_optimized_and_reduced(b: BuilderModel, left: NodeId, right: NodeId)
    requires
        builder_reduced(b),
    ensures
        builder_reduced(model_add_and_optimized(b, left, right).0),
{
    let (a, c) = ordered_children(left, right);
    let key = strash_key(a, c);
    if and_shortcut(left, right) is None && !b.strash.contains_key(key) {
        let b2 = model_add_and_optimized(b, left, right).0;
        let n = b.graph.nodes.len() as int;
        let nodes = b2.graph.nodes;
        assert(nodes[n] == AigNode { left: a, right: c });
        assert(forall|k: int| 0 <= k < n ==> nodes[k] == b.graph.nodes[k]);
        lemma_invert_involution(left);
        lemma_invert_involution(right);
        assert(and_shortcut(a, c) is None);
        assert(a.0 < c.0);
        assert forall|j: int, k: int|
            0 <= j < k < nodes.len() && (#[trigger] nodes[j]).spec_is_and() && (#[trigger] nodes[k]).spec_is_and()
                implies nodes[j].left != nodes[k].left || nodes[j].right != nodes[k].right by {
            if k == n {
                assert(b.strash.contains_key(strash_key(b.graph.nodes[j].left, b.graph.nodes[j].right)));
            }
        }
        assert forall|k: int| 0 <= k < nodes.len() && (#[trigger] nodes[k]).spec_is_and() implies b2.strash.contains_key(
            strash_key(nodes[k].left, nodes[k].right),
        ) by {
            if k < n {
                assert(b.strash.contains_key(strash_key(b.graph.nodes[k].left, b.graph.nodes[k].right)));
            }
        }
    }
}

/// One step of a pre-optimized parse keeps the builder reduced.
proof fn lemma_step_reduced(data: Seq<u8>, s: ParseState, idx: nat, kind: Step, h: AigerHeader)
    requires
        builder_reduced(s.b),
        step(data, s, idx, kind, h, true) is Ok,
    ensures
        builder_reduced(step(data, s, idx, kind, h, true)->Ok_0.b),
{
    let t = step(data, s, idx, kind, h, true)->Ok_0;
    match kind {
        Step::AsciiInput | Step::BinaryInput => {
            lemma_push_other_node(s.b, model_add_input(s.b).0, t.b.graph.nodes.last());
            assert(t.b == model_add_input(s.b).0);
        },
        Step::AsciiLatch | Step::BinaryLatch => {
            lemma_push_other_node(s.b, model_add_latch(s.b, NodeId(0)).0, t.b.graph.nodes.last());
            assert(t.b == model_add_latch(s.b, NodeId(0)).0);
        },
        Step::Label => {},
        Step::AsciiAnd => {
            let (v, next) = line_ints(data, s.pos, 3)->Ok_0;
            let left = lits_get(s.lits, v[1])->0;
            let right = lits_get(s.lits, v[2])->0;
            lemma_optimized_and_reduced(s.b, left, right);
        },
        Step::BinaryAnd => {
            let lhs = 2 * (h.num_inputs + h.num_latches + idx + 1);
            let (delta0, p0) = delta_scan(data, s.pos, 0, 0)->Ok_0;
            let (delta1, p1) = delta_scan(data, p0, 0, 0)->Ok_0;
            let left = lits_get(s.lits, (lhs - delta0) as nat)->0;
            let right = lits_get(s.lits, (lhs - delta0 - delta1) as nat)->0;
            lemma_optimized_and_reduced(s.b, left, right);
        },
    }
}

/// A phase of a pre-optimized parse keeps the builder reduced.
proof fn lemma_run_reduced(data: Seq<u8>, s: ParseState, k: nat, kind: Step, h: AigerHeader)
    requires
        builder_reduced(s.b),
        run_steps(data, s, k, kind, h, true) is Ok,
    ensures
        builder_reduced(run_steps(data, s, k, kind, h, true)->Ok_0.b),
    decreases k,
{
    if k > 0 {
        let k1 = (k - 1) as nat;
        lemma_run_reduced(data, s, k1, kind, h);
        lemma_step_reduced(data, run_steps(data, s, k1, kind, h, true)->Ok_0, k1, kind, h);
    }
}

/// Setting the next states of latches changes latch nodes only.
proof fn lemma_resolve_latches_reduced(b: BuilderModel, lits: Seq<NodeId>, li: Seq<(NodeId, usize)>)
    requires
        and_nodes_reduced(b.graph.nodes),
        resolve_latches(b, lits, li) is Ok,
    ensures
        and_nodes_reduced(resolve_latches(b, lits, li)->Ok_0.graph.nodes),
    decreases li.len(),
{
    if li.len() > 0 {
        lemma_resolve_latches_reduced(b, lits, li.drop_last());
        let b2 = resolve_latches(b, lits, li.drop_last())->Ok_0;
        let (id, lit) = li.last();
        let x = lits_get(lits, lit as nat)->0;
        let b3 = model_set_latch_input(b2, id, x);
        let i = id.spec_index();
        assert(!b3.graph.nodes[i].spec_is_and());
        assert(forall|k: int| 0 <= k < b2.graph.nodes.len() && k != i ==> b3.graph.nodes[k] == b2.graph.nodes[k]);
    }
}

/// Adding labels leaves the nodes as they are.
proof fn lemma_resolve_labels_nodes(b: BuilderModel, lits: Seq<NodeId>, ll: Seq<usize>, h: AigerHeader)
    requires
        resolve_labels(b, lits, ll, h) is Ok,
    ensures
        resolve_labels(b, lits, ll, h)->Ok_0.graph.nodes == b.graph.nodes,
    decreases ll.len(),
{
    if ll.len() > 0 {
        lemma_resolve_labels_nodes(b, lits, ll.drop_last(), h);
    }
}

/// The graph of a pre-optimized body parse has reduced AND nodes.
proof fn lemma_body_reduced(data: Seq<u8>, pos: int, h: AigerHeader, ascii: bool)
    requires
        spec_parse_body(data, pos, h, true, ascii) is Ok,
    ensures
        and_nodes_reduced(spec_parse_body(data, pos, h, true, ascii)->Ok_0.graph.nodes),
{
    let input_kind = if ascii { Step::AsciiInput } else { Step::BinaryInput };
    let latch_kind = if ascii { Step::AsciiLatch } else { Step::BinaryLatch };
    let and_kind = if ascii { Step::AsciiAnd } else { Step::BinaryAnd };
    let s0 = initial_state(h, pos);
    assert(builder_reduced(s0.b));
    lemma_run_reduced(data, s0, h.num_inputs as nat, input_kind, h);
    let s1 = run_steps(data, s0, h.num_inputs as nat, input_kind, h, true)->Ok_0;
    lemma_run_reduced(data, s1, h.num_latches as nat, latch_kind, h);
    let s2 = run_steps(data, s1, h.num_latches as nat, latch_kind, h, true)->Ok_0;
    lemma_run_reduced(data, s2, num_labels(h) as nat, Step::Label, h);
    let s3 = run_steps(data, s2, num_labels(h) as nat, Step::Label, h, true)->Ok_0;
    lemma_run_reduced(data, s3, h.num_and_gates as nat, and_kind, h);
    let s4 = run_steps(data, s3, h.num_and_gates as nat, and_kind, h, true)->Ok_0;
    lemma_resolve_latches_reduced(s4.b, s4.lits, s4.latch_inputs);
    let b5 = resolve_latches(s4.b, s4.lits, s4.latch_inputs)->Ok_0;
    lemma_resolve_labels_nodes(b5, s4.lits, s4.label_lits, h);
}

/// With pre-optimization, every AND gate of a file, ASCII or binary, is
/// simplified and structurally hashed: no AND node of the parsed graph has
/// a constant child or two equal or complementary children, its children
/// stand smaller ID first, and no two AND nodes have the same children.
pub proof fn lemma_pre_optimized_parse_reduced(data: Seq<u8>, pos: int)
    requires
        spec_parse(data, pos, true) is Ok,
    ensures
        and_nodes_reduced(spec_parse(data, pos, true)->Ok_0.graph.nodes),
{
    let (line, next) = next_line(data, pos);
    let h = spec_header(line)->Ok_0;
    lemma_body_reduced(data, next, h, h.is_ascii);
}

} // verus!
