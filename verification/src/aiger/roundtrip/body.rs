//! The header and body lines that the writer writes for a graph in AIGER
//! order, read back phase by phase.

use crate::aiger::{
    all_found, digits_end, digits_value, ints_scan, is_digit, opt_field, spaces_end, spec_header, word_end,
    AigerError, AigerHeader,
};
use crate::aiger::model::{
    initial_state, label_kind, lits_add, lits_get, lits_new, num_labels, resolve_labels, resolve_latches, run_steps,
    spec_parse_body, step, symbol_section, ParseState, ParsedAiger, Step,
};
use crate::aiger::serializer::{
    and_lit_lines, header_text, input_lit_lines, label_lit_lines, latch_lit_lines, lit_of, lit_text,
};
use crate::graph::{
    and_gate_ids, label_seq, lemma_index_roundtrip, model_add_and_raw, model_add_input, model_add_label,
    model_add_latch, model_set_latch_input, AigGraph, AigNode, BuilderModel, GraphModel, LabelKind, MAX_GRAPH_INDEX,
    NODE_ID_MASK, NodeId,
};
use crate::graph::symbols::SymbolKind;
use crate::text::decimal;
use vstd::utf8::is_ascii_chars;
use super::lines::{
    lemma_ascii_concat, lemma_ascii_line, lemma_line_int, lemma_line_ints2, lemma_line_ints3, lemma_plain_decimal,
    lemma_plain_field, lemma_plain_words, lemma_space_decimal, lemma_text_at_split, plain, text_at,
};
use vstd::prelude::*;

verus! {

/// The header that the text of `g` announces.
pub(super) open spec fn written_header(g: &AigGraph) -> AigerHeader {
    AigerHeader {
        is_ascii: true,
        max_var: g.nodes.len(),
        num_inputs: g.inputs.len(),
        num_latches: g.latches.len(),
        num_outputs: g.outputs.len(),
        num_and_gates: (g.nodes.len() - g.inputs.len() - g.latches.len()) as usize,
        num_bad_states: g.bad_states.len(),
        num_invariants: g.constraints.len(),
        num_justice: g.justice.len(),
        num_fairness: g.fairness.len(),
    }
}

/// The literal map once the first `k` nodes are defined.
spec fn lits_upto(m: nat, k: int) -> Seq<NodeId> {
    Seq::new(
        m + 1,
        |v: int|
            if v == 0 {
                NodeId(0)
            } else if v <= k {
                NodeId::spec_from_index(v - 1)
            } else {
                NodeId(NODE_ID_MASK)
            },
    )
}

/// The first `k` nodes as the parser holds them, the latches from the
/// `r`-th on still without their next state.
spec fn pending_nodes(g: &AigGraph, k: int, r: int) -> Seq<AigNode> {
    let first = g.inputs.len() + r;
    let end = g.inputs.len() + g.latches.len();
    Seq::new(
        k as nat,
        |i: int|
            if first <= i < end {
                AigNode { left: NodeId(NODE_ID_MASK), right: NodeId(0) }
            } else {
                g.nodes@[i]
            },
    )
}

/// The latches and the literals of their next states, as the latch lines
/// give them.
spec fn latch_entries(g: &AigGraph) -> Seq<(NodeId, usize)> {
    Seq::new(
        g.latches.len() as nat,
        |j: int| (g.latches@[j], lit_of(g.nodes@[g.inputs.len() + j].right) as usize),
    )
}

/// The literals of the labels, as the label lines give them.
spec fn label_entries(g: &AigGraph) -> Seq<usize> {
    g.spec_labels().map_values(|l: (LabelKind, usize, NodeId)| lit_of(l.2) as usize)
}

/// How many of `n` items that start at `lo` come before `k`.
spec fn count_in(k: int, lo: int, n: int) -> int {
    if k <= lo {
        0
    } else if k - lo >= n {
        n
    } else {
        k - lo
    }
}

/// The parse state once the first `k` nodes and `nl` label lines are read.
#[verifier::opaque]
spec fn state_after(g: &AigGraph, k: int, nl: int, pos: int) -> ParseState {
    let ni = g.inputs.len() as int;
    let nlat = g.latches.len() as int;
    ParseState {
        b: BuilderModel {
            graph: GraphModel {
                nodes: pending_nodes(g, k, 0),
                inputs: g.inputs@.take(count_in(k, 0, ni)),
                latches: g.latches@.take(count_in(k, ni, nlat)),
                outputs: Seq::empty(),
                bad_states: Seq::empty(),
                constraints: Seq::empty(),
                justice: Seq::empty(),
                fairness: Seq::empty(),
            },
            strash: Map::empty(),
        },
        lits: lits_upto(g.nodes.len() as nat, k),
        latch_inputs: latch_entries(g).take(count_in(k, ni, nlat)),
        label_lits: label_entries(g).take(nl),
        pos,
    }
}

/// Reading the line of the `k`-th input.
proof fn lemma_input_step(data: Seq<u8>, g: &AigGraph, k: int, pos: int)
    requires
        g.aiger_ordered(),
        0 <= k < g.inputs.len(),
        text_at(data, pos, lit_text(g.inputs@[k]) + "\n"@),
    ensures
        step(data, state_after(g, k, 0, pos), k as nat, Step::AsciiInput, written_header(g), false) == Ok::<
            ParseState,
            AigerError,
        >(state_after(g, k + 1, 0, pos + lit_text(g.inputs@[k]).len() + 1)),
{
    reveal(state_after);
    let id = NodeId::spec_from_index(k);
    assert(g.inputs@[k] == id);
    lemma_line_int(data, pos, lit_of(id));
    let s = state_after(g, k, 0, pos);
    let (b, nid) = model_add_input(s.b);
    assert(nid == id);
    let want = state_after(g, k + 1, 0, pos + lit_text(g.inputs@[k]).len() + 1);
    assert(b.graph.nodes =~= want.b.graph.nodes);
    assert(b.graph.inputs =~= want.b.graph.inputs);
    assert(lits_add(s.lits, lit_of(id), id) == Some(want.lits)) by {
        assert(s.lits.update(k + 1, id) =~= want.lits);
    }
    assert(want.latch_inputs =~= s.latch_inputs);
}

/// A signal of the first `k` nodes is found again in the literal map.
proof fn lemma_lits_get_signal(m: nat, k: int, x: NodeId)
    requires
        0 <= k <= m,
        k <= MAX_GRAPH_INDEX + 1,
        x.is_signal_of(k),
    ensures
        lits_get(lits_upto(m, k), lit_of(x)) == Some(x),
{
    let v = (lit_of(x) / 2) as int;
    if !x.spec_is_const() {
        assert(v == x.spec_index() + 1);
        assert(lits_upto(m, k)[v] == NodeId::spec_from_index(v - 1));
    }
}

/// Reading the line of the `j`-th latch.
proof fn lemma_latch_step(data: Seq<u8>, g: &AigGraph, j: int, pos: int)
    requires
        g.aiger_ordered(),
        0 <= j < g.latches.len(),
        text_at(
            data,
            pos,
            lit_text(g.latches@[j]) + " "@ + lit_text(g.nodes@[g.latches@[j].spec_index()].right) + "\n"@,
        ),
    ensures
        step(
            data,
            state_after(g, g.inputs.len() + j, 0, pos),
            j as nat,
            Step::AsciiLatch,
            written_header(g),
            false,
        ) == Ok::<ParseState, AigerError>(
            state_after(
                g,
                g.inputs.len() + j + 1,
                0,
                pos + (lit_text(g.latches@[j]) + " "@ + lit_text(g.nodes@[g.latches@[j].spec_index()].right)).len()
                    + 1,
            ),
        ),
{
    reveal(state_after);
    let ni = g.inputs.len() as int;
    let k = ni + j;
    let id = NodeId::spec_from_index(k);
    assert(g.latches@[j] == id);
    lemma_index_roundtrip(k);
    let next = g.nodes@[k].right;
    lemma_line_ints2(data, pos, lit_of(id), lit_of(next));
    let s = state_after(g, k, 0, pos);
    let (b, nid) = model_add_latch(s.b, NodeId(0));
    assert(nid == id);
    let want = state_after(
        g,
        k + 1,
        0,
        pos + (lit_text(g.latches@[j]) + " "@ + lit_text(g.nodes@[g.latches@[j].spec_index()].right)).len() + 1,
    );
    assert(b.graph.nodes =~= want.b.graph.nodes);
    assert(b.graph.inputs =~= want.b.graph.inputs);
    assert(b.graph.latches =~= want.b.graph.latches);
    assert(s.latch_inputs.push((id, lit_of(next) as usize)) =~= want.latch_inputs);
    assert(lits_add(s.lits, lit_of(id), id) == Some(want.lits)) by {
        assert(s.lits.update(k + 1, id) =~= want.lits);
    }
}

/// Reading the line of the `i`-th label.
proof fn lemma_label_step(data: Seq<u8>, g: &AigGraph, i: int, pos: int)
    requires
        g.aiger_ordered(),
        0 <= i < g.spec_labels().len(),
        text_at(data, pos, lit_text(g.spec_labels()[i].2) + "\n"@),
    ensures
        step(
            data,
            state_after(g, g.inputs.len() + g.latches.len(), i, pos),
            i as nat,
            Step::Label,
            written_header(g),
            false,
        ) == Ok::<ParseState, AigerError>(
            state_after(
                g,
                g.inputs.len() + g.latches.len(),
                i + 1,
                pos + lit_text(g.spec_labels()[i].2).len() + 1,
            ),
        ),
{
    reveal(state_after);
    let x = g.spec_labels()[i].2;
    lemma_line_int(data, pos, lit_of(x));
    let s = state_after(g, g.inputs.len() + g.latches.len(), i, pos);
    let want = state_after(g, g.inputs.len() + g.latches.len(), i + 1, pos + lit_text(x).len() + 1);
    assert(s.label_lits.push(lit_of(x) as usize) =~= want.label_lits);
}

/// Reading the line of the `j`-th AND node.
proof fn lemma_and_step(data: Seq<u8>, g: &AigGraph, j: int, nl: int, pos: int)
    requires
        g.aiger_ordered(),
        0 <= j < g.nodes.len() - g.inputs.len() - g.latches.len(),
        ({
            let k = g.inputs.len() + g.latches.len() + j;
            let node = g.nodes@[k];
            text_at(
                data,
                pos,
                lit_text(NodeId::spec_from_index(k)) + " "@ + lit_text(node.left) + " "@ + lit_text(node.right)
                    + "\n"@,
            )
        }),
    ensures
        ({
            let k = g.inputs.len() + g.latches.len() + j;
            let node = g.nodes@[k];
            step(data, state_after(g, k, nl, pos), j as nat, Step::AsciiAnd, written_header(g), false)
                == Ok::<ParseState, AigerError>(
                state_after(
                    g,
                    k + 1,
                    nl,
                    pos + (lit_text(NodeId::spec_from_index(k)) + " "@ + lit_text(node.left) + " "@ + lit_text(
                        node.right,
                    )).len() + 1,
                ),
            )
        }),
{
    reveal(state_after);
    let k = g.inputs.len() + g.latches.len() + j;
    let node = g.nodes@[k];
    let id = NodeId::spec_from_index(k);
    lemma_index_roundtrip(k);
    lemma_line_ints3(data, pos, lit_of(id), lit_of(node.left), lit_of(node.right));
    let s = state_after(g, k, nl, pos);
    lemma_lits_get_signal(g.nodes.len() as nat, k, node.left);
    lemma_lits_get_signal(g.nodes.len() as nat, k, node.right);
    let (b, nid) = model_add_and_raw(s.b, node.left, node.right);
    assert(nid == id);
    let want = state_after(
        g,
        k + 1,
        nl,
        pos + (lit_text(id) + " "@ + lit_text(node.left) + " "@ + lit_text(node.right)).len() + 1,
    );
    assert(b.graph.nodes =~= want.b.graph.nodes);
    assert(b.graph.inputs =~= want.b.graph.inputs);
    assert(b.graph.latches =~= want.b.graph.latches);
    assert(s.latch_inputs =~= want.latch_inputs);
    assert(lits_add(s.lits, lit_of(id), id) == Some(want.lits)) by {
        assert(s.lits.update(k + 1, id) =~= want.lits);
    }
}

proof fn lemma_input_lines_prefix(data: Seq<u8>, p: int, s: Seq<NodeId>, k: int)
    requires
        text_at(data, p, input_lit_lines(s)),
        0 <= k <= s.len(),
    ensures
        text_at(data, p, input_lit_lines(s.take(k))),
    decreases s.len(),
{
    if k < s.len() {
        let x = s.last();
        assert(input_lit_lines(s) =~= input_lit_lines(s.drop_last()) + (lit_text(x) + "\n"@));
        lemma_text_at_split(data, p, input_lit_lines(s.drop_last()), lit_text(x) + "\n"@);
        lemma_input_lines_prefix(data, p, s.drop_last(), k);
        assert(s.drop_last().take(k) =~= s.take(k));
    } else {
        assert(s.take(k) =~= s);
    }
}

proof fn lemma_latch_lines_prefix(data: Seq<u8>, p: int, s: Seq<NodeId>, nodes: Seq<AigNode>, k: int)
    requires
        text_at(data, p, latch_lit_lines(s, nodes)),
        0 <= k <= s.len(),
    ensures
        text_at(data, p, latch_lit_lines(s.take(k), nodes)),
    decreases s.len(),
{
    if k < s.len() {
        let x = s.last();
        let line = lit_text(x) + " "@ + lit_text(nodes[x.spec_index()].right) + "\n"@;
        assert(latch_lit_lines(s, nodes) =~= latch_lit_lines(s.drop_last(), nodes) + line);
        lemma_text_at_split(data, p, latch_lit_lines(s.drop_last(), nodes), line);
        lemma_latch_lines_prefix(data, p, s.drop_last(), nodes, k);
        assert(s.drop_last().take(k) =~= s.take(k));
    } else {
        assert(s.take(k) =~= s);
    }
}

proof fn lemma_label_lines_prefix(data: Seq<u8>, p: int, s: Seq<(LabelKind, usize, NodeId)>, k: int)
    requires
        text_at(data, p, label_lit_lines(s)),
        0 <= k <= s.len(),
    ensures
        text_at(data, p, label_lit_lines(s.take(k))),
    decreases s.len(),
{
    if k < s.len() {
        let x = s.last();
        assert(label_lit_lines(s) =~= label_lit_lines(s.drop_last()) + (lit_text(x.2) + "\n"@));
        lemma_text_at_split(data, p, label_lit_lines(s.drop_last()), lit_text(x.2) + "\n"@);
        lemma_label_lines_prefix(data, p, s.drop_last(), k);
        assert(s.drop_last().take(k) =~= s.take(k));
    } else {
        assert(s.take(k) =~= s);
    }
}

proof fn lemma_and_lines_prefix(data: Seq<u8>, p: int, s: Seq<NodeId>, nodes: Seq<AigNode>, k: int)
    requires
        text_at(data, p, and_lit_lines(s, nodes)),
        0 <= k <= s.len(),
    ensures
        text_at(data, p, and_lit_lines(s.take(k), nodes)),
    decreases s.len(),
{
    if k < s.len() {
        let x = s.last();
        let node = nodes[x.spec_index()];
        let line = lit_text(x) + " "@ + lit_text(node.left) + " "@ + lit_text(node.right) + "\n"@;
        assert(and_lit_lines(s, nodes) =~= and_lit_lines(s.drop_last(), nodes) + line);
        lemma_text_at_split(data, p, and_lit_lines(s.drop_last(), nodes), line);
        lemma_and_lines_prefix(data, p, s.drop_last(), nodes, k);
        assert(s.drop_last().take(k) =~= s.take(k));
    } else {
        assert(s.take(k) =~= s);
    }
}

/// The input lines, read one after the other.
#[verifier::spinoff_prover]
#[verifier::rlimit(30)]
proof fn lemma_input_phase(data: Seq<u8>, g: &AigGraph, p: int, k: int)
    requires
        g.aiger_ordered(),
        text_at(data, p, input_lit_lines(g.inputs@)),
        0 <= k <= g.inputs.len(),
    ensures
        run_steps(data, state_after(g, 0, 0, p), k as nat, Step::AsciiInput, written_header(g), false) == Ok::<
            ParseState,
            AigerError,
        >(state_after(g, k, 0, p + input_lit_lines(g.inputs@.take(k)).len())),
    decreases k,
{
    reveal_strlit("\n");
    reveal_strlit(" ");
    if k == 0 {
        assert(g.inputs@.take(0) =~= Seq::<NodeId>::empty());
    } else {
        lemma_input_phase(data, g, p, k - 1);
        let s = g.inputs@.take(k);
        lemma_input_lines_prefix(data, p, g.inputs@, k);
        assert(s.drop_last() =~= g.inputs@.take(k - 1));
        let x = g.inputs@[k - 1];
        assert(input_lit_lines(s) =~= input_lit_lines(g.inputs@.take(k - 1)) + (lit_text(x) + "\n"@));
        lemma_text_at_split(data, p, input_lit_lines(g.inputs@.take(k - 1)), lit_text(x) + "\n"@);
        lemma_input_step(data, g, k - 1, p + input_lit_lines(g.inputs@.take(k - 1)).len());
    }
}

/// The latch lines, read one after the other.
#[verifier::spinoff_prover]
#[verifier::rlimit(30)]
proof fn lemma_latch_phase(data: Seq<u8>, g: &AigGraph, p: int, k: int)
    requires
        g.aiger_ordered(),
        text_at(data, p, latch_lit_lines(g.latches@, g.nodes@)),
        0 <= k <= g.latches.len(),
    ensures
        run_steps(
            data,
            state_after(g, g.inputs.len() as int, 0, p),
            k as nat,
            Step::AsciiLatch,
            written_header(g),
            false,
        ) == Ok::<ParseState, AigerError>(
            state_after(g, g.inputs.len() + k, 0, p + latch_lit_lines(g.latches@.take(k), g.nodes@).len()),
        ),
    decreases k,
{
    reveal_strlit("\n");
    reveal_strlit(" ");
    if k == 0 {
        assert(g.latches@.take(0) =~= Seq::<NodeId>::empty());
    } else {
        lemma_latch_phase(data, g, p, k - 1);
        let s = g.latches@.take(k);
        lemma_latch_lines_prefix(data, p, g.latches@, g.nodes@, k);
        assert(s.drop_last() =~= g.latches@.take(k - 1));
        let x = g.latches@[k - 1];
        let line = lit_text(x) + " "@ + lit_text(g.nodes@[x.spec_index()].right) + "\n"@;
        assert(latch_lit_lines(s, g.nodes@) =~= latch_lit_lines(g.latches@.take(k - 1), g.nodes@) + line);
        lemma_text_at_split(data, p, latch_lit_lines(g.latches@.take(k - 1), g.nodes@), line);
        lemma_latch_step(data, g, k - 1, p + latch_lit_lines(g.latches@.take(k - 1), g.nodes@).len());
    }
}

/// The label lines, read one after the other.
#[verifier::spinoff_prover]
#[verifier::rlimit(30)]
proof fn lemma_label_phase(data: Seq<u8>, g: &AigGraph, p: int, k: int)
    requires
        g.aiger_ordered(),
        text_at(data, p, label_lit_lines(g.spec_labels())),
        0 <= k <= g.spec_labels().len(),
    ensures
        run_steps(
            data,
            state_after(g, g.inputs.len() + g.latches.len(), 0, p),
            k as nat,
            Step::Label,
            written_header(g),
            false,
        ) == Ok::<ParseState, AigerError>(
            state_after(
                g,
                g.inputs.len() + g.latches.len(),
                k,
                p + label_lit_lines(g.spec_labels().take(k)).len(),
            ),
        ),
    decreases k,
{
    reveal_strlit("\n");
    reveal_strlit(" ");
    if k == 0 {
        assert(g.spec_labels().take(0) =~= Seq::<(LabelKind, usize, NodeId)>::empty());
    } else {
        lemma_label_phase(data, g, p, k - 1);
        let s = g.spec_labels().take(k);
        lemma_label_lines_prefix(data, p, g.spec_labels(), k);
        assert(s.drop_last() =~= g.spec_labels().take(k - 1));
        let x = g.spec_labels()[k - 1];
        assert(label_lit_lines(s) =~= label_lit_lines(g.spec_labels().take(k - 1)) + (lit_text(x.2) + "\n"@));
        lemma_text_at_split(data, p, label_lit_lines(g.spec_labels().take(k - 1)), lit_text(x.2) + "\n"@);
        lemma_label_step(data, g, k - 1, p + label_lit_lines(g.spec_labels().take(k - 1)).len());
    }
}

/// In AIGER order, the AND nodes are the nodes after the inputs and latches.
proof fn lemma_and_ids(g: &AigGraph, n: int)
    requires
        g.aiger_ordered(),
        0 <= n <= g.nodes.len(),
    ensures
        and_gate_ids(g.nodes@.take(n)) =~= Seq::new(
            count_in(n, g.inputs.len() + g.latches.len(), g.nodes.len() - g.inputs.len() - g.latches.len()) as nat,
            |j: int| NodeId::spec_from_index(g.inputs.len() + g.latches.len() + j),
        ),
    decreases n,
{
    let ni = g.inputs.len() as int;
    let nl = g.latches.len() as int;
    if n > 0 {
        lemma_and_ids(g, n - 1);
        assert(g.nodes@.take(n).drop_last() =~= g.nodes@.take(n - 1));
        let i = n - 1;
        if i < ni {
            assert(g.inputs@[i] == NodeId::spec_from_index(i));
        } else if i < ni + nl {
            assert(g.latches@[i - ni] == NodeId::spec_from_index(ni + (i - ni)));
        } else {
            assert(g.nodes@[i].left.is_signal_of(i));
        }
    } else {
        assert(g.nodes@.take(0) =~= Seq::<AigNode>::empty());
    }
}

/// The `j`-th AND gate of a graph in AIGER order is node `I + L + j`.
proof fn lemma_and_id_at(g: &AigGraph, j: int)
    requires
        g.aiger_ordered(),
        0 <= j < g.nodes.len() - g.inputs.len() - g.latches.len(),
    ensures
        and_gate_ids(g.nodes@).len() == g.nodes.len() - g.inputs.len() - g.latches.len(),
        and_gate_ids(g.nodes@)[j] == NodeId::spec_from_index(g.inputs.len() + g.latches.len() + j),
{
    lemma_and_ids(g, g.nodes.len() as int);
    assert(g.nodes@.take(g.nodes.len() as int) =~= g.nodes@);
}

/// The `k`-th AND line, where all of them stand at `p`.
proof fn lemma_and_line_at(data: Seq<u8>, p: int, ids: Seq<NodeId>, nodes: Seq<AigNode>, k: int)
    requires
        text_at(data, p, and_lit_lines(ids, nodes)),
        0 < k <= ids.len(),
    ensures
        ({
            let x = ids[k - 1];
            let node = nodes[x.spec_index()];
            let line = lit_text(x) + " "@ + lit_text(node.left) + " "@ + lit_text(node.right) + "\n"@;
            &&& text_at(data, p + and_lit_lines(ids.take(k - 1), nodes).len(), line)
            &&& and_lit_lines(ids.take(k), nodes).len() == and_lit_lines(ids.take(k - 1), nodes).len() + line.len()
        }),
{
    let s = ids.take(k);
    lemma_and_lines_prefix(data, p, ids, nodes, k);
    assert(s.drop_last() =~= ids.take(k - 1));
    let x = ids[k - 1];
    let node = nodes[x.spec_index()];
    let line = lit_text(x) + " "@ + lit_text(node.left) + " "@ + lit_text(node.right) + "\n"@;
    assert(and_lit_lines(s, nodes) =~= and_lit_lines(ids.take(k - 1), nodes) + line);
    lemma_text_at_split(data, p, and_lit_lines(ids.take(k - 1), nodes), line);
}

/// The AND lines, read one after the other.
#[verifier::spinoff_prover]
#[verifier::rlimit(30)]
proof fn lemma_and_phase(data: Seq<u8>, g: &AigGraph, p: int, nl: int, k: int)
    requires
        g.aiger_ordered(),
        text_at(data, p, and_lit_lines(and_gate_ids(g.nodes@), g.nodes@)),
        0 <= k <= g.nodes.len() - g.inputs.len() - g.latches.len(),
    ensures
        run_steps(
            data,
            state_after(g, g.inputs.len() + g.latches.len(), nl, p),
            k as nat,
            Step::AsciiAnd,
            written_header(g),
            false,
        ) == Ok::<ParseState, AigerError>(
            state_after(
                g,
                g.inputs.len() + g.latches.len() + k,
                nl,
                p + and_lit_lines(and_gate_ids(g.nodes@).take(k), g.nodes@).len(),
            ),
        ),
    decreases k,
{
    reveal_strlit("\n");
    let ids = and_gate_ids(g.nodes@);
    if k == 0 {
        assert(ids.take(0) =~= Seq::<NodeId>::empty());
    } else {
        lemma_and_phase(data, g, p, nl, k - 1);
        lemma_and_id_at(g, k - 1);
        let c = g.inputs.len() + g.latches.len() + (k - 1);
        lemma_index_roundtrip(c);
        lemma_and_line_at(data, p, ids, g.nodes@, k);
        lemma_and_step(data, g, k - 1, nl, p + and_lit_lines(ids.take(k - 1), g.nodes@).len());
    }
}

/// A builder with its nodes replaced.
spec fn with_nodes(b: BuilderModel, nodes: Seq<AigNode>) -> BuilderModel {
    BuilderModel { graph: GraphModel { nodes, ..b.graph }, ..b }
}

/// Setting the next states of the first `r` latches.
proof fn lemma_resolve_latches(g: &AigGraph, b: BuilderModel, r: int)
    requires
        g.aiger_ordered(),
        b.graph.nodes == pending_nodes(g, g.nodes.len() as int, 0),
        0 <= r <= g.latches.len(),
    ensures
        resolve_latches(b, lits_upto(g.nodes.len() as nat, g.nodes.len() as int), latch_entries(g).take(r))
            == Ok::<BuilderModel, AigerError>(with_nodes(b, pending_nodes(g, g.nodes.len() as int, r))),
    decreases r,
{
    let n = g.nodes.len() as int;
    let es = latch_entries(g).take(r);
    if r == 0 {
        assert(with_nodes(b, pending_nodes(g, n, 0)) =~= b);
    } else {
        lemma_resolve_latches(g, b, r - 1);
        assert(es.drop_last() =~= latch_entries(g).take(r - 1));
        let c = g.inputs.len() + r - 1;
        let id = g.latches@[r - 1];
        assert(id == NodeId::spec_from_index(g.inputs.len() + (r - 1)));
        lemma_index_roundtrip(c);
        let x = g.nodes@[c].right;
        lemma_lits_get_signal(n as nat, n, x);
        let b2 = with_nodes(b, pending_nodes(g, n, r - 1));
        assert(es.last() == (id, lit_of(x) as usize));
        assert(model_set_latch_input(b2, id, x).graph.nodes =~= pending_nodes(g, n, r));
        assert(model_set_latch_input(b2, id, x) =~= with_nodes(b, pending_nodes(g, n, r)));
    }
}

/// The builder once the first `k` labels are added.
spec fn with_labels(g: &AigGraph, b: BuilderModel, k: int) -> BuilderModel {
    let o = g.outputs.len() as int;
    let bs = g.bad_states.len() as int;
    let c = g.constraints.len() as int;
    let j = g.justice.len() as int;
    let f = g.fairness.len() as int;
    BuilderModel {
        graph: GraphModel {
            outputs: g.outputs@.take(count_in(k, 0, o)),
            bad_states: g.bad_states@.take(count_in(k, o, bs)),
            constraints: g.constraints@.take(count_in(k, o + bs, c)),
            justice: g.justice@.take(count_in(k, o + bs + c, j)),
            fairness: g.fairness@.take(count_in(k, o + bs + c + j, f)),
            ..b.graph
        },
        ..b
    }
}

/// The `i`-th label: its kind by the header's counts, and its signal.
proof fn lemma_label_at(g: &AigGraph, i: int)
    requires
        0 <= i < g.spec_labels().len(),
    ensures
        ({
            let o = g.outputs.len() as int;
            let bs = g.bad_states.len() as int;
            let c = g.constraints.len() as int;
            let j = g.justice.len() as int;
            let x = g.spec_labels()[i].2;
            let kind = label_kind(written_header(g), i);
            &&& i < o ==> kind == LabelKind::Output && x == g.outputs@[i]
            &&& o <= i < o + bs ==> kind == LabelKind::BadState && x == g.bad_states@[i - o]
            &&& o + bs <= i < o + bs + c ==> kind == LabelKind::Constraints && x == g.constraints@[i - o - bs]
            &&& o + bs + c <= i < o + bs + c + j ==> kind == LabelKind::Justice && x == g.justice@[i - o - bs - c]
            &&& o + bs + c + j <= i ==> kind == LabelKind::Fairness && x == g.fairness@[i - o - bs - c - j]
        }),
{
    let l1 = label_seq(LabelKind::Output, g.outputs@);
    let l2 = label_seq(LabelKind::BadState, g.bad_states@);
    let l3 = label_seq(LabelKind::Constraints, g.constraints@);
    let l4 = label_seq(LabelKind::Justice, g.justice@);
    let l5 = label_seq(LabelKind::Fairness, g.fairness@);
    assert(g.spec_labels() == l1 + l2 + l3 + l4 + l5);
    let o = g.outputs.len() as int;
    let bs = g.bad_states.len() as int;
    let c = g.constraints.len() as int;
    let j = g.justice.len() as int;
    if i < o + bs + c + j {
        assert((l1 + l2 + l3 + l4 + l5)[i] == (l1 + l2 + l3 + l4)[i]);
        if i < o + bs + c {
            assert((l1 + l2 + l3 + l4)[i] == (l1 + l2 + l3)[i]);
            if i < o + bs {
                assert((l1 + l2 + l3)[i] == (l1 + l2)[i]);
            }
        }
    }
}

/// Adding the first `k` labels.
#[verifier::spinoff_prover]
#[verifier::rlimit(30)]
proof fn lemma_resolve_labels(g: &AigGraph, b: BuilderModel, k: int)
    requires
        g.aiger_ordered(),
        b.graph.outputs.len() == 0,
        b.graph.bad_states.len() == 0,
        b.graph.constraints.len() == 0,
        b.graph.justice.len() == 0,
        b.graph.fairness.len() == 0,
        0 <= k <= g.spec_labels().len(),
    ensures
        resolve_labels(
            b,
            lits_upto(g.nodes.len() as nat, g.nodes.len() as int),
            label_entries(g).take(k),
            written_header(g),
        ) == Ok::<BuilderModel, AigerError>(with_labels(g, b, k)),
    decreases k,
{
    let n = g.nodes.len() as int;
    let es = label_entries(g).take(k);
    if k == 0 {
        assert(with_labels(g, b, 0) =~= b);
    } else {
        lemma_resolve_labels(g, b, k - 1);
        assert(es.drop_last() =~= label_entries(g).take(k - 1));
        let i = k - 1;
        let x = g.spec_labels()[i].2;
        assert(es.last() == lit_of(x) as usize);
        lemma_lits_get_signal(n as nat, n, x);
        lemma_label_at(g, i);
        let b2 = with_labels(g, b, k - 1);
        let kind = label_kind(written_header(g), i);
        assert(model_add_label(b2, kind, x) =~= with_labels(g, b, k));
    }
}

/// The last field of text that ends in a space and a numeral.
proof fn lemma_peel(buf: Seq<u8>, x: Seq<char>, n: nat)
    requires
        text_at(buf, 0, x + " "@ + decimal(n)),
    ensures
        text_at(buf, 0, x),
        text_at(buf, x.len() as int, " "@ + decimal(n)),
        buf[x.len() as int] == 32,
        (x + " "@ + decimal(n)).len() == x.len() + 1 + decimal(n).len(),
{
    reveal_strlit(" ");
    assert(x + " "@ + decimal(n) =~= x + (" "@ + decimal(n)));
    lemma_text_at_split(buf, 0, x, " "@ + decimal(n));
    assert(buf[x.len() as int + 0] == (" "@ + decimal(n))[0] as u8);
}

/// The tag and the five counts of a header line.
spec fn basic_chars(m: nat, i: nat, l: nat, o: nat, a: nat) -> Seq<char> {
    "aag"@ + " "@ + decimal(m) + " "@ + decimal(i) + " "@ + decimal(l) + " "@ + decimal(o) + " "@ + decimal(a)
}

/// The four optional counts of a header line, after the first five.
spec fn opt_chars(x5: Seq<char>, b: nat, c: nat, j: nat, f: nat) -> Seq<char> {
    x5 + " "@ + decimal(b) + " "@ + decimal(c) + " "@ + decimal(j) + " "@ + decimal(f)
}

proof fn lemma_header_counts(line: Seq<u8>, m: nat, i: nat, l: nat, o: nat, a: nat)
    requires
        text_at(line, 0, basic_chars(m, i, l, o, a)),
        basic_chars(m, i, l, o, a).len() < line.len(),
        !is_digit(line[basic_chars(m, i, l, o, a).len() as int]),
        m <= usize::MAX,
        i <= usize::MAX,
        l <= usize::MAX,
        o <= usize::MAX,
        a <= usize::MAX,
    ensures
        word_end(line, 0) == 3,
        line.subrange(0, 3) == seq![97u8, 97u8, 103u8],
        ints_scan(line, 3, 5) == (
            seq![Some(m), Some(i), Some(l), Some(o), Some(a)],
            basic_chars(m, i, l, o, a).len() as int,
            true,
        ),
{
    reveal_strlit("aag");
    reveal_strlit(" ");
    let x0 = "aag"@;
    let x1 = x0 + " "@ + decimal(m);
    let x2 = x1 + " "@ + decimal(i);
    let x3 = x2 + " "@ + decimal(l);
    let x4 = x3 + " "@ + decimal(o);
    lemma_peel(line, x4, a);
    lemma_peel(line, x3, o);
    lemma_peel(line, x2, l);
    lemma_peel(line, x1, i);
    lemma_peel(line, x0, m);
    assert(line[0int + 0] == x0[0] as u8);
    assert(line[0int + 1] == x0[1] as u8);
    assert(line[0int + 2] == x0[2] as u8);
    assert(word_end(line, 3) == 3);
    assert(word_end(line, 2) == 3);
    assert(word_end(line, 1) == 3);
    assert(word_end(line, 0) == 3);
    assert(line.subrange(0, 3) =~= seq![97u8, 97u8, 103u8]);
    lemma_space_decimal(line, x0.len() as int, m);
    lemma_space_decimal(line, x1.len() as int, i);
    lemma_space_decimal(line, x2.len() as int, l);
    lemma_space_decimal(line, x3.len() as int, o);
    lemma_space_decimal(line, x4.len() as int, a);
    let r0 = ints_scan(line, 3, 0);
    assert(r0.0 =~= Seq::<Option<nat>>::empty() && r0.1 == 3 && r0.2);
    let r1 = ints_scan(line, 3, 1);
    assert(r1.0 =~= seq![Some(m)]);
    assert(r1.1 == x1.len());
    assert(r1.2);
    let r2 = ints_scan(line, 3, 2);
    assert(r2.0 =~= seq![Some(m), Some(i)] && r2.1 == x2.len() && r2.2);
    let r3 = ints_scan(line, 3, 3);
    assert(r3.0 =~= seq![Some(m), Some(i), Some(l)] && r3.1 == x3.len() && r3.2);
    let r4 = ints_scan(line, 3, 4);
    assert(r4.0 =~= seq![Some(m), Some(i), Some(l), Some(o)] && r4.1 == x4.len() && r4.2);
    let r5 = ints_scan(line, 3, 5);
    assert(r5.0 =~= seq![Some(m), Some(i), Some(l), Some(o), Some(a)]);
}

proof fn lemma_header_opt(line: Seq<u8>, x5: Seq<char>, b: nat, c: nat, j: nat, f: nat)
    requires
        text_at(line, 0, opt_chars(x5, b, c, j, f)),
        line.len() == opt_chars(x5, b, c, j, f).len() + 1,
        line[opt_chars(x5, b, c, j, f).len() as int] == 10,
        b <= usize::MAX,
        c <= usize::MAX,
        j <= usize::MAX,
        f <= usize::MAX,
    ensures
        ({
            let p1 = spaces_end(line, x5.len() as int);
            let (vb, p2, fb) = opt_field(line, p1);
            let (vc, p3, fc) = opt_field(line, p2);
            let (vj, p4, fj) = opt_field(line, p3);
            let (vf, p5, ff) = opt_field(line, p4);
            &&& vb == b && vc == c && vj == j && vf == f
            &&& fb && fc && fj && ff
            &&& p5 == line.len()
        }),
{
    reveal_strlit(" ");
    let x6 = x5 + " "@ + decimal(b);
    let x7 = x6 + " "@ + decimal(c);
    let x8 = x7 + " "@ + decimal(j);
    let x9 = x8 + " "@ + decimal(f);
    lemma_peel(line, x8, f);
    lemma_peel(line, x7, j);
    lemma_peel(line, x6, c);
    lemma_peel(line, x5, b);
    let len = line.len() as int;
    lemma_space_decimal(line, x5.len() as int, b);
    lemma_space_decimal(line, x6.len() as int, c);
    lemma_space_decimal(line, x7.len() as int, j);
    lemma_space_decimal(line, x8.len() as int, f);
    assert(spaces_end(line, len) == len);
    assert(spaces_end(line, x9.len() as int) == len);
    let p1 = spaces_end(line, x5.len() as int);
    assert(opt_field(line, p1) == (b, x6.len() as int + 1, true));
    assert(opt_field(line, x6.len() as int + 1) == (c, x7.len() as int + 1, true));
    assert(opt_field(line, x7.len() as int + 1) == (j, x8.len() as int + 1, true));
    assert(opt_field(line, x8.len() as int + 1) == (f, len, true));
}

/// The header line that the writer writes for `g` states `g`'s counts.
#[verifier::spinoff_prover]
#[verifier::rlimit(30)]
pub(super) proof fn lemma_header(line: Seq<u8>, g: &AigGraph)
    requires
        g.aiger_ordered(),
        text_at(line, 0, header_text(g, "aag"@)),
        line.len() == header_text(g, "aag"@).len(),
    ensures
        spec_header(line) == Ok::<AigerHeader, AigerError>(written_header(g)),
{
    reveal_strlit("\n");
    let i = g.inputs.len() as nat;
    let l = g.latches.len() as nat;
    let o = g.outputs.len() as nat;
    let a = (g.nodes.len() - g.inputs.len() - g.latches.len()) as nat;
    let m = i + l + a;
    let b = g.bad_states.len() as nat;
    let c = g.constraints.len() as nat;
    let j = g.justice.len() as nat;
    let f = g.fairness.len() as nat;
    let x5 = basic_chars(m, i, l, o, a);
    let opt = b + c + j + f > 0;
    let last = if opt { opt_chars(x5, b, c, j, f) } else { x5 };
    assert(header_text(g, "aag"@) == last + "\n"@);
    lemma_text_at_split(line, 0, last, "\n"@);
    assert(line[last.len() as int + 0] == "\n"@[0] as u8);
    let len = line.len() as int;
    if opt {
        lemma_header_opt(line, x5, b, c, j, f);
        assert(opt_chars(x5, b, c, j, f) =~= x5 + (" "@ + decimal(b) + " "@ + decimal(c) + " "@ + decimal(j) + " "@
            + decimal(f)));
        lemma_text_at_split(line, 0, x5, " "@ + decimal(b) + " "@ + decimal(c) + " "@ + decimal(j) + " "@ + decimal(f));
        reveal_strlit(" ");
        assert(line[x5.len() as int + 0] == (" "@ + decimal(b) + " "@ + decimal(c) + " "@ + decimal(j) + " "@ + decimal(f))[0] as u8);
    } else {
        assert(last == x5);
        assert(len == x5.len() + 1);
        assert(line[x5.len() as int] == 10);
        assert(spaces_end(line, len) == len);
        assert(spaces_end(line, x5.len() as int) == len);
        assert(digits_end(line, len) == len);
        assert(digits_value(line, len, len) == 0);
        assert(opt_field(line, len) == (0nat, len, true));
    }
    lemma_header_counts(line, m, i, l, o, a);
    assert(all_found(ints_scan(line, 3, 5).0));
}

proof fn lemma_plain_basic(m: nat, i: nat, l: nat, o: nat, a: nat)
    ensures
        plain(basic_chars(m, i, l, o, a)),
{
    lemma_plain_words();
    let x0 = "aag"@;
    let x1 = x0 + " "@ + decimal(m);
    let x2 = x1 + " "@ + decimal(i);
    let x3 = x2 + " "@ + decimal(l);
    let x4 = x3 + " "@ + decimal(o);
    lemma_plain_field(x0, m);
    lemma_plain_field(x1, i);
    lemma_plain_field(x2, l);
    lemma_plain_field(x3, o);
    lemma_plain_field(x4, a);
}

proof fn lemma_plain_opt(x5: Seq<char>, b: nat, c: nat, j: nat, f: nat)
    requires
        plain(x5),
    ensures
        plain(opt_chars(x5, b, c, j, f)),
{
    let x6 = x5 + " "@ + decimal(b);
    let x7 = x6 + " "@ + decimal(c);
    let x8 = x7 + " "@ + decimal(j);
    lemma_plain_field(x5, b);
    lemma_plain_field(x6, c);
    lemma_plain_field(x7, j);
    lemma_plain_field(x8, f);
}

proof fn lemma_ascii_input_lines(s: Seq<NodeId>)
    ensures
        is_ascii_chars(input_lit_lines(s)),
    decreases s.len(),
{
    if s.len() > 0 {
        lemma_ascii_input_lines(s.drop_last());
        lemma_plain_decimal(lit_of(s.last()));
        lemma_ascii_line(lit_text(s.last()));
        assert(input_lit_lines(s) =~= input_lit_lines(s.drop_last()) + (lit_text(s.last()) + "\n"@));
        lemma_ascii_concat(input_lit_lines(s.drop_last()), lit_text(s.last()) + "\n"@);
    } else {
        assert(input_lit_lines(s) =~= Seq::<char>::empty());
    }
}

proof fn lemma_ascii_latch_lines(s: Seq<NodeId>, nodes: Seq<AigNode>)
    ensures
        is_ascii_chars(latch_lit_lines(s, nodes)),
    decreases s.len(),
{
    if s.len() > 0 {
        let x = s.last();
        let y = nodes[x.spec_index()].right;
        lemma_ascii_latch_lines(s.drop_last(), nodes);
        lemma_plain_decimal(lit_of(x));
        lemma_plain_field(lit_text(x), lit_of(y));
        lemma_ascii_line(lit_text(x) + " "@ + lit_text(y));
        let line = lit_text(x) + " "@ + lit_text(y) + "\n"@;
        assert(latch_lit_lines(s, nodes) =~= latch_lit_lines(s.drop_last(), nodes) + line);
        lemma_ascii_concat(latch_lit_lines(s.drop_last(), nodes), line);
    } else {
        assert(latch_lit_lines(s, nodes) =~= Seq::<char>::empty());
    }
}

proof fn lemma_ascii_label_lines(s: Seq<(LabelKind, usize, NodeId)>)
    ensures
        is_ascii_chars(label_lit_lines(s)),
    decreases s.len(),
{
    if s.len() > 0 {
        let x = s.last().2;
        lemma_ascii_label_lines(s.drop_last());
        lemma_plain_decimal(lit_of(x));
        lemma_ascii_line(lit_text(x));
        assert(label_lit_lines(s) =~= label_lit_lines(s.drop_last()) + (lit_text(x) + "\n"@));
        lemma_ascii_concat(label_lit_lines(s.drop_last()), lit_text(x) + "\n"@);
    } else {
        assert(label_lit_lines(s) =~= Seq::<char>::empty());
    }
}

proof fn lemma_ascii_and_lines(s: Seq<NodeId>, nodes: Seq<AigNode>)
    ensures
        is_ascii_chars(and_lit_lines(s, nodes)),
    decreases s.len(),
{
    if s.len() > 0 {
        let x = s.last();
        let node = nodes[x.spec_index()];
        lemma_ascii_and_lines(s.drop_last(), nodes);
        lemma_plain_decimal(lit_of(x));
        lemma_plain_field(lit_text(x), lit_of(node.left));
        lemma_plain_field(lit_text(x) + " "@ + lit_text(node.left), lit_of(node.right));
        let t = lit_text(x) + " "@ + lit_text(node.left) + " "@ + lit_text(node.right);
        lemma_ascii_line(t);
        assert(and_lit_lines(s, nodes) =~= and_lit_lines(s.drop_last(), nodes) + (t + "\n"@));
        lemma_ascii_concat(and_lit_lines(s.drop_last(), nodes), t + "\n"@);
    } else {
        assert(and_lit_lines(s, nodes) =~= Seq::<char>::empty());
    }
}

/// The parse state after all body lines of the text of `g`.
#[verifier::spinoff_prover]
#[verifier::rlimit(60)]
proof fn lemma_body_lines(data: Seq<u8>, g: &AigGraph, p1: int)
    requires
        g.aiger_ordered(),
        text_at(data, p1, g.body_text()),
    ensures
        ({
            let h = written_header(g);
            let ni = g.inputs.len() as int;
            let nl = g.latches.len() as int;
            let nt = g.spec_labels().len() as int;
            let end = p1 + g.body_text().len();
            &&& run_steps(data, state_after(g, 0, 0, p1), ni as nat, Step::AsciiInput, h, false) matches Ok(s1)
                && run_steps(data, s1, nl as nat, Step::AsciiLatch, h, false) matches Ok(s2)
                && run_steps(data, s2, nt as nat, Step::Label, h, false) matches Ok(s3)
                && run_steps(data, s3, h.num_and_gates as nat, Step::AsciiAnd, h, false) == Ok::<
                ParseState,
                AigerError,
            >(state_after(g, g.nodes.len() as int, nt, end))
        }),
{
    let inl = input_lit_lines(g.inputs@);
    let lal = latch_lit_lines(g.latches@, g.nodes@);
    let lbl = label_lit_lines(g.spec_labels());
    let anl = and_lit_lines(and_gate_ids(g.nodes@), g.nodes@);
    assert(g.body_text() == inl + lal + lbl + anl);
    lemma_text_at_split(data, p1, inl + lal + lbl, anl);
    lemma_text_at_split(data, p1, inl + lal, lbl);
    lemma_text_at_split(data, p1, inl, lal);
    let p2 = p1 + inl.len();
    let p3 = p2 + lal.len();
    let p4 = p3 + lbl.len();
    let ni = g.inputs.len() as int;
    let nl = g.latches.len() as int;
    let nt = g.spec_labels().len() as int;
    let na = g.nodes.len() - ni - nl;
    lemma_input_phase(data, g, p1, ni);
    assert(g.inputs@.take(ni) =~= g.inputs@);
    lemma_latch_phase(data, g, p2, nl);
    assert(g.latches@.take(nl) =~= g.latches@);
    lemma_label_phase(data, g, p3, nt);
    assert(g.spec_labels().take(nt) =~= g.spec_labels());
    lemma_and_phase(data, g, p4, nt, na);
    lemma_and_ids(g, g.nodes.len() as int);
    assert(g.nodes@.take(g.nodes.len() as int) =~= g.nodes@);
    assert(and_gate_ids(g.nodes@).take(na) =~= and_gate_ids(g.nodes@));
}

/// The body of the text of `g`, read after its header, gives back `g`.
pub(super) proof fn lemma_body_parses(
    data: Seq<u8>,
    g: &AigGraph,
    p1: int,
    symbols: Seq<(SymbolKind, usize, Seq<char>)>,
    comments: Seq<char>,
)
    requires
        g.aiger_ordered(),
        text_at(data, p1, g.body_text()),
        symbol_section(data, p1 + g.body_text().len(), 0, 0) == Ok::<
            (Seq<(SymbolKind, usize, Seq<char>)>, Seq<char>),
            AigerError,
        >((symbols, comments)),
    ensures
        spec_parse_body(data, p1, written_header(g), false, true) == Ok::<ParsedAiger, AigerError>(
            ParsedAiger { graph: g.model(), symbols, comments },
        ),
{
    reveal(state_after);
    let h = written_header(g);
    let n = g.nodes.len() as int;
    let ni = g.inputs.len() as int;
    let nl = g.latches.len() as int;
    let nt = g.spec_labels().len() as int;
    let end = p1 + g.body_text().len();
    lemma_body_lines(data, g, p1);
    assert(initial_state(h, p1) =~= state_after(g, 0, 0, p1)) by {
        assert(lits_new(h.max_var as nat) =~= lits_upto(g.nodes.len() as nat, 0));
        assert(pending_nodes(g, 0, 0) =~= Seq::<AigNode>::empty());
        assert(g.inputs@.take(0) =~= Seq::<NodeId>::empty());
        assert(g.latches@.take(0) =~= Seq::<NodeId>::empty());
        assert(latch_entries(g).take(0) =~= Seq::<(NodeId, usize)>::empty());
        assert(label_entries(g).take(0) =~= Seq::<usize>::empty());
    }
    assert(num_labels(h) == nt);
    let s3 = state_after(g, n, nt, end);
    lemma_resolve_latches(g, s3.b, nl);
    assert(latch_entries(g).take(nl) == s3.latch_inputs);
    let b4 = with_nodes(s3.b, pending_nodes(g, n, nl));
    assert(pending_nodes(g, n, nl) =~= g.nodes@);
    lemma_resolve_labels(g, b4, nt);
    let b5 = with_labels(g, b4, nt);
    assert(b5.graph =~= g.model()) by {
        assert(g.inputs@.take(ni) =~= g.inputs@);
        assert(g.latches@.take(nl) =~= g.latches@);
        assert(g.outputs@.take(g.outputs.len() as int) =~= g.outputs@);
        assert(g.bad_states@.take(g.bad_states.len() as int) =~= g.bad_states@);
        assert(g.constraints@.take(g.constraints.len() as int) =~= g.constraints@);
        assert(g.justice@.take(g.justice.len() as int) =~= g.justice@);
        assert(g.fairness@.take(g.fairness.len() as int) =~= g.fairness@);
    }
}

/// The header text of `g`: a plain line and its line feed.
proof fn lemma_header_shape(g: &AigGraph) -> (last: Seq<char>)
    ensures
        plain(last),
        header_text(g, "aag"@) == last + "\n"@,
{
    let i = g.inputs.len() as nat;
    let l = g.latches.len() as nat;
    let o = g.outputs.len() as nat;
    let a = (g.nodes.len() - g.inputs.len() - g.latches.len()) as nat;
    let m = i + l + a;
    let b = g.bad_states.len() as nat;
    let c = g.constraints.len() as nat;
    let j = g.justice.len() as nat;
    let f = g.fairness.len() as nat;
    let x5 = basic_chars(m, i, l, o, a);
    lemma_plain_basic(m, i, l, o, a);
    if b + c + j + f > 0 {
        lemma_plain_opt(x5, b, c, j, f);
        opt_chars(x5, b, c, j, f)
    } else {
        x5
    }
}

/// The text of `g` is ASCII, and its header a plain line.
pub(super) proof fn lemma_text_ascii(g: &AigGraph) -> (last: Seq<char>)
    ensures
        plain(last),
        header_text(g, "aag"@) == last + "\n"@,
        is_ascii_chars(header_text(g, "aag"@) + g.body_text()),
{
    let last = lemma_header_shape(g);
    lemma_ascii_line(last);
    lemma_ascii_input_lines(g.inputs@);
    lemma_ascii_latch_lines(g.latches@, g.nodes@);
    lemma_ascii_label_lines(g.spec_labels());
    lemma_ascii_and_lines(and_gate_ids(g.nodes@), g.nodes@);
    let inl = input_lit_lines(g.inputs@);
    let lal = latch_lit_lines(g.latches@, g.nodes@);
    let lbl = label_lit_lines(g.spec_labels());
    let anl = and_lit_lines(and_gate_ids(g.nodes@), g.nodes@);
    lemma_ascii_concat(inl, lal);
    lemma_ascii_concat(inl + lal, lbl);
    lemma_ascii_concat(inl + lal + lbl, anl);
    assert(g.body_text() == inl + lal + lbl + anl);
    lemma_ascii_concat(header_text(g, "aag"@), g.body_text());
    last
}

} // verus!
