//! Writing AIGER text.

use crate::aiger::AigerMode;
use crate::graph::symbols::{entries_view, SymbolKind, SymbolTable};
use crate::graph::{and_gate_ids, lemma_index_roundtrip, AigGraph, AigNode, LabelKind, NodeId, MAX_GRAPH_INDEX};
use crate::graph::graphviz::lemma_labels_are_signals;
use crate::text::{ascii_char, decimal, push_char, push_decimal};
use vstd::prelude::*;
use vstd::string::*;

verus! {

/// The AIGER literal of a non-marker signal: `0` and `1` for the
/// constants, `2 * (i + 1)` for graph index `i`, plus one where inverted.
/// This is the signal's own number.
pub open spec fn lit_of(id: NodeId) -> nat {
    id.0 as nat
}

pub open spec fn lit_text(id: NodeId) -> Seq<char> {
    decimal(lit_of(id))
}

/// The header line: `<tag> M I L O A`, with `B C J F` where any of them is
/// nonzero.
pub open spec fn header_text(g: &AigGraph, tag: Seq<char>) -> Seq<char> {
    let i = g.inputs.len() as nat;
    let l = g.latches.len() as nat;
    let o = g.outputs.len() as nat;
    let a = (g.nodes.len() - g.inputs.len() - g.latches.len()) as nat;
    let m = i + l + a;
    let b = g.bad_states.len() as nat;
    let c = g.constraints.len() as nat;
    let j = g.justice.len() as nat;
    let f = g.fairness.len() as nat;
    let basic = tag + " "@ + decimal(m) + " "@ + decimal(i) + " "@ + decimal(l) + " "@ + decimal(o) + " "@
        + decimal(a);
    if b + c + j + f > 0 {
        basic + " "@ + decimal(b) + " "@ + decimal(c) + " "@ + decimal(j) + " "@ + decimal(f) + "\n"@
    } else {
        basic + "\n"@
    }
}

pub open spec fn input_lit_lines(inputs: Seq<NodeId>) -> Seq<char>
    decreases inputs.len(),
{
    if inputs.len() == 0 {
        Seq::empty()
    } else {
        input_lit_lines(inputs.drop_last()) + lit_text(inputs.last()) + "\n"@
    }
}

pub open spec fn latch_lit_lines(latches: Seq<NodeId>, nodes: Seq<AigNode>) -> Seq<char>
    decreases latches.len(),
{
    if latches.len() == 0 {
        Seq::empty()
    } else {
        let latch = latches.last();
        latch_lit_lines(latches.drop_last(), nodes) + lit_text(latch) + " "@ + lit_text(
            nodes[latch.spec_index()].right,
        ) + "\n"@
    }
}

pub open spec fn label_lit_lines(labels: Seq<(LabelKind, usize, NodeId)>) -> Seq<char>
    decreases labels.len(),
{
    if labels.len() == 0 {
        Seq::empty()
    } else {
        label_lit_lines(labels.drop_last()) + lit_text(labels.last().2) + "\n"@
    }
}

pub open spec fn and_lit_lines(ids: Seq<NodeId>, nodes: Seq<AigNode>) -> Seq<char>
    decreases ids.len(),
{
    if ids.len() == 0 {
        Seq::empty()
    } else {
        let id = ids.last();
        let node = nodes[id.spec_index()];
        and_lit_lines(ids.drop_last(), nodes) + lit_text(id) + " "@ + lit_text(node.left) + " "@ + lit_text(
            node.right,
        ) + "\n"@
    }
}

pub open spec fn symbol_text(entries: Seq<(SymbolKind, usize, Seq<char>)>) -> Seq<char>
    decreases entries.len(),
{
    if entries.len() == 0 {
        Seq::empty()
    } else {
        let (kind, idx, name) = entries.last();
        symbol_text(entries.drop_last()) + seq![ascii_char(kind.spec_tag())] + decimal(idx as nat) + " "@ + name
            + "\n"@
    }
}

pub open spec fn comments_text(comments: Seq<char>) -> Seq<char> {
    if comments.len() == 0 {
        Seq::empty()
    } else {
        "c\n"@ + comments + "\n"@
    }
}

impl AigGraph {
    /// Every signal that ASCII writing names is no marker, and every latch
    /// names a latch node.
    pub open spec fn ascii_writable(&self) -> bool {
        let n = self.nodes.len() as int;
        &&& n <= MAX_GRAPH_INDEX + 1
        &&& self.inputs.len() + self.latches.len() <= n
        &&& self.bad_states.len() + self.constraints.len() + self.justice.len() + self.fairness.len()
            <= usize::MAX
        &&& forall|i: int| 0 <= i < self.inputs.len() ==> !(#[trigger] self.inputs@[i]).spec_is_marker()
        &&& forall|i: int|
            0 <= i < self.latches.len() ==> (#[trigger] self.latches@[i]).names_node(n)
                && self.nodes@[self.latches@[i].spec_index()].spec_is_latch()
        &&& forall|i: int|
            0 <= i < n && (#[trigger] self.nodes@[i]).spec_is_and() ==> !self.nodes@[i].right.spec_is_marker()
        &&& forall|i: int|
            0 <= i < self.spec_labels().len() ==> !(#[trigger] self.spec_labels()[i]).2.spec_is_marker()
    }

    /// The ASCII AIGER text of this graph, its symbols and comments.
    pub open spec fn spec_ascii_text(&self, symbols: Seq<(SymbolKind, usize, Seq<char>)>, comments: Seq<char>) -> Seq<
        char,
    > {
        header_text(self, "aag"@) + self.body_text() + symbol_text(symbols) + comments_text(comments)
    }

    /// The body lines: inputs, latches, labels, AND gates.
    pub open spec fn body_text(&self) -> Seq<char> {
        input_lit_lines(self.inputs@) + latch_lit_lines(self.latches@, self.nodes@) + label_lit_lines(
            self.spec_labels(),
        ) + and_lit_lines(and_gate_ids(self.nodes@), self.nodes@)
    }
}

/// A well-formed graph with closed references can be written as ASCII
/// AIGER, where its property counts fit together in a `usize`.
pub proof fn lemma_closed_graph_writable(g: &AigGraph)
    requires
        g.wf(),
        g.refs_closed(),
        g.bad_states.len() + g.constraints.len() + g.justice.len() + g.fairness.len() <= usize::MAX,
    ensures
        g.ascii_writable(),
{
    lemma_labels_are_signals(g);
}

/// Write the ASCII AIGER text of a graph.
pub fn write_ascii_aiger(g: &AigGraph, out: &mut String)
    requires
        g.ascii_writable(),
    ensures
        final(out)@ == old(out)@ + g.spec_ascii_text(Seq::empty(), Seq::empty()),
{
    write_aiger(g, AigerMode::Ascii, out)
}

/// Write the AIGER text of a graph in the given format; only ASCII is
/// supported.
pub fn write_aiger(g: &AigGraph, mode: AigerMode, out: &mut String)
    requires
        g.ascii_writable(),
        mode == AigerMode::Ascii,
    ensures
        final(out)@ == old(out)@ + g.spec_ascii_text(Seq::empty(), Seq::empty()),
{
    let st = SymbolTable::new();
    write_aiger_with_symbol_table(g, &st, mode, out);
    proof {
        assert(st.spec_symbols() =~= Seq::empty());
    }
}

/// Write the AIGER text of a graph and its symbol table.
pub fn write_aiger_with_symbol_table(g: &AigGraph, st: &SymbolTable, mode: AigerMode, out: &mut String)
    requires
        g.ascii_writable(),
        st.wf(),
        mode == AigerMode::Ascii,
    ensures
        final(out)@ == old(out)@ + g.spec_ascii_text(st.spec_symbols(), Seq::empty()),
{
    proof {
        reveal_strlit("");
    }
    write_aiger_with_symbol_table_and_comments(g, st, "", mode, out)
}

/// Write the AIGER text of a graph, its symbol table and its comments.
pub fn write_aiger_with_symbol_table_and_comments(
    g: &AigGraph,
    st: &SymbolTable,
    comments: &str,
    mode: AigerMode,
    out: &mut String,
)
    requires
        g.ascii_writable(),
        st.wf(),
        mode == AigerMode::Ascii,
    ensures
        final(out)@ == old(out)@ + g.spec_ascii_text(st.spec_symbols(), comments@),
{
    let ghost o0 = out@;
    write_header(g, mode, out);
    write_ascii_aiger_body(g, out);
    write_symbol_table(st, out);
    let mut tail = String::new();
    if !comments.is_empty() {
        tail.append("c\n");
        tail.append(comments);
        tail.append("\n");
    }
    assert(tail@ == comments_text(comments@)) by {
        if comments@.len() > 0 {
            assert(Seq::<char>::empty() + "c\n"@ == "c\n"@);
        } else {
            assert(tail@ =~= Seq::<char>::empty());
        }
    }
    out.append(tail.as_str());
    proof {
        lemma_concat4(o0, header_text(g, "aag"@), g.body_text(), symbol_text(st.spec_symbols()), comments_text(comments@));
    }
}

/// Concatenation regroups freely.
proof fn lemma_concat4(o: Seq<char>, a: Seq<char>, b: Seq<char>, c: Seq<char>, d: Seq<char>)
    ensures
        o + a + b + c + d == o + (a + b + c + d),
{
    assert(o + a + b + c + d =~= o + (a + b + c + d));
}

fn write_ascii_aiger_body(g: &AigGraph, out: &mut String)
    requires
        g.ascii_writable(),
    ensures
        final(out)@ == old(out)@ + g.body_text(),
{
    let ghost start = out@;
    let inputs = g.inputs();
    let mut i: usize = 0;
    while i < inputs.len()
        invariant
            g.ascii_writable(),
            inputs@ == g.inputs@,
            i <= inputs.len(),
            out@ == start + input_lit_lines(inputs@.take(i as int)),
        decreases inputs.len() - i,
    {
        assert(inputs@.take(i + 1).drop_last() == inputs@.take(i as int));
        let input = inputs[i];
        assert(!g.inputs@[i as int].spec_is_marker());
        push_decimal(out, to_lit(input));
        out.append("\n");
        i = i + 1;
    }
    assert(inputs@.take(i as int) == inputs@);
    let ghost after_inputs = out@;
    let latches = g.latches();
    let mut i: usize = 0;
    while i < latches.len()
        invariant
            g.ascii_writable(),
            latches@ == g.latches@,
            i <= latches.len(),
            out@ == after_inputs + latch_lit_lines(latches@.take(i as int), g.nodes@),
        decreases latches.len() - i,
    {
        assert(latches@.take(i + 1).drop_last() == latches@.take(i as int));
        let latch = latches[i];
        assert(g.latches@[i as int].names_node(g.nodes.len() as int));
        let next = match g.index(latch).get_latch_input() {
            Some(x) => x,
            None => NodeId::false_id(),
        };
        push_decimal(out, to_lit(latch));
        out.append(" ");
        push_decimal(out, to_lit(next));
        out.append("\n");
        i = i + 1;
    }
    assert(latches@.take(i as int) == latches@);
    let ghost after_latches = out@;
    let labels = g.labels();
    let mut i: usize = 0;
    while i < labels.len()
        invariant
            g.ascii_writable(),
            labels@ == g.spec_labels(),
            i <= labels.len(),
            out@ == after_latches + label_lit_lines(labels@.take(i as int)),
        decreases labels.len() - i,
    {
        assert(labels@.take(i + 1).drop_last() == labels@.take(i as int));
        let (_, _, node) = labels[i];
        assert(!g.spec_labels()[i as int].2.spec_is_marker());
        push_decimal(out, to_lit(node));
        out.append("\n");
        i = i + 1;
    }
    assert(labels@.take(i as int) == labels@);
    let ghost after_labels = out@;
    let ands = g.and_gates();
    let mut i: usize = 0;
    while i < ands.len()
        invariant
            g.ascii_writable(),
            ands@ == and_gate_ids(g.nodes@),
            i <= ands.len(),
            out@ == after_labels + and_lit_lines(ands@.take(i as int), g.nodes@),
        decreases ands.len() - i,
    {
        assert(ands@.take(i + 1).drop_last() == ands@.take(i as int));
        let node = ands[i];
        proof {
            lemma_and_gate_ids(g.nodes@, i as int);
        }
        let n = g.index(node);
        let left = n.left();
        let right = n.right();
        push_decimal(out, to_lit(node));
        out.append(" ");
        push_decimal(out, to_lit(left));
        out.append(" ");
        push_decimal(out, to_lit(right));
        out.append("\n");
        i = i + 1;
    }
    assert(ands@.take(i as int) == ands@);
    proof {
        lemma_concat4(
            start,
            input_lit_lines(g.inputs@),
            latch_lit_lines(g.latches@, g.nodes@),
            label_lit_lines(g.spec_labels()),
            and_lit_lines(and_gate_ids(g.nodes@), g.nodes@),
        );
    }
}

/// Each ID in `and_gate_ids` names an AND node of `nodes`.
pub proof fn lemma_and_gate_ids(nodes: Seq<AigNode>, k: int)
    requires
        nodes.len() <= MAX_GRAPH_INDEX + 1,
        0 <= k < and_gate_ids(nodes).len(),
    ensures
        ({
            let id = and_gate_ids(nodes)[k];
            &&& id.names_node(nodes.len() as int)
            &&& !id.spec_is_inverted()
            &&& nodes[id.spec_index()].spec_is_and()
        }),
    decreases nodes.len(),
{
    let rest = and_gate_ids(nodes.drop_last());
    lemma_index_roundtrip(nodes.len() - 1);
    if k < rest.len() {
        lemma_and_gate_ids(nodes.drop_last(), k);
        let id = rest[k];
        assert(nodes.drop_last()[id.spec_index()] == nodes[id.spec_index()]);
    }
}

/// The AIGER literal of a non-marker signal.
fn to_lit(id: NodeId) -> (r: usize)
    requires
        !id.spec_is_marker(),
    ensures
        r == lit_of(id),
{
    if id.is_false() {
        0
    } else if id.is_true() {
        1
    } else {
        let index = id.index();
        let inverted: usize = if id.is_inverted() {
            1
        } else {
            0
        };
        ((index + 1) * 2) + inverted
    }
}

fn write_header(g: &AigGraph, mode: AigerMode, out: &mut String)
    requires
        g.ascii_writable(),
    ensures
        final(out)@ == old(out)@ + header_text(g, mode.spec_ext()),
{
    let tag = mode.ext();
    let i = g.inputs().len();
    let l = g.latches().len();
    let o = g.outputs().len();
    let a = g.num_and_gates();
    let m = i + l + a;
    let b = g.bad_states().len();
    let c = g.invariants().len();
    let j = g.justice().len();
    let f = g.fairness().len();
    let mut line = String::new();
    line.append(tag);
    assert(line@ == tag@) by {
        assert(Seq::<char>::empty() + tag@ =~= tag@);
    }
    line.append(" ");
    push_decimal(&mut line, m);
    line.append(" ");
    push_decimal(&mut line, i);
    line.append(" ");
    push_decimal(&mut line, l);
    line.append(" ");
    push_decimal(&mut line, o);
    line.append(" ");
    push_decimal(&mut line, a);
    if b + c + j + f > 0 {
        line.append(" ");
        push_decimal(&mut line, b);
        line.append(" ");
        push_decimal(&mut line, c);
        line.append(" ");
        push_decimal(&mut line, j);
        line.append(" ");
        push_decimal(&mut line, f);
    }
    line.append("\n");
    out.append(line.as_str());
}

fn write_symbol_table(st: &SymbolTable, out: &mut String)
    requires
        st.wf(),
    ensures
        final(out)@ == old(out)@ + symbol_text(st.spec_symbols()),
{
    let ghost start = out@;
    let symbols = st.symbols();
    let mut i: usize = 0;
    while i < symbols.len()
        invariant
            entries_view(symbols@) == st.spec_symbols(),
            i <= symbols.len(),
            out@ == start + symbol_text(entries_view(symbols@).take(i as int)),
        decreases symbols.len() - i,
    {
        assert(entries_view(symbols@).take(i + 1).drop_last() == entries_view(symbols@).take(i as int));
        let (kind, idx, name) = &symbols[i];
        push_char(out, kind.tag() as char);
        push_decimal(out, *idx);
        out.append(" ");
        out.append(name.as_str());
        out.append("\n");
        i = i + 1;
    }
    assert(entries_view(symbols@).take(i as int) == entries_view(symbols@));
}

} // verus!
