//! Rendering an AIG as Graphviz DOT text.

use crate::graph::{label_seq, AigGraph, AigNode, LabelKind, NodeId, MAX_GRAPH_INDEX};
use crate::text::{ascii_char, decimal, lemma_decimal_injective, lemma_decimal_is_digits, push_char, push_decimal};
use vstd::prelude::*;
use vstd::string::*;

verus! {

/// The DOT node name of a non-marker signal (of its regular form).
pub open spec fn dot_name(id: NodeId) -> Seq<char> {
    if id.spec_regular().0 == 0 {
        "const_false"@
    } else {
        "n"@ + decimal(id.spec_regular().spec_index() as nat)
    }
}

/// Inputs are labelled with letters: `a` to `z`, then `aa`, `ab`, ...
pub open spec fn input_label(index: nat) -> Seq<char>
    decreases index,
{
    if index < 26 {
        seq![ascii_char((97 + index) as u8)]
    } else {
        input_label((index / 26 - 1) as nat).push(ascii_char((97 + index % 26) as u8))
    }
}

/// The DOT edge from `child` to `parent`; dashed where `child` is inverted.
pub open spec fn edge_text(child: NodeId, parent: Seq<char>, label: Seq<char>) -> Seq<char> {
    let child_name = dot_name(child.spec_regular());
    if label.len() == 0 {
        if child.spec_is_inverted() {
            "\t"@ + child_name + " -> "@ + parent + " [style=dashed];\n"@
        } else {
            "\t"@ + child_name + " -> "@ + parent + ";\n"@
        }
    } else if child.spec_is_inverted() {
        "\t"@ + child_name + " -> "@ + parent + " [label=\""@ + label + "\", style=dashed];\n"@
    } else {
        "\t"@ + child_name + " -> "@ + parent + " [label=\""@ + label + "\"];\n"@
    }
}

pub open spec fn dot_header() -> Seq<char> {
    "digraph AIG {\n\trankdir=BT;\n\tordering=out;\n\tnode [fontname=\"Helvetica\"];\n\tedge [fontname=\"Helvetica\"];\n\n\tconst_false [label=\"false\", shape=box];\n\n"@
}

pub open spec fn input_lines(inputs: Seq<NodeId>) -> Seq<char>
    decreases inputs.len(),
{
    if inputs.len() == 0 {
        Seq::empty()
    } else {
        input_lines(inputs.drop_last()) + "\t"@ + dot_name(inputs.last().spec_regular()) + " [label=\""@
            + input_label((inputs.len() - 1) as nat) + "\", shape=box];\n"@
    }
}

pub open spec fn latch_lines(latches: Seq<NodeId>) -> Seq<char>
    decreases latches.len(),
{
    if latches.len() == 0 {
        Seq::empty()
    } else {
        latch_lines(latches.drop_last()) + "\t"@ + dot_name(latches.last().spec_regular()) + " [label=\"l"@
            + decimal((latches.len() - 1) as nat) + "\", shape=box, style=rounded];\n"@
    }
}

pub open spec fn and_node_lines(nodes: Seq<AigNode>) -> Seq<char>
    decreases nodes.len(),
{
    if nodes.len() == 0 {
        Seq::empty()
    } else {
        let rest = and_node_lines(nodes.drop_last());
        if nodes.last().spec_is_and() {
            rest + "\t"@ + dot_name(NodeId::spec_from_index(nodes.len() - 1)) + " [label=\"AND\", shape=circle];\n"@
        } else {
            rest
        }
    }
}

pub open spec fn and_edge_lines(nodes: Seq<AigNode>) -> Seq<char>
    decreases nodes.len(),
{
    if nodes.len() == 0 {
        Seq::empty()
    } else {
        let rest = and_edge_lines(nodes.drop_last());
        let node = nodes.last();
        let parent = dot_name(NodeId::spec_from_index(nodes.len() - 1));
        if node.spec_is_and() {
            rest + edge_text(node.left, parent, "left"@) + edge_text(node.right, parent, "right"@)
        } else {
            rest
        }
    }
}

pub open spec fn latch_edge_lines(latches: Seq<NodeId>, nodes: Seq<AigNode>) -> Seq<char>
    decreases latches.len(),
{
    if latches.len() == 0 {
        Seq::empty()
    } else {
        let latch = latches.last();
        latch_edge_lines(latches.drop_last(), nodes) + edge_text(
            nodes[latch.spec_index()].right,
            dot_name(latch.spec_regular()),
            "next"@,
        )
    }
}

pub open spec fn label_prefix(kind: LabelKind) -> Seq<char> {
    match kind {
        LabelKind::Output => "out"@,
        LabelKind::BadState => "bad"@,
        LabelKind::Constraints => "inv"@,
        LabelKind::Justice => "just"@,
        LabelKind::Fairness => "fair"@,
    }
}

/// Labels get different DOT names wherever their kinds or their positions
/// differ: the name is the kind's word followed by the position in decimal,
/// and no two kinds share a word.
pub proof fn lemma_label_names_distinct(k1: LabelKind, a: usize, k2: LabelKind, b: usize)
    ensures
        label_prefix(k1) + decimal(a as nat) == label_prefix(k2) + decimal(b as nat) ==> k1 == k2 && a == b,
{
    reveal_strlit("out");
    reveal_strlit("bad");
    reveal_strlit("inv");
    reveal_strlit("just");
    reveal_strlit("fair");
    let p1 = label_prefix(k1);
    let p2 = label_prefix(k2);
    let d1 = decimal(a as nat);
    let d2 = decimal(b as nat);
    lemma_decimal_is_digits(a as nat);
    lemma_decimal_is_digits(b as nat);
    assert forall|k: LabelKind, j: int| 0 <= j < label_prefix(k).len() implies !(48 <= #[trigger] (label_prefix(
        k,
    )[j] as u8) <= 57) by {
        match k {
            LabelKind::Output => assert(label_prefix(k) == seq!['o', 'u', 't']),
            LabelKind::BadState => assert(label_prefix(k) == seq!['b', 'a', 'd']),
            LabelKind::Constraints => assert(label_prefix(k) == seq!['i', 'n', 'v']),
            LabelKind::Justice => assert(label_prefix(k) == seq!['j', 'u', 's', 't']),
            LabelKind::Fairness => assert(label_prefix(k) == seq!['f', 'a', 'i', 'r']),
        }
    }
    if p1 + d1 == p2 + d2 {
        if p1.len() < p2.len() {
            assert((p1 + d1)[p1.len() as int] == d1[0]);
            assert((p2 + d2)[p1.len() as int] == p2[p1.len() as int]);
            assert(48 <= (d1[0] as u8) <= 57);
            assert(!(48 <= (label_prefix(k2)[p1.len() as int] as u8) <= 57));
        } else if p2.len() < p1.len() {
            assert((p2 + d2)[p2.len() as int] == d2[0]);
            assert((p1 + d1)[p2.len() as int] == p1[p2.len() as int]);
            assert(48 <= (d2[0] as u8) <= 57);
            assert(!(48 <= (label_prefix(k1)[p2.len() as int] as u8) <= 57));
        } else {
            assert(p1 =~= (p1 + d1).subrange(0, p1.len() as int));
            assert(p2 =~= (p2 + d2).subrange(0, p2.len() as int));
            assert(d1 =~= (p1 + d1).subrange(p1.len() as int, (p1 + d1).len() as int));
            assert(d2 =~= (p2 + d2).subrange(p2.len() as int, (p2 + d2).len() as int));
            lemma_decimal_injective(a as nat, b as nat);
            assert(p1 == p2);
            lemma_label_prefix_injective(k1, k2);
        }
    }
}

proof fn lemma_label_prefix_injective(k1: LabelKind, k2: LabelKind)
    ensures
        label_prefix(k1) == label_prefix(k2) ==> k1 == k2,
{
    reveal_strlit("out");
    reveal_strlit("bad");
    reveal_strlit("inv");
    reveal_strlit("just");
    reveal_strlit("fair");
    if label_prefix(k1) == label_prefix(k2) {
        let c = label_prefix(k1)[0];
        assert(c == label_prefix(k2)[0]);
        match k1 {
            LabelKind::Output => {
                assert(c == 'o');
            },
            LabelKind::BadState => {
                assert(c == 'b');
            },
            LabelKind::Constraints => {
                assert(c == 'i');
            },
            LabelKind::Justice => {
                assert(c == 'j');
            },
            LabelKind::Fairness => {
                assert(c == 'f');
            },
        }
        match k2 {
            LabelKind::Output => {
                assert(c == 'o');
            },
            LabelKind::BadState => {
                assert(c == 'b');
            },
            LabelKind::Constraints => {
                assert(c == 'i');
            },
            LabelKind::Justice => {
                assert(c == 'j');
            },
            LabelKind::Fairness => {
                assert(c == 'f');
            },
        }
        assert(k1 == k2);
    }
}

pub open spec fn label_lines(labels: Seq<(LabelKind, usize, NodeId)>) -> Seq<char>
    decreases labels.len(),
{
    if labels.len() == 0 {
        Seq::empty()
    } else {
        let (kind, index, expr) = labels.last();
        let name = label_prefix(kind) + decimal(index as nat);
        label_lines(labels.drop_last()) + "\t"@ + name + " [label=\""@ + name + "\", shape=box];\n"@
            + edge_text(expr, name, Seq::empty())
    }
}

impl AigGraph {
    /// No signal that rendering names is a marker: inputs, latch next
    /// states, right children of AND nodes and labels; latches name nodes.
    pub open spec fn dot_renderable(&self) -> bool {
        let n = self.nodes.len() as int;
        &&& forall|i: int| 0 <= i < self.inputs.len() ==> !(#[trigger] self.inputs@[i]).spec_is_marker()
        &&& forall|i: int|
            0 <= i < self.latches.len() ==> (#[trigger] self.latches@[i]).names_node(n)
                && !self.nodes@[self.latches@[i].spec_index()].right.spec_is_marker()
        &&& forall|i: int|
            0 <= i < n && (#[trigger] self.nodes@[i]).spec_is_and() ==> !self.nodes@[i].right.spec_is_marker()
        &&& forall|i: int|
            0 <= i < self.spec_labels().len() ==> !(#[trigger] self.spec_labels()[i]).2.spec_is_marker()
    }

    /// The DOT text of this graph.
    pub open spec fn spec_dot(&self) -> Seq<char> {
        dot_header() + input_lines(self.inputs@) + "\n"@ + latch_lines(self.latches@) + "\n"@
            + and_node_lines(self.nodes@) + "\n"@ + and_edge_lines(self.nodes@) + "\n"@ + latch_edge_lines(
            self.latches@,
            self.nodes@,
        ) + "\n"@ + label_lines(self.spec_labels()) + "}\n"@
    }

    /// Render this graph as Graphviz DOT text.
    pub fn to_dot(&self) -> (r: String)
        requires
            self.nodes.len() <= MAX_GRAPH_INDEX + 1,
            self.dot_renderable(),
        ensures
            r@ == self.spec_dot(),
    {
        let mut dot = String::new();
        dot.append(
            "digraph AIG {\n\trankdir=BT;\n\tordering=out;\n\tnode [fontname=\"Helvetica\"];\n\tedge [fontname=\"Helvetica\"];\n\n\tconst_false [label=\"false\", shape=box];\n\n",
        );
        self.write_inputs(&mut dot);
        dot.append("\n");
        self.write_latches(&mut dot);
        dot.append("\n");
        self.write_and_nodes(&mut dot);
        dot.append("\n");
        self.write_and_edges(&mut dot);
        dot.append("\n");
        self.write_latch_edges(&mut dot);
        dot.append("\n");
        let labels = self.labels();
        write_labels(&mut dot, &labels);
        dot.append("}\n");
        dot
    }

    fn write_inputs(&self, dot: &mut String)
        requires
            self.dot_renderable(),
        ensures
            final(dot)@ == old(dot)@ + input_lines(self.inputs@),
    {
        let ghost start = dot@;
        let mut i: usize = 0;
        while i < self.inputs.len()
            invariant
                i <= self.inputs.len(),
                self.dot_renderable(),
                dot@ == start + input_lines(self.inputs@.take(i as int)),
            decreases self.inputs.len() - i,
        {
            let ghost prefix = self.inputs@.take(i + 1);
            assert(prefix.drop_last() == self.inputs@.take(i as int));
            let id = self.inputs[i];
            assert(!self.inputs@[i as int].spec_is_marker());
            let node_name = Self::dot_name(id.regular());
            let input_label = Self::input_label(i);
            dot.append("\t");
            dot.append(node_name.as_str());
            dot.append(" [label=\"");
            dot.append(input_label.as_str());
            dot.append("\", shape=box];\n");
            i = i + 1;
            assert(dot@ == start + input_lines(prefix));
        }
        assert(self.inputs@.take(i as int) == self.inputs@);
    }

    fn write_latches(&self, dot: &mut String)
        requires
            self.dot_renderable(),
        ensures
            final(dot)@ == old(dot)@ + latch_lines(self.latches@),
    {
        let ghost start = dot@;
        let mut i: usize = 0;
        while i < self.latches.len()
            invariant
                i <= self.latches.len(),
                self.dot_renderable(),
                dot@ == start + latch_lines(self.latches@.take(i as int)),
            decreases self.latches.len() - i,
        {
            let ghost prefix = self.latches@.take(i + 1);
            assert(prefix.drop_last() == self.latches@.take(i as int));
            let id = self.latches[i];
            assert(self.latches@[i as int].names_node(self.nodes.len() as int));
            let node_name = Self::dot_name(id.regular());
            dot.append("\t");
            dot.append(node_name.as_str());
            dot.append(" [label=\"l");
            push_decimal(dot, i);
            dot.append("\", shape=box, style=rounded];\n");
            i = i + 1;
            assert(dot@ == start + latch_lines(prefix));
        }
        assert(self.latches@.take(i as int) == self.latches@);
    }

    fn write_and_nodes(&self, dot: &mut String)
        requires
            self.nodes.len() <= MAX_GRAPH_INDEX + 1,
        ensures
            final(dot)@ == old(dot)@ + and_node_lines(self.nodes@),
    {
        let ghost start = dot@;
        let mut i: usize = 0;
        while i < self.nodes.len()
            invariant
                i <= self.nodes.len() <= MAX_GRAPH_INDEX + 1,
                dot@ == start + and_node_lines(self.nodes@.take(i as int)),
            decreases self.nodes.len() - i,
        {
            let ghost prefix = self.nodes@.take(i + 1);
            assert(prefix.drop_last() == self.nodes@.take(i as int));
            if self.nodes[i].is_and() {
                let node_id = NodeId::from_index(i);
                let node_name = Self::dot_name(node_id);
                dot.append("\t");
                dot.append(node_name.as_str());
                dot.append(" [label=\"AND\", shape=circle];\n");
            }
            i = i + 1;
            assert(dot@ == start + and_node_lines(prefix));
        }
        assert(self.nodes@.take(i as int) == self.nodes@);
    }

    fn write_and_edges(&self, dot: &mut String)
        requires
            self.nodes.len() <= MAX_GRAPH_INDEX + 1,
            self.dot_renderable(),
        ensures
            final(dot)@ == old(dot)@ + and_edge_lines(self.nodes@),
    {
        let ghost start = dot@;
        let mut i: usize = 0;
        while i < self.nodes.len()
            invariant
                i <= self.nodes.len() <= MAX_GRAPH_INDEX + 1,
                self.dot_renderable(),
                dot@ == start + and_edge_lines(self.nodes@.take(i as int)),
            decreases self.nodes.len() - i,
        {
            let ghost prefix = self.nodes@.take(i + 1);
            assert(prefix.drop_last() == self.nodes@.take(i as int));
            let node = self.nodes[i];
            if node.is_and() {
                let parent_id = NodeId::from_index(i);
                let parent_name = Self::dot_name(parent_id);
                Self::write_dot_edge(dot, node.left(), parent_name.as_str(), "left");
                Self::write_dot_edge(dot, node.right(), parent_name.as_str(), "right");
            }
            i = i + 1;
            assert(dot@ == start + and_edge_lines(prefix));
        }
        assert(self.nodes@.take(i as int) == self.nodes@);
    }

    fn write_latch_edges(&self, dot: &mut String)
        requires
            self.dot_renderable(),
        ensures
            final(dot)@ == old(dot)@ + latch_edge_lines(self.latches@, self.nodes@),
    {
        let ghost start = dot@;
        let mut i: usize = 0;
        while i < self.latches.len()
            invariant
                i <= self.latches.len(),
                self.dot_renderable(),
                dot@ == start + latch_edge_lines(self.latches@.take(i as int), self.nodes@),
            decreases self.latches.len() - i,
        {
            let ghost prefix = self.latches@.take(i + 1);
            assert(prefix.drop_last() == self.latches@.take(i as int));
            let latch_id = self.latches[i];
            assert(self.latches@[i as int].names_node(self.nodes.len() as int));
            let latch = self.index(latch_id);
            let latch_name = Self::dot_name(latch_id.regular());
            Self::write_dot_edge(dot, latch.right(), latch_name.as_str(), "next");
            i = i + 1;
            assert(dot@ == start + latch_edge_lines(prefix, self.nodes@));
        }
        assert(self.latches@.take(i as int) == self.latches@);
    }

    fn write_dot_edge(dot: &mut String, child: NodeId, parent_name: &str, edge_label: &str)
        requires
            !child.spec_is_marker(),
        ensures
            final(dot)@ == old(dot)@ + edge_text(child, parent_name@, edge_label@),
    {
        let child_name = Self::dot_name(child.regular());
        if edge_label.is_empty() {
            assert(edge_label@.len() == 0);
            dot.append("\t");
            dot.append(child_name.as_str());
            dot.append(" -> ");
            dot.append(parent_name);
            if child.is_inverted() {
                dot.append(" [style=dashed];\n");
            } else {
                dot.append(";\n");
            }
        } else {
            assert(edge_label@.len() != 0);
            dot.append("\t");
            dot.append(child_name.as_str());
            dot.append(" -> ");
            dot.append(parent_name);
            dot.append(" [label=\"");
            dot.append(edge_label);
            if child.is_inverted() {
                dot.append("\", style=dashed];\n");
            } else {
                dot.append("\"];\n");
            }
        }
    }

    /// The DOT node name of a signal: `const_false` for the constants,
    /// `n` and the graph index otherwise.
    fn dot_name(id: NodeId) -> (r: String)
        requires
            !id.spec_is_marker(),
        ensures
            r@ == dot_name(id),
    {
        let regular_id = id.regular();
        if regular_id.is_false() {
            String::from_str("const_false")
        } else {
            let index = regular_id.index();
            let mut name = String::from_str("n");
            push_decimal(&mut name, index);
            name
        }
    }

    /// Letters for input indices: 0 is `a`, 25 is `z`, 26 is `aa`, ...
    fn input_label(index: usize) -> (r: String)
        ensures
            r@ == input_label(index as nat),
        decreases index,
    {
        if index < 26 {
            let mut s = String::new();
            push_char(&mut s, (97u8 + index as u8) as char);
            s
        } else {
            let mut s = Self::input_label((index / 26) - 1);
            push_char(&mut s, (97u8 + (index % 26) as u8) as char);
            s
        }
    }
}

/// A graph that building leaves well-formed with closed references can be
/// rendered.
pub proof fn lemma_closed_graph_renderable(g: &AigGraph)
    requires
        g.wf(),
        g.refs_closed(),
    ensures
        g.dot_renderable(),
{
    lemma_labels_are_signals(g);
}

/// Every label of a graph with closed references is a signal of it.
pub proof fn lemma_labels_are_signals(g: &AigGraph)
    requires
        g.refs_closed(),
    ensures
        forall|i: int|
            0 <= i < g.spec_labels().len() ==> (#[trigger] g.spec_labels()[i]).2.is_signal_of(
                g.nodes.len() as int,
            ),
{
    let n = g.nodes.len() as int;
    let a = label_seq(LabelKind::Output, g.outputs@);
    let b = label_seq(LabelKind::BadState, g.bad_states@);
    let c = label_seq(LabelKind::Constraints, g.constraints@);
    let d = label_seq(LabelKind::Justice, g.justice@);
    let e = label_seq(LabelKind::Fairness, g.fairness@);
    assert forall|i: int| 0 <= i < g.spec_labels().len() implies (#[trigger] g.spec_labels()[i]).2.is_signal_of(
        n,
    ) by {
        let l = g.spec_labels();
        if i < a.len() {
            assert(l[i] == a[i]);
            assert(g.outputs@[i].is_signal_of(n));
        } else if i < a.len() + b.len() {
            assert(l[i] == b[i - a.len()]);
            assert(g.bad_states@[i - a.len()].is_signal_of(n));
        } else if i < a.len() + b.len() + c.len() {
            assert(l[i] == c[i - a.len() - b.len()]);
            assert(g.constraints@[i - a.len() - b.len()].is_signal_of(n));
        } else if i < a.len() + b.len() + c.len() + d.len() {
            assert(l[i] == d[i - a.len() - b.len() - c.len()]);
            assert(g.justice@[i - a.len() - b.len() - c.len()].is_signal_of(n));
        } else {
            assert(l[i] == e[i - a.len() - b.len() - c.len() - d.len()]);
            assert(g.fairness@[i - a.len() - b.len() - c.len() - d.len()].is_signal_of(n));
        }
    }
}

#[verifier::spinoff_prover]
#[verifier::rlimit(30)]
fn write_labels(dot: &mut String, labels: &Vec<(LabelKind, usize, NodeId)>)
    requires
        forall|i: int| 0 <= i < labels.len() ==> !(#[trigger] labels@[i]).2.spec_is_marker(),
    ensures
        final(dot)@ == old(dot)@ + label_lines(labels@),
{
    let ghost start = dot@;
    let mut i: usize = 0;
    while i < labels.len()
        invariant
            i <= labels.len(),
            forall|i: int| 0 <= i < labels.len() ==> !(#[trigger] labels@[i]).2.spec_is_marker(),
            dot@ == start + label_lines(labels@.take(i as int)),
        decreases labels.len() - i,
    {
        let ghost prefix = labels@.take(i + 1);
        assert(prefix.drop_last() == labels@.take(i as int));
        let (kind, index, expr) = labels[i];
        assert(!labels@[i as int].2.spec_is_marker());
        let mut name = match kind {
            LabelKind::Output => String::from_str("out"),
            LabelKind::BadState => String::from_str("bad"),
            LabelKind::Constraints => String::from_str("inv"),
            LabelKind::Justice => String::from_str("just"),
            LabelKind::Fairness => String::from_str("fair"),
        };
        push_decimal(&mut name, index);
        assert(name@ == label_prefix(kind) + decimal(index as nat));
        proof {
            reveal_strlit("");
        }
        dot.append("\t");
        dot.append(name.as_str());
        dot.append(" [label=\"");
        dot.append(name.as_str());
        dot.append("\", shape=box];\n");
        AigGraph::write_dot_edge(dot, expr, name.as_str(), "");
        i = i + 1;
        assert(dot@ == start + label_lines(prefix));
    }
    assert(labels@.take(i as int) == labels@);
}

} // verus!
