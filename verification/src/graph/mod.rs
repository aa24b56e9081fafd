//! Graph data structures for AIGs.
//!
//! Most users start with [`AigBuilder`], add inputs, latches, AND gates and
//! outputs, then call [`AigBuilder::build`] to get an [`AigGraph`].

use std::collections::HashMap;

pub mod fanin;
pub mod graphviz;
pub mod symbols;
use vstd::prelude::*;

verus! {

broadcast use vstd::std_specs::hash::group_hash_axioms;

/// Bit that marks an inverted signal.
pub const INVERSION_MASK: u32 = 1u32;

/// Bits that identify a node, without the inversion bit.
pub const NODE_ID_MASK: u32 = 0xFFFF_FFFEu32;

/// The largest graph index whose `NodeId` stays below the marker value.
pub const MAX_GRAPH_INDEX: usize = 2147483645usize;

/// An identifier for a signal in an AIG.
///
/// A `NodeId` refers to a constant, an input, a latch, an AND node, or the
/// inverted form of one of those. The lowest bit is the inversion flag; the
/// other bits name the node (`0` is the false constant, `2 * (i + 1)` is
/// graph index `i`).
#[derive(Debug, Clone, Copy, PartialEq, Eq, Structural, Hash, PartialOrd, Ord)]
pub struct NodeId(pub u32);

impl NodeId {
    /// The false constant.
    pub fn false_id() -> (r: NodeId)
        ensures
            r == NodeId(0),
    {
        NodeId(0)
    }

    /// The true constant.
    pub fn true_id() -> (r: NodeId)
        ensures
            r == NodeId(1),
    {
        NodeId(1)
    }

    /// Reserved marker used inside [`AigNode`] for inputs and latches; it is
    /// never the ID of a real graph node.
    pub fn none() -> (r: NodeId)
        ensures
            r == NodeId(NODE_ID_MASK),
    {
        NodeId(NODE_ID_MASK)
    }

    pub open spec fn spec_is_inverted(self) -> bool {
        self.0 % 2 == 1
    }

    pub open spec fn spec_regular(self) -> NodeId {
        NodeId((self.0 - self.0 % 2) as u32)
    }

    pub open spec fn spec_invert(self) -> NodeId {
        if self.0 % 2 == 0 {
            NodeId((self.0 + 1) as u32)
        } else {
            NodeId((self.0 - 1) as u32)
        }
    }

    pub open spec fn spec_is_const(self) -> bool {
        self.0 < 2
    }

    pub open spec fn spec_is_marker(self) -> bool {
        self.0 >= NODE_ID_MASK
    }

    /// The graph index that a non-constant, non-marker signal names.
    pub open spec fn spec_index(self) -> int {
        self.0 / 2 - 1
    }

    /// The regular signal of graph index `index`.
    pub open spec fn spec_from_index(index: int) -> NodeId {
        NodeId(((index + 1) * 2) as u32)
    }

    /// This signal names a node of a graph with `n` nodes (possibly inverted).
    pub open spec fn names_node(self, n: int) -> bool {
        !self.spec_is_const() && !self.spec_is_marker() && self.spec_index() < n
    }

    /// This signal is a constant or names a node of a graph with `n` nodes.
    pub open spec fn is_signal_of(self, n: int) -> bool {
        self.spec_is_const() || self.names_node(n)
    }

    /// Return whether this signal is inverted.
    #[verifier::when_used_as_spec(spec_is_inverted)]
    pub fn is_inverted(self) -> (r: bool)
        ensures
            r == self.spec_is_inverted(),
    {
        let x = self.0;
        assert((x & 1u32) != 0 <==> x % 2 == 1) by (bit_vector);
        (self.0 & INVERSION_MASK) != 0
    }

    /// Return this signal without its inversion bit.
    #[verifier::when_used_as_spec(spec_regular)]
    pub fn regular(self) -> (r: NodeId)
        ensures
            r == self.spec_regular(),
    {
        let x = self.0;
        assert(x & 0xFFFF_FFFEu32 == x - x % 2) by (bit_vector);
        NodeId(self.0 & NODE_ID_MASK)
    }

    /// Return the inverted form of this signal.
    #[verifier::when_used_as_spec(spec_invert)]
    pub fn invert(self) -> (r: NodeId)
        ensures
            r == self.spec_invert(),
    {
        let x = self.0;
        assert(x % 2 == 0 ==> x ^ 1u32 == x + 1) by (bit_vector);
        assert(x % 2 == 1 ==> x ^ 1u32 == x - 1) by (bit_vector);
        NodeId(self.0 ^ INVERSION_MASK)
    }

    /// Return whether this signal is one of the two constants.
    #[verifier::when_used_as_spec(spec_is_const)]
    pub fn is_const(self) -> (r: bool)
        ensures
            r == self.spec_is_const(),
    {
        self.regular() == NodeId::false_id()
    }

    /// Marker values are reserved for classifying input and latch nodes.
    #[verifier::when_used_as_spec(spec_is_marker)]
    pub fn is_marker(self) -> (r: bool)
        ensures
            r == self.spec_is_marker(),
    {
        self.regular() == NodeId::none()
    }

    /// Return whether this signal is the false constant.
    pub fn is_false(self) -> (r: bool)
        ensures
            r == (self.0 == 0),
    {
        self == NodeId::false_id()
    }

    /// Return whether this signal is the true constant.
    pub fn is_true(self) -> (r: bool)
        ensures
            r == (self.0 == 1),
    {
        self == NodeId::true_id()
    }

    /// The graph index of a signal that names a node.
    pub fn index(self) -> (r: usize)
        requires
            !self.spec_is_const(),
            !self.spec_is_marker(),
        ensures
            r == self.spec_index(),
    {
        match self.to_index() {
            Ok(i) => i,
            Err(_) => 0,
        }
    }

    /// Convert a non-constant, non-marker signal to its graph index.
    ///
    /// Constants and markers are not stored as graph nodes; for them the
    /// conversion fails.
    pub fn to_index(self) -> (r: Result<usize, &'static str>)
        ensures
            r is Err <==> (self.spec_is_const() || self.spec_is_marker()),
            r matches Ok(i) ==> i == self.spec_index(),
    {
        let regular_id = self.regular();
        if regular_id.is_const() {
            return Err("constants are not stored in the graph");
        }
        if regular_id.is_marker() {
            return Err("input/latch marker is not stored in the graph");
        }
        Ok(((regular_id.0 / 2) - 1) as usize)
    }

    /// The regular signal of a graph index.
    ///
    /// Graph index `i` is `NodeId(2 * (i + 1))`; indices above
    /// [`MAX_GRAPH_INDEX`] would collide with the marker value.
    pub fn from_index(index: usize) -> (r: NodeId)
        requires
            index <= MAX_GRAPH_INDEX,
        ensures
            r == NodeId::spec_from_index(index as int),
    {
        NodeId(((index + 1) * 2) as u32)
    }
}

/// Inverting twice gives the signal back; inversion keeps the node and
/// flips the inversion flag.
pub proof fn lemma_invert_involution(id: NodeId)
    ensures
        id.spec_invert().spec_invert() == id,
        id.spec_invert().spec_regular() == id.spec_regular(),
        id.spec_invert().spec_is_inverted() == !id.spec_is_inverted(),
        id.spec_regular().spec_regular() == id.spec_regular(),
        !id.spec_regular().spec_is_inverted(),
        id.spec_invert().spec_is_const() == id.spec_is_const(),
        id.spec_invert().spec_is_marker() == id.spec_is_marker(),
{
}

/// Indexing by graph index and back are inverse to each other.
pub proof fn lemma_index_roundtrip(index: int)
    requires
        0 <= index <= MAX_GRAPH_INDEX,
    ensures
        NodeId::spec_from_index(index).spec_index() == index,
        !NodeId::spec_from_index(index).spec_is_const(),
        !NodeId::spec_from_index(index).spec_is_marker(),
        !NodeId::spec_from_index(index).spec_is_inverted(),
{
}


/// One node in an AIG graph.
///
/// Inputs and latches are marker nodes: an input has two marker children, a
/// latch has a marker left child and its next-state signal on the right. AND
/// nodes store their two input signals.
#[derive(Debug, Clone, Copy, PartialEq, Eq, Structural, Hash)]
pub struct AigNode {
    pub left: NodeId,
    pub right: NodeId,
}

impl AigNode {
    pub open spec fn spec_is_input(&self) -> bool {
        self.left.spec_is_marker() && self.right.spec_is_marker()
    }

    pub open spec fn spec_is_latch(&self) -> bool {
        self.left.spec_is_marker() && !self.right.spec_is_marker()
    }

    pub open spec fn spec_is_and(&self) -> bool {
        !self.left.spec_is_marker()
    }

    fn new(left: NodeId, right: NodeId) -> (r: AigNode)
        ensures
            r == (AigNode { left, right }),
    {
        AigNode { left, right }
    }

    fn new_input() -> (r: AigNode)
        ensures
            r == (AigNode { left: NodeId(NODE_ID_MASK), right: NodeId(NODE_ID_MASK) }),
    {
        AigNode { left: NodeId::none(), right: NodeId::none() }
    }

    fn new_latch(latch_input: NodeId) -> (r: AigNode)
        ensures
            r == (AigNode { left: NodeId(NODE_ID_MASK), right: latch_input }),
    {
        AigNode { left: NodeId::none(), right: latch_input }
    }

    /// Return the left input signal; for inputs and latches a marker.
    pub fn left(&self) -> (r: NodeId)
        ensures
            r == self.left,
    {
        self.left
    }

    /// Return the right input signal; for latches the next-state signal.
    pub fn right(&self) -> (r: NodeId)
        ensures
            r == self.right,
    {
        self.right
    }

    /// Return whether this node is an input marker.
    #[verifier::when_used_as_spec(spec_is_input)]
    pub fn is_input(&self) -> (r: bool)
        ensures
            r == self.spec_is_input(),
    {
        self.left.is_marker() && self.right.is_marker()
    }

    /// Return whether this node is a latch marker.
    #[verifier::when_used_as_spec(spec_is_latch)]
    pub fn is_latch(&self) -> (r: bool)
        ensures
            r == self.spec_is_latch(),
    {
        self.left.is_marker() && !self.right.is_marker()
    }

    /// Return whether this node is an AND gate.
    #[verifier::when_used_as_spec(spec_is_and)]
    pub fn is_and(&self) -> (r: bool)
        ensures
            r == self.spec_is_and(),
    {
        !self.left.is_marker()
    }

    /// Set the next-state signal of a latch.
    pub fn set_latch_input(&mut self, latch_input: NodeId)
        requires
            old(self).spec_is_latch(),
        ensures
            *final(self) == (AigNode { left: old(self).left, right: latch_input }),
    {
        self.right = latch_input;
    }

    /// The next-state signal of a latch, or `None` for other nodes.
    pub fn get_latch_input(&self) -> (r: Option<NodeId>)
        ensures
            r == (if self.spec_is_latch() { Some(self.right) } else { None::<NodeId> }),
    {
        if self.is_latch() {
            Some(self.right)
        } else {
            None
        }
    }
}

/// The kinds of labelled signals of an AIGER circuit.
#[derive(Debug, Copy, Clone, PartialEq, Eq, Structural, Hash)]
pub enum LabelKind {
    Output,
    BadState,
    Constraints,
    Justice,
    Fairness,
}

/// The labels of one kind, each with its position in its list.
pub open spec fn label_seq(kind: LabelKind, s: Seq<NodeId>) -> Seq<(LabelKind, usize, NodeId)> {
    Seq::new(s.len(), |i: int| (kind, i as usize, s[i]))
}

/// The regular IDs of the AND nodes of `nodes`, in graph order.
pub open spec fn and_gate_ids(nodes: Seq<AigNode>) -> Seq<NodeId>
    decreases nodes.len(),
{
    if nodes.len() == 0 {
        Seq::empty()
    } else {
        let rest = and_gate_ids(nodes.drop_last());
        if nodes.last().spec_is_and() {
            rest.push(NodeId::spec_from_index(nodes.len() - 1))
        } else {
            rest
        }
    }
}

/// Whether `s` lists the regular signal of graph index `i`.
pub open spec fn lists_index(s: Seq<NodeId>, i: int) -> bool {
    s.contains(NodeId::spec_from_index(i))
}

/// The nodes are of the kinds their listing says: every node that is not an
/// AND node is listed as an input or a latch, and the AND nodes number the
/// nodes less the listed inputs and latches.
pub open spec fn node_kinds_listed(nodes: Seq<AigNode>, inputs: Seq<NodeId>, latches: Seq<NodeId>) -> bool {
    &&& forall|i: int|
        0 <= i < nodes.len() && !(#[trigger] nodes[i]).spec_is_and() ==> lists_index(inputs, i) || lists_index(
            latches,
            i,
        )
    &&& and_gate_ids(nodes).len() + inputs.len() + latches.len() == nodes.len()
}

/// Every node is exactly one of an input, a latch and an AND node.
pub proof fn lemma_node_kind_exclusive(v: AigNode)
    ensures
        v.spec_is_input() || v.spec_is_latch() || v.spec_is_and(),
        !(v.spec_is_input() && v.spec_is_latch()),
        !(v.spec_is_input() && v.spec_is_and()),
        !(v.spec_is_latch() && v.spec_is_and()),
{
}

/// In a graph whose node kinds are listed, every node that is neither a
/// listed input nor a listed latch is an AND node, and the AND gates number
/// the nodes less the inputs and latches, as `num_and_gates` counts them.
pub proof fn lemma_and_gates_counted(g: &AigGraph)
    requires
        g.kinds_listed(),
    ensures
        forall|i: int|
            0 <= i < g.nodes.len() && !lists_index(g.inputs@, i) && !lists_index(g.latches@, i)
                ==> (#[trigger] g.nodes@[i]).spec_is_and(),
        and_gate_ids(g.nodes@).len() == g.nodes.len() - g.inputs.len() - g.latches.len(),
{
}

proof fn lemma_contains_push(s: Seq<NodeId>, x: NodeId, y: NodeId)
    ensures
        s.contains(y) ==> s.push(x).contains(y),
        s.push(x).contains(x),
{
    assert(s.push(x)[s.len() as int] == x);
    if s.contains(y) {
        let j = choose|j: int| 0 <= j < s.len() && s[j] == y;
        assert(s.push(x)[j] == y);
    }
}

/// Pushing an AND node keeps the node kinds listed.
proof fn lemma_kinds_push_and(nodes: Seq<AigNode>, inputs: Seq<NodeId>, latches: Seq<NodeId>, node: AigNode)
    requires
        node_kinds_listed(nodes, inputs, latches),
        node.spec_is_and(),
    ensures
        node_kinds_listed(nodes.push(node), inputs, latches),
{
    assert(nodes.push(node).drop_last() =~= nodes);
    assert forall|i: int|
        0 <= i < nodes.push(node).len() && !(#[trigger] nodes.push(node)[i]).spec_is_and() implies lists_index(
            inputs,
            i,
        ) || lists_index(latches, i) by {
        assert(nodes.push(node)[i] == nodes[i]);
    }
}

/// Pushing a node that is not an AND node, and listing it as an input or as
/// a latch, keeps the node kinds listed.
proof fn lemma_kinds_push_listed(
    nodes: Seq<AigNode>,
    inputs: Seq<NodeId>,
    latches: Seq<NodeId>,
    node: AigNode,
    as_input: bool,
)
    requires
        node_kinds_listed(nodes, inputs, latches),
        !node.spec_is_and(),
    ensures
        as_input ==> node_kinds_listed(
            nodes.push(node),
            inputs.push(NodeId::spec_from_index(nodes.len() as int)),
            latches,
        ),
        !as_input ==> node_kinds_listed(
            nodes.push(node),
            inputs,
            latches.push(NodeId::spec_from_index(nodes.len() as int)),
        ),
{
    let id = NodeId::spec_from_index(nodes.len() as int);
    let n2 = nodes.push(node);
    assert(n2.drop_last() =~= nodes);
    assert forall|i: int| 0 <= i < n2.len() && !(#[trigger] n2[i]).spec_is_and() implies (if as_input {
        lists_index(inputs.push(id), i) || lists_index(latches, i)
    } else {
        lists_index(inputs, i) || lists_index(latches.push(id), i)
    }) by {
        lemma_contains_push(inputs, id, NodeId::spec_from_index(i));
        lemma_contains_push(latches, id, NodeId::spec_from_index(i));
        if i < nodes.len() {
            assert(n2[i] == nodes[i]);
        }
    }
}

/// A built AIG.
#[derive(Debug)]
pub struct AigGraph {
    pub nodes: Vec<AigNode>,
    pub inputs: Vec<NodeId>,
    pub latches: Vec<NodeId>,
    pub outputs: Vec<NodeId>,
    pub bad_states: Vec<NodeId>,
    pub constraints: Vec<NodeId>,
    pub justice: Vec<NodeId>,
    pub fairness: Vec<NodeId>,
}

impl AigGraph {
    /// The invariant that building keeps: every input and latch names a
    /// regular node of its kind, and the node count fits the ID space.
    pub open spec fn wf(&self) -> bool {
        let n = self.nodes.len() as int;
        &&& n <= MAX_GRAPH_INDEX + 1
        &&& self.inputs.len() + self.latches.len() <= n
        &&& forall|i: int|
            0 <= i < self.inputs.len() ==> {
                let id = #[trigger] self.inputs@[i];
                &&& id.names_node(n)
                &&& !id.spec_is_inverted()
                &&& self.nodes@[id.spec_index()].spec_is_input()
            }
        &&& forall|i: int|
            0 <= i < self.latches.len() ==> {
                let id = #[trigger] self.latches@[i];
                &&& id.names_node(n)
                &&& !id.spec_is_inverted()
                &&& self.nodes@[id.spec_index()].spec_is_latch()
            }
    }

    /// Every signal that an AND node, a latch or a label refers to is a
    /// constant or a node of this graph.
    pub open spec fn refs_closed(&self) -> bool {
        let n = self.nodes.len() as int;
        &&& forall|i: int|
            0 <= i < n && (#[trigger] self.nodes@[i]).spec_is_and() ==> self.nodes@[i].left.is_signal_of(n)
                && self.nodes@[i].right.is_signal_of(n)
        &&& forall|i: int|
            0 <= i < n && (#[trigger] self.nodes@[i]).spec_is_latch() ==> self.nodes@[i].right.is_signal_of(n)
        &&& forall|i: int| 0 <= i < self.outputs.len() ==> (#[trigger] self.outputs@[i]).is_signal_of(n)
        &&& forall|i: int| 0 <= i < self.bad_states.len() ==> (#[trigger] self.bad_states@[i]).is_signal_of(n)
        &&& forall|i: int| 0 <= i < self.constraints.len() ==> (#[trigger] self.constraints@[i]).is_signal_of(n)
        &&& forall|i: int| 0 <= i < self.justice.len() ==> (#[trigger] self.justice@[i]).is_signal_of(n)
        &&& forall|i: int| 0 <= i < self.fairness.len() ==> (#[trigger] self.fairness@[i]).is_signal_of(n)
    }

    /// The nodes of this graph are of the kinds its lists say (see
    /// [`node_kinds_listed`]).
    pub open spec fn kinds_listed(&self) -> bool {
        node_kinds_listed(self.nodes@, self.inputs@, self.latches@)
    }

    /// All labels: outputs, then bad states, constraints, justice and fairness.
    pub open spec fn spec_labels(&self) -> Seq<(LabelKind, usize, NodeId)> {
        label_seq(LabelKind::Output, self.outputs@) + label_seq(LabelKind::BadState, self.bad_states@)
            + label_seq(LabelKind::Constraints, self.constraints@) + label_seq(
            LabelKind::Justice,
            self.justice@,
        ) + label_seq(LabelKind::Fairness, self.fairness@)
    }

    /// Create an empty graph.
    pub fn new() -> (r: AigGraph)
        ensures
            r.nodes@ == Seq::<AigNode>::empty(),
            r.inputs@ == Seq::<NodeId>::empty(),
            r.latches@ == Seq::<NodeId>::empty(),
            r.outputs@ == Seq::<NodeId>::empty(),
            r.bad_states@ == Seq::<NodeId>::empty(),
            r.constraints@ == Seq::<NodeId>::empty(),
            r.justice@ == Seq::<NodeId>::empty(),
            r.fairness@ == Seq::<NodeId>::empty(),
            r.wf(),
            r.refs_closed(),
            r.kinds_listed(),
    {
        AigGraph {
            nodes: Vec::new(),
            inputs: Vec::new(),
            latches: Vec::new(),
            outputs: Vec::new(),
            bad_states: Vec::new(),
            constraints: Vec::new(),
            justice: Vec::new(),
            fairness: Vec::new(),
        }
    }

    /// A mutable reference to the node that a signal names; mainly used to
    /// fill in the next-state signal of a latch after creating it.
    pub fn node(&mut self, id: NodeId) -> (r: &mut AigNode)
        requires
            old(self).nodes.len() > 0,
            id.names_node(old(self).nodes.len() as int),
        ensures
            *r == old(self).nodes@[id.spec_index()],
            final(self).nodes@ == old(self).nodes@.update(id.spec_index(), *final(r)),
            final(self).inputs == old(self).inputs,
            final(self).latches == old(self).latches,
            final(self).outputs == old(self).outputs,
            final(self).bad_states == old(self).bad_states,
            final(self).constraints == old(self).constraints,
            final(self).justice == old(self).justice,
            final(self).fairness == old(self).fairness,
    {
        let i = id.index();
        &mut self.nodes[i]
    }

    /// The node that a signal names.
    pub fn index(&self, id: NodeId) -> (r: &AigNode)
        requires
            id.names_node(self.nodes.len() as int),
        ensures
            *r == self.nodes@[id.spec_index()],
    {
        &self.nodes[id.index()]
    }

    pub fn inputs(&self) -> (r: &[NodeId])
        ensures
            r@ == self.inputs@,
    {
        self.inputs.as_slice()
    }

    pub fn outputs(&self) -> (r: &[NodeId])
        ensures
            r@ == self.outputs@,
    {
        self.outputs.as_slice()
    }

    pub fn latches(&self) -> (r: &[NodeId])
        ensures
            r@ == self.latches@,
    {
        self.latches.as_slice()
    }

    pub fn bad_states(&self) -> (r: &[NodeId])
        ensures
            r@ == self.bad_states@,
    {
        self.bad_states.as_slice()
    }

    pub fn invariants(&self) -> (r: &[NodeId])
        ensures
            r@ == self.constraints@,
    {
        self.constraints.as_slice()
    }

    pub fn justice(&self) -> (r: &[NodeId])
        ensures
            r@ == self.justice@,
    {
        self.justice.as_slice()
    }

    pub fn fairness(&self) -> (r: &[NodeId])
        ensures
            r@ == self.fairness@,
    {
        self.fairness.as_slice()
    }

    /// The number of AND gates: every node that is neither an input nor a
    /// latch.
    pub fn num_and_gates(&self) -> (r: usize)
        requires
            self.inputs.len() + self.latches.len() <= self.nodes.len(),
        ensures
            r == self.nodes.len() - self.inputs.len() - self.latches.len(),
    {
        self.nodes.len() - self.inputs.len() - self.latches.len()
    }

    /// The regular IDs of all AND nodes, in graph order.
    pub fn and_gates(&self) -> (r: Vec<NodeId>)
        requires
            self.nodes.len() <= MAX_GRAPH_INDEX + 1,
        ensures
            r@ == and_gate_ids(self.nodes@),
    {
        let mut r: Vec<NodeId> = Vec::new();
        let mut i: usize = 0;
        while i < self.nodes.len()
            invariant
                i <= self.nodes.len() <= MAX_GRAPH_INDEX + 1,
                r@ == and_gate_ids(self.nodes@.take(i as int)),
            decreases self.nodes.len() - i,
        {
            assert(self.nodes@.take(i + 1).drop_last() == self.nodes@.take(i as int));
            if self.nodes[i].is_and() {
                r.push(NodeId::from_index(i));
            }
            i = i + 1;
        }
        assert(self.nodes@.take(i as int) == self.nodes@);
        r
    }

    /// All labels in the order outputs, bad states, constraints, justice,
    /// fairness, each with its position in its own list.
    pub fn labels(&self) -> (r: Vec<(LabelKind, usize, NodeId)>)
        ensures
            r@ == self.spec_labels(),
    {
        let mut r: Vec<(LabelKind, usize, NodeId)> = Vec::new();
        push_labels(&mut r, LabelKind::Output, &self.outputs);
        push_labels(&mut r, LabelKind::BadState, &self.bad_states);
        push_labels(&mut r, LabelKind::Constraints, &self.constraints);
        push_labels(&mut r, LabelKind::Justice, &self.justice);
        push_labels(&mut r, LabelKind::Fairness, &self.fairness);
        r
    }
}

fn push_labels(out: &mut Vec<(LabelKind, usize, NodeId)>, kind: LabelKind, s: &Vec<NodeId>)
    ensures
        final(out)@ == old(out)@ + label_seq(kind, s@),
{
    let ghost start = out@;
    let mut i: usize = 0;
    while i < s.len()
        invariant
            i <= s.len(),
            out@ == start + label_seq(kind, s@.take(i as int)),
        decreases s.len() - i,
    {
        out.push((kind, i, s[i]));
        i = i + 1;
        assert(label_seq(kind, s@.take(i as int)) == label_seq(kind, s@.take(i - 1)).push(
            (kind, (i - 1) as usize, s@[i - 1]),
        ));
    }
    assert(s@.take(i as int) == s@);
}


/// The key under which structural hashing records an AND node.
pub open spec fn strash_key(left: NodeId, right: NodeId) -> u64 {
    (left.0 as int * 0x1_0000_0000 + right.0 as int) as u64
}

/// AND is commutative: the children in canonical order, smaller ID first.
pub open spec fn ordered_children(left: NodeId, right: NodeId) -> (NodeId, NodeId) {
    if right.0 < left.0 {
        (right, left)
    } else {
        (left, right)
    }
}

/// The signal that `left & right` simplifies to without a new node, if any:
/// `x & false = false`, `x & true = x`, `x & x = x`, `x & !x = false`.
pub open spec fn and_shortcut(left: NodeId, right: NodeId) -> Option<NodeId> {
    if left.0 == 0 || right.0 == 0 {
        Some(NodeId(0))
    } else if left.0 == 1 {
        Some(right)
    } else if right.0 == 1 {
        Some(left)
    } else if left == right {
        Some(left)
    } else if left == right.spec_invert() {
        Some(NodeId(0))
    } else {
        None
    }
}

/// The contents of an [`AigGraph`].
#[verifier::ext_equal]
pub struct GraphModel {
    pub nodes: Seq<AigNode>,
    pub inputs: Seq<NodeId>,
    pub latches: Seq<NodeId>,
    pub outputs: Seq<NodeId>,
    pub bad_states: Seq<NodeId>,
    pub constraints: Seq<NodeId>,
    pub justice: Seq<NodeId>,
    pub fairness: Seq<NodeId>,
}

/// The contents of an [`AigBuilder`]: its graph and its structural hash.
#[verifier::ext_equal]
pub struct BuilderModel {
    pub graph: GraphModel,
    pub strash: Map<u64, NodeId>,
}

impl AigGraph {
    pub open spec fn model(&self) -> GraphModel {
        GraphModel {
            nodes: self.nodes@,
            inputs: self.inputs@,
            latches: self.latches@,
            outputs: self.outputs@,
            bad_states: self.bad_states@,
            constraints: self.constraints@,
            justice: self.justice@,
            fairness: self.fairness@,
        }
    }
}

/// The empty builder.
pub open spec fn model_empty() -> BuilderModel {
    BuilderModel {
        graph: GraphModel {
            nodes: Seq::empty(),
            inputs: Seq::empty(),
            latches: Seq::empty(),
            outputs: Seq::empty(),
            bad_states: Seq::empty(),
            constraints: Seq::empty(),
            justice: Seq::empty(),
            fairness: Seq::empty(),
        },
        strash: Map::empty(),
    }
}

/// `add_input`: a new input node and its signal.
pub open spec fn model_add_input(m: BuilderModel) -> (BuilderModel, NodeId) {
    let id = NodeId::spec_from_index(m.graph.nodes.len() as int);
    (
        BuilderModel {
            graph: GraphModel {
                nodes: m.graph.nodes.push(AigNode { left: NodeId(NODE_ID_MASK), right: NodeId(NODE_ID_MASK) }),
                inputs: m.graph.inputs.push(id),
                ..m.graph
            },
            ..m
        },
        id,
    )
}

/// `add_latch`: a new latch node with next state `x`, and its signal.
pub open spec fn model_add_latch(m: BuilderModel, x: NodeId) -> (BuilderModel, NodeId) {
    let id = NodeId::spec_from_index(m.graph.nodes.len() as int);
    (
        BuilderModel {
            graph: GraphModel {
                nodes: m.graph.nodes.push(AigNode { left: NodeId(NODE_ID_MASK), right: x }),
                latches: m.graph.latches.push(id),
                ..m.graph
            },
            ..m
        },
        id,
    )
}

/// `add_and_raw`: a new AND node and its signal.
pub open spec fn model_add_and_raw(m: BuilderModel, left: NodeId, right: NodeId) -> (BuilderModel, NodeId) {
    let id = NodeId::spec_from_index(m.graph.nodes.len() as int);
    (
        BuilderModel {
            graph: GraphModel { nodes: m.graph.nodes.push(AigNode { left, right }), ..m.graph },
            ..m
        },
        id,
    )
}

/// `add_and_optimized`: simplification, then structural hashing.
pub open spec fn model_add_and_optimized(m: BuilderModel, left: NodeId, right: NodeId) -> (BuilderModel, NodeId) {
    let (a, b) = ordered_children(left, right);
    let key = strash_key(a, b);
    match and_shortcut(left, right) {
        Some(x) => (m, x),
        None => if m.strash.contains_key(key) {
            (m, m.strash[key])
        } else {
            let id = NodeId::spec_from_index(m.graph.nodes.len() as int);
            (
                BuilderModel {
                    graph: GraphModel { nodes: m.graph.nodes.push(AigNode { left: a, right: b }), ..m.graph },
                    strash: m.strash.insert(key, id),
                },
                id,
            )
        },
    }
}

/// Whether `model_add_and_optimized` creates a node.
pub open spec fn model_and_allocates(m: BuilderModel, left: NodeId, right: NodeId) -> bool {
    let (a, b) = ordered_children(left, right);
    and_shortcut(left, right) is None && !m.strash.contains_key(strash_key(a, b))
}

/// Adding a label of `kind`.
pub open spec fn model_add_label(m: BuilderModel, kind: LabelKind, x: NodeId) -> BuilderModel {
    let g = m.graph;
    BuilderModel {
        graph: GraphModel {
            outputs: if kind == LabelKind::Output { g.outputs.push(x) } else { g.outputs },
            bad_states: if kind == LabelKind::BadState { g.bad_states.push(x) } else { g.bad_states },
            constraints: if kind == LabelKind::Constraints { g.constraints.push(x) } else { g.constraints },
            justice: if kind == LabelKind::Justice { g.justice.push(x) } else { g.justice },
            fairness: if kind == LabelKind::Fairness { g.fairness.push(x) } else { g.fairness },
            ..g
        },
        ..m
    }
}

/// Setting the next state of the latch node that `id` names.
pub open spec fn model_set_latch_input(m: BuilderModel, id: NodeId, x: NodeId) -> BuilderModel {
    let i = id.spec_index();
    BuilderModel {
        graph: GraphModel {
            nodes: m.graph.nodes.update(i, AigNode { left: m.graph.nodes[i].left, right: x }),
            ..m.graph
        },
        ..m
    }
}

/// Incrementally builds an [`AigGraph`], with structural hashing of the AND
/// nodes that [`AigBuilder::add_and_optimized`] creates.
#[derive(Debug)]
pub struct AigBuilder {
    pub graph: AigGraph,
    pub and_hash: HashMap<u64, NodeId>,
}

impl AigBuilder {
    /// Every hashed AND node exists with exactly the children of its key.
    pub open spec fn strash_consistent(&self) -> bool {
        let n = self.graph.nodes.len() as int;
        forall|k: u64|
            #[trigger] self.and_hash@.contains_key(k) ==> {
                let id = self.and_hash@[k];
                &&& id.names_node(n)
                &&& !id.spec_is_inverted()
                &&& self.graph.nodes@[id.spec_index()].spec_is_and()
                &&& strash_key(
                    self.graph.nodes@[id.spec_index()].left,
                    self.graph.nodes@[id.spec_index()].right,
                ) == k
            }
    }

    pub open spec fn wf(&self) -> bool {
        self.graph.wf() && self.strash_consistent()
    }

    pub open spec fn model(&self) -> BuilderModel {
        BuilderModel { graph: self.graph.model(), strash: self.and_hash@ }
    }

    /// Whether `add_and_optimized(left, right)` creates a new node.
    pub open spec fn spec_and_allocates(&self, left: NodeId, right: NodeId) -> bool {
        let (a, b) = ordered_children(left, right);
        and_shortcut(left, right) is None && !self.and_hash@.contains_key(strash_key(a, b))
    }

    /// The builder is unchanged but for one node pushed.
    pub open spec fn pushed_node(&self, old: &AigBuilder, node: AigNode) -> bool {
        &&& self.graph.nodes@ == old.graph.nodes@.push(node)
        &&& self.graph.outputs == old.graph.outputs
        &&& self.graph.bad_states == old.graph.bad_states
        &&& self.graph.constraints == old.graph.constraints
        &&& self.graph.justice == old.graph.justice
        &&& self.graph.fairness == old.graph.fairness
    }

    /// Only the label list of `kind` changed, by pushing `id`.
    pub open spec fn pushed_label(&self, old: &AigBuilder, kind: LabelKind, id: NodeId) -> bool {
        &&& self.graph.nodes == old.graph.nodes
        &&& self.graph.inputs == old.graph.inputs
        &&& self.graph.latches == old.graph.latches
        &&& self.and_hash@ == old.and_hash@
        &&& self.graph.outputs@ == (if kind == LabelKind::Output {
            old.graph.outputs@.push(id)
        } else {
            old.graph.outputs@
        })
        &&& self.graph.bad_states@ == (if kind == LabelKind::BadState {
            old.graph.bad_states@.push(id)
        } else {
            old.graph.bad_states@
        })
        &&& self.graph.constraints@ == (if kind == LabelKind::Constraints {
            old.graph.constraints@.push(id)
        } else {
            old.graph.constraints@
        })
        &&& self.graph.justice@ == (if kind == LabelKind::Justice {
            old.graph.justice@.push(id)
        } else {
            old.graph.justice@
        })
        &&& self.graph.fairness@ == (if kind == LabelKind::Fairness {
            old.graph.fairness@.push(id)
        } else {
            old.graph.fairness@
        })
    }

    /// Create a new empty builder.
    pub fn new() -> (r: AigBuilder)
        ensures
            r.graph.nodes@ == Seq::<AigNode>::empty(),
            r.graph.inputs@ == Seq::<NodeId>::empty(),
            r.graph.latches@ == Seq::<NodeId>::empty(),
            r.graph.outputs@ == Seq::<NodeId>::empty(),
            r.graph.bad_states@ == Seq::<NodeId>::empty(),
            r.graph.constraints@ == Seq::<NodeId>::empty(),
            r.graph.justice@ == Seq::<NodeId>::empty(),
            r.graph.fairness@ == Seq::<NodeId>::empty(),
            r.and_hash@ == Map::<u64, NodeId>::empty(),
            r.wf(),
            r.graph.refs_closed(),
            r.graph.kinds_listed(),
            r.model() == model_empty(),
    {
        AigBuilder { graph: AigGraph::new(), and_hash: HashMap::new() }
    }

    /// Finish building and return the graph.
    pub fn build(self) -> (r: AigGraph)
        ensures
            r == self.graph,
    {
        self.graph
    }

    /// A mutable reference to a node already added to the graph.
    pub fn node(&mut self, id: NodeId) -> (r: &mut AigNode)
        requires
            old(self).graph.nodes.len() > 0,
            id.names_node(old(self).graph.nodes.len() as int),
        ensures
            *r == old(self).graph.nodes@[id.spec_index()],
            final(self).graph.nodes@ == old(self).graph.nodes@.update(id.spec_index(), *final(r)),
            final(self).graph.inputs == old(self).graph.inputs,
            final(self).graph.latches == old(self).graph.latches,
            final(self).graph.outputs == old(self).graph.outputs,
            final(self).graph.bad_states == old(self).graph.bad_states,
            final(self).graph.constraints == old(self).graph.constraints,
            final(self).graph.justice == old(self).graph.justice,
            final(self).graph.fairness == old(self).graph.fairness,
            final(self).and_hash@ == old(self).and_hash@,
    {
        self.graph.node(id)
    }

    /// Add a primary input and return its signal.
    pub fn add_input(&mut self) -> (r: NodeId)
        requires
            old(self).graph.nodes.len() <= MAX_GRAPH_INDEX,
        ensures
            r == NodeId::spec_from_index(old(self).graph.nodes.len() as int),
            (final(self).model(), r) == model_add_input(old(self).model()),
            final(self).pushed_node(old(self), AigNode { left: NodeId(NODE_ID_MASK), right: NodeId(NODE_ID_MASK) }),
            final(self).graph.inputs@ == old(self).graph.inputs@.push(r),
            final(self).graph.latches == old(self).graph.latches,
            final(self).and_hash@ == old(self).and_hash@,
            old(self).wf() ==> final(self).wf(),
            old(self).graph.refs_closed() ==> final(self).graph.refs_closed(),
            old(self).graph.kinds_listed() ==> final(self).graph.kinds_listed(),
    {
        let index = self.graph.nodes.len();
        let id = NodeId::from_index(index);
        proof {
            if self.graph.kinds_listed() {
                lemma_kinds_push_listed(
                    self.graph.nodes@,
                    self.graph.inputs@,
                    self.graph.latches@,
                    AigNode { left: NodeId(NODE_ID_MASK), right: NodeId(NODE_ID_MASK) },
                    true,
                );
            }
        }
        self.graph.nodes.push(AigNode::new_input());
        self.graph.inputs.push(id);
        proof {
            lemma_index_roundtrip(index as int);
        }
        id
    }

    /// Add a latch with the given next-state signal. Where that signal is
    /// not known yet, pass the false constant and update the latch later
    /// with [`AigNode::set_latch_input`].
    pub fn add_latch(&mut self, latch_input: NodeId) -> (r: NodeId)
        requires
            old(self).graph.nodes.len() <= MAX_GRAPH_INDEX,
        ensures
            r == NodeId::spec_from_index(old(self).graph.nodes.len() as int),
            (final(self).model(), r) == model_add_latch(old(self).model(), latch_input),
            final(self).pushed_node(old(self), AigNode { left: NodeId(NODE_ID_MASK), right: latch_input }),
            final(self).graph.latches@ == old(self).graph.latches@.push(r),
            final(self).graph.inputs == old(self).graph.inputs,
            final(self).and_hash@ == old(self).and_hash@,
            old(self).wf() && !latch_input.spec_is_marker() ==> final(self).wf(),
            old(self).graph.refs_closed() && latch_input.is_signal_of(old(self).graph.nodes.len() as int)
                ==> final(self).graph.refs_closed(),
            old(self).graph.kinds_listed() ==> final(self).graph.kinds_listed(),
    {
        let index = self.graph.nodes.len();
        let id = NodeId::from_index(index);
        proof {
            if self.graph.kinds_listed() {
                lemma_kinds_push_listed(
                    self.graph.nodes@,
                    self.graph.inputs@,
                    self.graph.latches@,
                    AigNode { left: NodeId(NODE_ID_MASK), right: latch_input },
                    false,
                );
            }
        }
        self.graph.nodes.push(AigNode::new_latch(latch_input));
        self.graph.latches.push(id);
        proof {
            lemma_index_roundtrip(index as int);
        }
        id
    }

    /// Add an AND gate without simplification or structural hashing.
    pub fn add_and_raw(&mut self, left: NodeId, right: NodeId) -> (r: NodeId)
        requires
            old(self).graph.nodes.len() <= MAX_GRAPH_INDEX,
        ensures
            r == NodeId::spec_from_index(old(self).graph.nodes.len() as int),
            (final(self).model(), r) == model_add_and_raw(old(self).model(), left, right),
            final(self).pushed_node(old(self), AigNode { left, right }),
            final(self).graph.inputs == old(self).graph.inputs,
            final(self).graph.latches == old(self).graph.latches,
            final(self).and_hash@ == old(self).and_hash@,
            old(self).wf() ==> final(self).wf(),
            old(self).graph.refs_closed() && left.is_signal_of(old(self).graph.nodes.len() as int)
                && right.is_signal_of(old(self).graph.nodes.len() as int) ==> final(self).graph.refs_closed(),
            old(self).graph.kinds_listed() && !left.spec_is_marker() ==> final(self).graph.kinds_listed(),
    {
        let index = self.graph.nodes.len();
        let id = NodeId::from_index(index);
        proof {
            if self.graph.kinds_listed() && !left.spec_is_marker() {
                lemma_kinds_push_and(self.graph.nodes@, self.graph.inputs@, self.graph.latches@, AigNode { left, right });
            }
        }
        self.graph.nodes.push(AigNode::new(left, right));
        proof {
            lemma_index_roundtrip(index as int);
        }
        id
    }

    /// What `add_and_optimized(left, right)` finds without adding a node:
    /// `Ok` of the resulting signal, or `Err` of the ordered children and
    /// the hash key of the node it would add.
    pub fn lookup_and(&self, left: NodeId, right: NodeId) -> (r: Result<NodeId, (NodeId, NodeId, u64)>)
        ensures
            ({
                let (a, b) = ordered_children(left, right);
                let key = strash_key(a, b);
                match r {
                    Ok(x) => !self.spec_and_allocates(left, right) && (self.model(), x)
                        == model_add_and_optimized(self.model(), left, right),
                    Err((a2, b2, k)) => self.spec_and_allocates(left, right) && a2 == a && b2 == b && k == key,
                }
            }),
    {
        if left.is_false() || right.is_false() {
            return Ok(NodeId::false_id());
        }
        if left.is_true() {
            return Ok(right);
        }
        if right.is_true() {
            return Ok(left);
        }
        if left == right {
            return Ok(left);
        }
        if left == right.invert() {
            return Ok(NodeId::false_id());
        }
        // AND is commutative, so canonicalize the child order.
        let (left, right) = if right.0 < left.0 {
            (right, left)
        } else {
            (left, right)
        };
        let key: u64 = (left.0 as u64) * 0x1_0000_0000u64 + (right.0 as u64);
        match self.and_hash.get(&key) {
            Some(existing_id) => Ok(*existing_id),
            None => Err((left, right, key)),
        }
    }

    /// Add and record the AND node that `lookup_and` found missing.
    fn insert_and(&mut self, left: NodeId, right: NodeId, key: u64) -> (r: NodeId)
        requires
            old(self).graph.nodes.len() <= MAX_GRAPH_INDEX,
            key == strash_key(left, right),
        ensures
            r == NodeId::spec_from_index(old(self).graph.nodes.len() as int),
            final(self).pushed_node(old(self), AigNode { left, right }),
            final(self).graph.inputs == old(self).graph.inputs,
            final(self).graph.latches == old(self).graph.latches,
            final(self).and_hash@ == old(self).and_hash@.insert(key, r),
            old(self).wf() && !left.spec_is_marker() ==> final(self).wf(),
            old(self).graph.refs_closed() && left.is_signal_of(old(self).graph.nodes.len() as int)
                && right.is_signal_of(old(self).graph.nodes.len() as int) ==> final(self).graph.refs_closed(),
    {
        let index = self.graph.nodes.len();
        let id = NodeId::from_index(index);
        self.graph.nodes.push(AigNode::new(left, right));
        self.and_hash.insert(key, id);
        proof {
            lemma_index_roundtrip(index as int);
        }
        id
    }

    /// Add an AND gate with Boolean simplification and structural hashing.
    ///
    /// Simplifies `x & false`, `x & true`, `x & x` and `x & !x`; otherwise
    /// orders the children canonically and reuses the node recorded for
    /// them, or creates and records a new one.
    pub fn add_and_optimized(&mut self, left: NodeId, right: NodeId) -> (r: NodeId)
        requires
            old(self).spec_and_allocates(left, right) ==> old(self).graph.nodes.len() <= MAX_GRAPH_INDEX,
        ensures
            (final(self).model(), r) == model_add_and_optimized(old(self).model(), left, right),
            ({
                let (a, b) = ordered_children(left, right);
                let key = strash_key(a, b);
                match and_shortcut(left, right) {
                    Some(x) => r == x && *final(self) == *old(self),
                    None => if old(self).and_hash@.contains_key(key) {
                        r == old(self).and_hash@[key] && *final(self) == *old(self)
                    } else {
                        &&& r == NodeId::spec_from_index(old(self).graph.nodes.len() as int)
                        &&& final(self).pushed_node(old(self), AigNode { left: a, right: b })
                        &&& final(self).graph.inputs == old(self).graph.inputs
                        &&& final(self).graph.latches == old(self).graph.latches
                        &&& final(self).and_hash@ == old(self).and_hash@.insert(key, r)
                    },
                }
            }),
            old(self).wf() ==> final(self).wf(),
            old(self).graph.refs_closed() && left.is_signal_of(old(self).graph.nodes.len() as int)
                && right.is_signal_of(old(self).graph.nodes.len() as int) ==> final(self).graph.refs_closed(),
            old(self).wf() && left.is_signal_of(old(self).graph.nodes.len() as int) && right.is_signal_of(
                old(self).graph.nodes.len() as int,
            ) ==> r.is_signal_of(final(self).graph.nodes.len() as int),
            old(self).graph.kinds_listed() && !left.spec_is_marker() && !right.spec_is_marker()
                ==> final(self).graph.kinds_listed(),
    {
        let ghost g0 = self.graph;
        let r = match self.lookup_and(left, right) {
            Ok(x) => x,
            Err((a, b, key)) => self.insert_and(a, b, key),
        };
        proof {
            if g0.kinds_listed() && !left.spec_is_marker() && !right.spec_is_marker() && self.graph.nodes.len()
                != g0.nodes.len() {
                let (a, b) = ordered_children(left, right);
                lemma_kinds_push_and(g0.nodes@, g0.inputs@, g0.latches@, AigNode { left: a, right: b });
            }
        }
        r
    }

    /// Add a primary output signal.
    pub fn add_output(&mut self, output: NodeId)
        ensures
            final(self).pushed_label(old(self), LabelKind::Output, output),
            final(self).model() == model_add_label(old(self).model(), LabelKind::Output, output),
    {
        self.graph.outputs.push(output);
    }

    /// Add a bad-state property.
    pub fn add_bad_state(&mut self, output: NodeId)
        ensures
            final(self).pushed_label(old(self), LabelKind::BadState, output),
            final(self).model() == model_add_label(old(self).model(), LabelKind::BadState, output),
    {
        self.graph.bad_states.push(output);
    }

    /// Add an invariant constraint.
    pub fn add_invariant(&mut self, output: NodeId)
        ensures
            final(self).pushed_label(old(self), LabelKind::Constraints, output),
            final(self).model() == model_add_label(old(self).model(), LabelKind::Constraints, output),
    {
        self.graph.constraints.push(output);
    }

    /// Add a justice property.
    pub fn add_justice(&mut self, output: NodeId)
        ensures
            final(self).pushed_label(old(self), LabelKind::Justice, output),
            final(self).model() == model_add_label(old(self).model(), LabelKind::Justice, output),
    {
        self.graph.justice.push(output);
    }

    /// Add a fairness constraint.
    pub fn add_fairness(&mut self, output: NodeId)
        ensures
            final(self).pushed_label(old(self), LabelKind::Fairness, output),
            final(self).model() == model_add_label(old(self).model(), LabelKind::Fairness, output),
    {
        self.graph.fairness.push(output);
    }
}

/// AND is commutative for `add_and_optimized`: swapping the children gives
/// the same signal and the same builder.
pub proof fn lemma_and_optimized_commutes(m: BuilderModel, left: NodeId, right: NodeId)
    ensures
        model_add_and_optimized(m, left, right) == model_add_and_optimized(m, right, left),
{
    lemma_invert_involution(left);
    lemma_invert_involution(right);
}

/// Structural hashing: adding the same AND gate again (in either child
/// order) returns the same signal and changes nothing.
pub proof fn lemma_and_optimized_idempotent(m: BuilderModel, left: NodeId, right: NodeId)
    ensures
        ({
            let (m1, x) = model_add_and_optimized(m, left, right);
            &&& model_add_and_optimized(m1, left, right) == (m1, x)
            &&& model_add_and_optimized(m1, right, left) == (m1, x)
        }),
{
    lemma_and_optimized_commutes(model_add_and_optimized(m, left, right).0, left, right);
}

/// A builder with consistent structural hashing keeps it through
/// `add_and_optimized`, and the result of a hashed AND names a node whose
/// children are the ordered inputs.
pub proof fn lemma_and_optimized_node(b: &AigBuilder, left: NodeId, right: NodeId)
    requires
        b.wf(),
        and_shortcut(left, right) is None,
        b.and_hash@.contains_key(strash_key(ordered_children(left, right).0, ordered_children(left, right).1)),
    ensures
        ({
            let (a, c) = ordered_children(left, right);
            let x = model_add_and_optimized(b.model(), left, right).1;
            &&& x.names_node(b.graph.nodes.len() as int)
            &&& b.graph.nodes@[x.spec_index()] == AigNode { left: a, right: c }
        }),
{
    let (a, c) = ordered_children(left, right);
    let key = strash_key(a, c);
    let x = b.and_hash@[key];
    let node = b.graph.nodes@[x.spec_index()];
    assert(strash_key(node.left, node.right) == key);
    lemma_strash_key_injective(node.left, node.right, a, c);
}

/// Different children have different hash keys.
pub proof fn lemma_strash_key_injective(a: NodeId, b: NodeId, c: NodeId, d: NodeId)
    requires
        strash_key(a, b) == strash_key(c, d),
    ensures
        a == c && b == d,
{
    assert(a.0 as int * 0x1_0000_0000 + b.0 as int == c.0 as int * 0x1_0000_0000 + d.0 as int);
}

/// Adding labels keeps the builder's invariant, and keeps references closed
/// when the label is a signal of the graph.
pub proof fn lemma_pushed_label_keeps_wf(b: &AigBuilder, old: &AigBuilder, kind: LabelKind, id: NodeId)
    requires
        b.pushed_label(old, kind, id),
        old.wf(),
    ensures
        b.wf(),
        old.graph.refs_closed() && id.is_signal_of(old.graph.nodes.len() as int) ==> b.graph.refs_closed(),
{
    assert(b.graph.nodes@ == old.graph.nodes@);
    assert(b.graph.inputs@ == old.graph.inputs@);
    assert(b.graph.latches@ == old.graph.latches@);
}

impl Default for AigGraph {
    fn default() -> (r: AigGraph)
        ensures
            r.nodes@ == Seq::<AigNode>::empty(),
            r.inputs@ == Seq::<NodeId>::empty(),
            r.latches@ == Seq::<NodeId>::empty(),
            r.outputs@ == Seq::<NodeId>::empty(),
            r.bad_states@ == Seq::<NodeId>::empty(),
            r.constraints@ == Seq::<NodeId>::empty(),
            r.justice@ == Seq::<NodeId>::empty(),
            r.fairness@ == Seq::<NodeId>::empty(),
    {
        AigGraph::new()
    }
}

impl Default for AigBuilder {
    fn default() -> (r: AigBuilder)
        ensures
            r.graph.nodes@ == Seq::<AigNode>::empty(),
            r.graph.inputs@ == Seq::<NodeId>::empty(),
            r.graph.latches@ == Seq::<NodeId>::empty(),
            r.graph.outputs@ == Seq::<NodeId>::empty(),
            r.graph.bad_states@ == Seq::<NodeId>::empty(),
            r.graph.constraints@ == Seq::<NodeId>::empty(),
            r.graph.justice@ == Seq::<NodeId>::empty(),
            r.graph.fairness@ == Seq::<NodeId>::empty(),
            r.and_hash@ == Map::<u64, NodeId>::empty(),
    {
        AigBuilder::new()
    }
}

} // verus!
