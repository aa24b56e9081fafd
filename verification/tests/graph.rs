use raig::graph::fanin::FanIn;
use raig::graph::{AigBuilder, AigGraph, LabelKind, NodeId};

#[test]
fn node_id_bits() {
    let id = NodeId::from_index(2);
    assert_eq!(id, NodeId(6));
    assert!(!id.is_inverted());
    let inv = id.invert();
    assert_eq!(inv, NodeId(7));
    assert!(inv.is_inverted());
    assert_eq!(inv.regular(), id);
    assert_eq!(inv.invert(), id);
    assert_eq!(inv.index(), 2);
    assert_eq!(inv.to_index(), Ok(2));
    assert!(NodeId::false_id().is_const());
    assert!(NodeId::true_id().is_const());
    assert!(NodeId::false_id().is_false());
    assert!(NodeId::true_id().is_true());
    assert_eq!(NodeId::false_id().invert(), NodeId::true_id());
    assert!(NodeId::none().is_marker());
    assert!(NodeId::none().invert().is_marker());
    assert!(NodeId::false_id().to_index().is_err());
    assert!(NodeId::none().to_index().is_err());
    assert!(!id.is_const());
    assert!(!id.is_marker());
}

#[test]
fn builder_kinds() {
    let mut b = AigBuilder::new();
    let a = b.add_input();
    let l = b.add_latch(NodeId::false_id());
    let x = b.add_and_raw(a, l.invert());
    b.add_output(x);
    let g = b.build();
    assert_eq!(g.inputs(), &[a]);
    assert_eq!(g.latches(), &[l]);
    assert_eq!(g.outputs(), &[x]);
    assert!(g.index(a).is_input());
    assert!(g.index(l).is_latch());
    assert!(g.index(x).is_and());
    assert_eq!(g.index(x).left(), a);
    assert_eq!(g.index(x).right(), l.invert());
    assert_eq!(g.index(l).get_latch_input(), Some(NodeId::false_id()));
    assert_eq!(g.index(x).get_latch_input(), None);
    assert_eq!(g.num_and_gates(), 1);
    assert_eq!(g.and_gates(), vec![x]);
}

#[test]
fn latch_input_can_be_set_later() {
    let mut b = AigBuilder::new();
    let a = b.add_input();
    let l = b.add_latch(NodeId::false_id());
    b.node(l).set_latch_input(a.invert());
    let mut g = b.build();
    assert_eq!(g.index(l).get_latch_input(), Some(a.invert()));
    g.node(l).set_latch_input(a);
    assert_eq!(g.index(l).right(), a);
}

#[test]
fn and_optimized_simplifies() {
    let mut b = AigBuilder::new();
    let a = b.add_input();
    let c = b.add_input();
    let f = NodeId::false_id();
    let t = NodeId::true_id();
    assert_eq!(b.add_and_optimized(a, f), f);
    assert_eq!(b.add_and_optimized(f, a), f);
    assert_eq!(b.add_and_optimized(t, a), a);
    assert_eq!(b.add_and_optimized(a, t), a);
    assert_eq!(b.add_and_optimized(a, a), a);
    assert_eq!(b.add_and_optimized(a, a.invert()), f);
    let g = b.build();
    assert_eq!(g.nodes.len(), 2);
    let _ = c;
}

#[test]
fn and_optimized_hashes_structurally() {
    let mut b = AigBuilder::new();
    let a = b.add_input();
    let c = b.add_input();
    let x = b.add_and_optimized(c, a);
    let y = b.add_and_optimized(a, c);
    assert_eq!(x, y);
    assert_eq!(x, NodeId(6));
    let z = b.add_and_optimized(a.invert(), c);
    assert_ne!(z, x);
    let g = b.build();
    assert_eq!(g.nodes.len(), 4);
    // children are stored smaller ID first
    assert_eq!(g.index(x).left(), a);
    assert_eq!(g.index(x).right(), c);
}

#[test]
fn raw_and_does_not_hash() {
    let mut b = AigBuilder::new();
    let a = b.add_input();
    let c = b.add_input();
    let x = b.add_and_raw(a, c);
    let y = b.add_and_raw(a, c);
    assert_ne!(x, y);
}

#[test]
fn labels_in_order() {
    let mut b = AigBuilder::default();
    let a = b.add_input();
    b.add_output(a);
    b.add_bad_state(a.invert());
    b.add_invariant(NodeId::true_id());
    b.add_justice(a);
    b.add_fairness(NodeId::false_id());
    b.add_output(NodeId::false_id());
    let g = b.build();
    assert_eq!(g.bad_states(), &[a.invert()]);
    assert_eq!(g.invariants(), &[NodeId::true_id()]);
    assert_eq!(g.justice(), &[a]);
    assert_eq!(g.fairness(), &[NodeId::false_id()]);
    assert_eq!(
        g.labels(),
        vec![
            (LabelKind::Output, 0, a),
            (LabelKind::Output, 1, NodeId::false_id()),
            (LabelKind::BadState, 0, a.invert()),
            (LabelKind::Constraints, 0, NodeId::true_id()),
            (LabelKind::Justice, 0, a),
            (LabelKind::Fairness, 0, NodeId::false_id()),
        ]
    );
}

#[test]
fn empty_graph() {
    let g = AigGraph::default();
    assert_eq!(g.num_and_gates(), 0);
    assert!(g.and_gates().is_empty());
    assert!(g.labels().is_empty());
    let g2 = AigGraph::new();
    assert!(g2.inputs().is_empty());
}

fn sample() -> (AigGraph, NodeId, NodeId, NodeId, NodeId) {
    let mut b = AigBuilder::new();
    let a = b.add_input();
    let c = b.add_input();
    let x = b.add_and_optimized(a, c.invert());
    let y = b.add_and_optimized(x, a);
    b.add_output(y);
    (b.build(), a, c, x, y)
}

#[test]
fn fan_in_lists_users() {
    let (g, a, c, x, y) = sample();
    let f = FanIn::from_graph(&g);
    assert_eq!(f.nodes(a), &[x, y]);
    assert_eq!(f.count(a), 2);
    assert_eq!(f.nodes(c), &[x]);
    assert_eq!(f.nodes(c.invert()), &[x]);
    assert_eq!(f.nodes(x), &[y]);
    assert_eq!(f.count(y), 0);
    assert_eq!(f.count(NodeId::false_id()), 0);
    assert_eq!(f.count(NodeId::none()), 0);
    // every listed user has the source as a child
    for index in 0..g.nodes.len() {
        let source = NodeId::from_index(index);
        for &target in f.nodes(source) {
            let children = [g.index(target).left().regular(), g.index(target).right().regular()];
            assert!(children.contains(&source.regular()));
        }
    }
}

#[test]
fn fan_in_of_constants() {
    let mut b = AigBuilder::new();
    let a = b.add_input();
    let x = b.add_and_raw(a, NodeId::true_id());
    let l = b.add_latch(NodeId::false_id());
    let g = b.build();
    let f = FanIn::from_graph(&g);
    assert_eq!(f.nodes(NodeId::true_id()), &[x]);
    assert_eq!(f.nodes(NodeId::false_id()), &[l]);
    assert_eq!(f.nodes(a), &[x]);
}

#[test]
fn dot_of_sample() {
    let (g, _, _, _, _) = sample();
    let dot = g.to_dot();
    let expected = "digraph AIG {\n\trankdir=BT;\n\tordering=out;\n\tnode [fontname=\"Helvetica\"];\n\tedge [fontname=\"Helvetica\"];\n\n\tconst_false [label=\"false\", shape=box];\n\n\
\tn0 [label=\"a\", shape=box];\n\tn1 [label=\"b\", shape=box];\n\n\n\
\tn2 [label=\"AND\", shape=circle];\n\tn3 [label=\"AND\", shape=circle];\n\n\
\tn0 -> n2 [label=\"left\"];\n\tn1 -> n2 [label=\"right\", style=dashed];\n\
\tn0 -> n3 [label=\"left\"];\n\tn2 -> n3 [label=\"right\"];\n\n\n\
\tout0 [label=\"out0\", shape=box];\n\tn3 -> out0;\n}\n";
    assert_eq!(dot, expected);
    assert!(dot.contains("digraph AIG"));
}

#[test]
fn dot_of_latches_and_inverted_labels() {
    let mut b = AigBuilder::new();
    let a = b.add_input();
    let l = b.add_latch(a.invert());
    b.add_bad_state(l.invert());
    b.add_output(NodeId::true_id());
    let g = b.build();
    let dot = g.to_dot();
    assert!(dot.contains("\tn1 [label=\"l0\", shape=box, style=rounded];\n"));
    assert!(dot.contains("\tn0 -> n1 [label=\"next\", style=dashed];\n"));
    assert!(dot.contains("\tbad0 [label=\"bad0\", shape=box];\n\tn1 -> bad0 [style=dashed];\n"));
    assert!(dot.contains("\tconst_false -> out0 [style=dashed];\n"));
}

#[test]
fn dot_input_labels_use_letters() {
    let mut b = AigBuilder::new();
    for _ in 0..28 {
        b.add_input();
    }
    let g = b.build();
    let dot = g.to_dot();
    assert!(dot.contains("\tn25 [label=\"z\", shape=box];\n"));
    assert!(dot.contains("\tn26 [label=\"aa\", shape=box];\n"));
    assert!(dot.contains("\tn27 [label=\"ab\", shape=box];\n"));
}
