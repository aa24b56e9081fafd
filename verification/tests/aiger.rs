use raig::aiger::{
    parse_ascii_aiger_into_graph, parse_binary_aiger_into_graph, run_parser_with_options,
    run_parser_with_options_checked, verify_aiger_header, verify_aiger_header_checked, write_aiger,
    write_aiger_with_symbol_table, write_aiger_with_symbol_table_and_comments, write_ascii_aiger,
    AigerError, AigerMode, ByteReader,
};
use raig::graph::symbols::SymbolTable;
use raig::graph::{AigBuilder, NodeId};

fn reader(bytes: &[u8]) -> ByteReader {
    ByteReader::new(bytes.to_vec())
}

#[test]
fn identity_circuit() {
    let mut r = reader(b"aag 1 1 0 1 0\n2\n2\n");
    let (graph, st, comments) = run_parser_with_options(&mut r, true).unwrap();
    assert_eq!(graph.inputs(), &[NodeId(2)]);
    assert_eq!(graph.outputs(), &[NodeId(2)]);
    assert_eq!(graph.num_and_gates(), 0);
    assert!(st.is_empty());
    assert_eq!(comments, "");
    assert!(graph.to_dot().contains("digraph AIG"));
}

#[test]
fn header_fields() {
    let mut r = reader(b"aag 7 2 1 1 3 1 0 2 1\nrest");
    let h = verify_aiger_header(&mut r);
    assert!(h.is_ascii);
    assert_eq!(h.max_var, 7);
    assert_eq!(h.num_inputs, 2);
    assert_eq!(h.num_latches, 1);
    assert_eq!(h.num_outputs, 1);
    assert_eq!(h.num_and_gates, 3);
    assert_eq!(h.num_bad_states, 1);
    assert_eq!(h.num_invariants, 0);
    assert_eq!(h.num_justice, 2);
    assert_eq!(h.num_fairness, 1);
    assert_eq!(h.num_labels(), 5);
    assert_eq!(r.pos, 22);
}

#[test]
fn header_errors() {
    for bad in [
        &b"aax 1 1 0 1 0\n"[..],
        b"aag 1 1 0 1\n",
        b"aag 1 1 0 1 0 x\n",
        b"aag 0 1 0 1 0\n",
        b"aig 2 1 0 1 0\n",
        b"aag 99999999999999999999999 1 0 1 0\n",
        b"",
    ] {
        let mut r = reader(bad);
        assert_eq!(verify_aiger_header_checked(&mut r), Err(AigerError::Malformed));
    }
    let mut r = reader(b"aag 5 1 0 1 0\n");
    assert!(verify_aiger_header_checked(&mut r).is_ok());
}

#[test]
fn ascii_and_gate() {
    let text = b"aag 3 2 0 1 1\n2\n4\n6\n6 2 5\n";
    let mut r = reader(text);
    let h = verify_aiger_header(&mut r);
    let (g, _, _) = parse_ascii_aiger_into_graph(h, &mut r, false).unwrap();
    assert_eq!(g.num_and_gates(), 1);
    let x = g.outputs()[0];
    assert_eq!(g.index(x).left(), NodeId(2));
    assert_eq!(g.index(x).right(), NodeId(5));
}

#[test]
fn ascii_latches_and_properties() {
    let text = b"aag 3 1 1 1 1 1\n2\n4 7\n6\n7\n6 4 3\n";
    let mut r = reader(text);
    let (g, _, _) = run_parser_with_options(&mut r, false).unwrap();
    assert_eq!(g.latches(), &[NodeId(4)]);
    assert_eq!(g.index(NodeId(4)).get_latch_input(), Some(NodeId(7)));
    assert_eq!(g.outputs(), &[NodeId(6)]);
    assert_eq!(g.bad_states(), &[NodeId(7)]);
}

#[test]
fn pre_optimize_simplifies() {
    let text = b"aag 3 1 0 1 2\n2\n6\n4 2 3\n6 2 1\n";
    let mut r = reader(text);
    let (g, _, _) = run_parser_with_options(&mut r, true).unwrap();
    // 4 = a & !a = false, 6 = a & true = a
    assert_eq!(g.num_and_gates(), 0);
    assert_eq!(g.outputs(), &[NodeId(2)]);
    let mut r = reader(text);
    let (g, _, _) = run_parser_with_options(&mut r, false).unwrap();
    assert_eq!(g.num_and_gates(), 2);
}

#[test]
fn binary_and_gate() {
    let data = b"aig 3 2 0 1 1\n6\n\x02\x02";
    let mut r = reader(data);
    let (g, _, _) = run_parser_with_options(&mut r, false).unwrap();
    assert_eq!(g.inputs(), &[NodeId(2), NodeId(4)]);
    let x = g.outputs()[0];
    assert_eq!(x, NodeId(6));
    assert_eq!(g.index(x).left(), NodeId(4));
    assert_eq!(g.index(x).right(), NodeId(2));
}

#[test]
fn binary_multi_byte_delta() {
    // lhs = 2 * 131 = 262, delta0 = 130 (0x82 0x01), delta1 = 0
    let mut data = b"aig 131 130 0 1 1\n262\n".to_vec();
    data.extend_from_slice(&[0x82, 0x01, 0x00]);
    let mut r = reader(&data);
    let h = verify_aiger_header(&mut r);
    let (g, _, _) = parse_binary_aiger_into_graph(h, &mut r, false).unwrap();
    let x = g.outputs()[0];
    assert_eq!(g.index(x).left(), NodeId(132));
    assert_eq!(g.index(x).right(), NodeId(132));
}

#[test]
fn binary_truncated_delta() {
    let data = b"aig 3 2 0 1 1\n6\n\x02";
    let mut r = reader(data);
    assert!(matches!(
        run_parser_with_options_checked(&mut r, false),
        Err(AigerError::UnexpectedEof)
    ));
    let data = b"aig 3 2 0 1 1\n6\n\x82";
    let mut r = reader(data);
    assert!(matches!(
        run_parser_with_options(&mut r, false),
        Err(AigerError::UnexpectedEof)
    ));
}

#[test]
fn malformed_bodies() {
    for bad in [
        &b"aag 1 1 0 1 0\n2\n"[..],
        b"aag 1 1 0 1 0\nx\n2\n",
        b"aag 1 1 0 1 0\n2\n4\n",
        b"aag 1 1 0 1 0\n8\n2\n",
        b"aag 2 1 0 1 1\n2\n4\n4 6 2\n",
        b"aig 3 2 0 1 1\n6\n\x07\x02",
        b"aag 1 1 0 0 0\n2\nq0 x\n",
        b"aag 1 1 0 0 0\n2\ni0x\n",
    ] {
        let mut r = reader(bad);
        assert!(matches!(
            run_parser_with_options_checked(&mut r, true),
            Err(AigerError::Malformed)
        ));
    }
}

#[test]
fn symbols_and_comments() {
    let text = b"aag 1 1 0 1 0\n2\n2\ni0 clock in\no0 out\nc\nmade by hand\nsecond line\n";
    let mut r = reader(text);
    let (_, st, comments) = run_parser_with_options(&mut r, true).unwrap();
    assert_eq!(st.input(0), Some("clock in".to_string()));
    assert_eq!(st.output(0), Some("out".to_string()));
    assert_eq!(comments, "made by hand\nsecond line");
}

#[test]
fn write_identity() {
    let mut b = AigBuilder::new();
    let a = b.add_input();
    b.add_output(a);
    let g = b.build();
    let mut out = String::new();
    write_ascii_aiger(&g, &mut out);
    assert_eq!(out, "aag 1 1 0 1 0\n2\n2\n");
    let mut out2 = String::new();
    write_aiger(&g, AigerMode::Ascii, &mut out2);
    assert_eq!(out, out2);
    assert_eq!(AigerMode::Ascii.ext(), "aag");
    assert_eq!(AigerMode::Binary.ext(), "aig");
}

#[test]
fn write_full_file() {
    let text = "aag 4 1 1 1 2 1 0 0 0\n2\n4 9\n8\n9\n6 2 5\n8 3 7\ni0 a\nl0 s\nc\nnote\n";
    let mut r = reader(text.as_bytes());
    let (g, st, comments) = run_parser_with_options(&mut r, false).unwrap();
    let mut out = String::new();
    write_aiger_with_symbol_table_and_comments(&g, &st, &comments, AigerMode::Ascii, &mut out);
    assert_eq!(out, text);
    let mut plain = String::new();
    write_aiger_with_symbol_table(&g, &st, AigerMode::Ascii, &mut plain);
    assert_eq!(plain, "aag 4 1 1 1 2 1 0 0 0\n2\n4 9\n8\n9\n6 2 5\n8 3 7\ni0 a\nl0 s\n");
}

#[test]
fn written_graph_parses_back() {
    let mut b = AigBuilder::new();
    let x = b.add_input();
    let y = b.add_input();
    let l = b.add_latch(NodeId::false_id());
    let a1 = b.add_and_raw(x, y.invert());
    let a2 = b.add_and_raw(a1, l.invert());
    b.node(l).set_latch_input(a2.invert());
    b.add_output(a2);
    b.add_output(NodeId::true_id());
    b.add_bad_state(a1.invert());
    b.add_fairness(y);
    let g = b.build();
    let mut out = String::new();
    write_ascii_aiger(&g, &mut out);
    assert_eq!(out, "aag 5 2 1 2 2 1 0 0 1\n2\n4\n6 11\n10\n1\n9\n4\n8 2 5\n10 8 7\n");
    let mut r = reader(out.as_bytes());
    let (g2, st, comments) = run_parser_with_options(&mut r, false).unwrap();
    assert_eq!(g2.nodes, g.nodes);
    assert_eq!(g2.inputs, g.inputs);
    assert_eq!(g2.latches, g.latches);
    assert_eq!(g2.outputs, g.outputs);
    assert_eq!(g2.bad_states, g.bad_states);
    assert_eq!(g2.constraints, g.constraints);
    assert_eq!(g2.justice, g.justice);
    assert_eq!(g2.fairness, g.fairness);
    assert!(st.is_empty());
    assert_eq!(comments, "");
}

#[test]
fn written_symbols_and_comments_parse_back() {
    let mut b = AigBuilder::new();
    let x = b.add_input();
    let l = b.add_latch(NodeId::false_id());
    let a = b.add_and_raw(x, l);
    b.node(l).set_latch_input(a.invert());
    b.add_output(a);
    b.add_output(x.invert());
    b.add_fairness(l);
    let g = b.build();
    let mut st = SymbolTable::new();
    st.name_input(0, "clock ⏰");
    st.name_latch(0, "state");
    st.name_output(1, "über out");
    st.name_fairness(0, "f");
    let comments = "first line\nzweite Zeile ✓";
    let mut out = String::new();
    write_aiger_with_symbol_table_and_comments(&g, &st, comments, AigerMode::Ascii, &mut out);
    assert_eq!(
        out,
        "aag 3 1 1 2 1 0 0 0 1\n2\n4 7\n6\n3\n4\n6 2 4\ni0 clock ⏰\nl0 state\no1 über out\nf0 f\nc\nfirst line\nzweite Zeile ✓\n"
    );
    let mut r = reader(out.as_bytes());
    let (g2, st2, comments2) = run_parser_with_options(&mut r, false).unwrap();
    assert_eq!(g2.nodes, g.nodes);
    assert_eq!(g2.outputs, g.outputs);
    assert_eq!(g2.fairness, g.fairness);
    assert_eq!(st2.symbols(), st.symbols());
    assert_eq!(comments2, comments);
}

#[test]
fn parsed_graph_round_trips() {
    let text = b"aag 4 2 0 2 2\n4\n2\n8\n7\n6 2 5\n8 6 5\n";
    let mut r = reader(text);
    let (g, st, comments) = run_parser_with_options(&mut r, true).unwrap();
    let mut out = String::new();
    write_aiger_with_symbol_table_and_comments(&g, &st, &comments, AigerMode::Ascii, &mut out);
    assert_eq!(out, "aag 4 2 0 2 2\n2\n4\n8\n7\n6 3 4\n8 3 6\n");
    let mut r2 = reader(out.as_bytes());
    let (g2, st2, comments2) = run_parser_with_options(&mut r2, false).unwrap();
    assert_eq!(g2.nodes, g.nodes);
    assert_eq!(g2.inputs, g.inputs);
    assert_eq!(g2.outputs, g.outputs);
    assert!(st2.is_empty());
    assert_eq!(comments2, comments);
}

#[test]
fn parsed_table_round_trips() {
    let text = "aag 3 2 0 1 1\n2\n4\n6\n6 2 4\no0 both\ni1 b\ni0 a\ni1 second b\nc\nnotes\n";
    let mut r = reader(text.as_bytes());
    let (g, st, comments) = run_parser_with_options(&mut r, false).unwrap();
    assert_eq!(st.input(1), Some("second b".to_string()));
    let mut out = String::new();
    write_aiger_with_symbol_table_and_comments(&g, &st, &comments, AigerMode::Ascii, &mut out);
    assert_eq!(out, "aag 3 2 0 1 1\n2\n4\n6\n6 2 4\ni0 a\ni1 second b\no0 both\nc\nnotes\n");
    let mut r2 = reader(out.as_bytes());
    let (g2, st2, comments2) = run_parser_with_options(&mut r2, false).unwrap();
    assert_eq!(g2.nodes, g.nodes);
    assert_eq!(st2.symbols(), st.symbols());
    assert_eq!(st2.input(0), st.input(0));
    assert_eq!(st2.output(0), st.output(0));
    assert_eq!(comments2, comments);
}

#[test]
fn binary_ends_with_and_gates() {
    let data = b"aig 3 2 0 1 1\n6\n\x02\x02i0 a\nnot a symbol line\nc\nnote\n";
    let mut r = reader(data);
    let (g, st, comments) = run_parser_with_options(&mut r, false).unwrap();
    assert_eq!(g.outputs(), &[NodeId(6)]);
    assert!(st.is_empty());
    assert_eq!(comments, "");
}

#[test]
fn and_gates_counted() {
    let mut b = AigBuilder::new();
    let x = b.add_input();
    let a1 = b.add_and_raw(x, x.invert());
    let l = b.add_latch(a1);
    let a2 = b.add_and_optimized(l, x);
    let y = b.add_input();
    let _a3 = b.add_and_optimized(a2, y.invert());
    let g = b.build();
    assert_eq!(g.and_gates().len(), g.num_and_gates());
    assert_eq!(g.num_and_gates(), 3);
    for (i, n) in g.nodes.iter().enumerate() {
        let id = NodeId::from_index(i);
        let listed = g.inputs().contains(&id) || g.latches().contains(&id);
        assert_eq!(n.is_and(), !listed);
        let kinds = [n.is_input(), n.is_latch(), n.is_and()];
        assert_eq!(kinds.iter().filter(|&&k| k).count(), 1);
    }
    let mut r = reader(b"aag 5 1 1 1 2\n2\n4 10\n10\n8 2 4\n10 9 2\n");
    let (p, _, _) = run_parser_with_options(&mut r, true).unwrap();
    assert_eq!(p.and_gates().len(), p.num_and_gates());
}
