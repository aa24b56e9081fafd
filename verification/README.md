# raig

A library for And-Inverter Graphs (AIGs) and the AIGER file format, written
in Verus: every function of the library carries a contract that Verus proves.

## Layout

- `src/graph/` — signals (`NodeId`), nodes, graphs and the graph builder with
  structural hashing (`mod.rs`); fan-in lists (`fanin.rs`); Graphviz DOT
  rendering (`graphviz.rs`); symbol tables and their string storage
  (`symbols.rs`).
- `src/aiger/` — the line parser and header checks (`mod.rs`), the
  mathematical statement of what a parse yields (`model.rs`), the ASCII and
  binary body parsers, the ASCII writer (`serializer.rs`), the proof that
  every parsed graph is laid out in AIGER order (`order.rs`) and the proof
  that written text parses back into the same graph, symbols and comments
  (`roundtrip/`: the laws in `mod.rs`, the byte-level reading of lines in
  `lines.rs`, header and body in `body.rs`, symbol lines and comments in
  `symbols.rs`, symbol tables in `table.rs`).
- `src/text.rs` — decimal numerals and the two standard-library calls that
  the library trusts (`String::push`, `std::str::from_utf8`).
- `src/cli.rs` — the checks on output paths of the command-line tool.
- `tests/` — tests run against the compiled library.
- `app/` — the command-line tool (argument parsing, files, standard streams).

## Contracts in brief

- Parsing (`run_parser_with_options`) returns exactly what `spec_parse` in
  `aiger/model.rs` states of the input bytes; every graph it returns is
  well formed and refers only to its own nodes.
- Writing (`write_aiger_with_symbol_table_and_comments`) appends exactly
  `spec_ascii_text` of the graph, its symbols and its comments.
- `lemma_ascii_text_parses_back` ties the two together for graphs in AIGER
  order, and `lemma_parsed_graph_round_trips` for every graph that a parse
  yields; `lemma_written_table_reads_back` and
  `lemma_parsed_table_round_trips` say the same of symbol tables.
- Builder-made graphs (with non-marker AND children) and parsed graphs
  list their node kinds (`AigGraph::kinds_listed`): every node that is not a
  listed input or latch is an AND node, so `and_gates()` has
  `num_and_gates()` entries (`lemma_and_gates_counted`).
- `AigBuilder::add_and_optimized` simplifies constant and trivial ANDs and
  reuses structurally equal nodes; `FanIn::from_graph` lists, for each
  signal, the nodes that use it as a child, once per use, in graph order.
