//! Reading back what the writer wrote.
//!
//! The ASCII text that the writer produces for a graph in AIGER order, with
//! its symbol entries and comments, parses back into the same graph,
//! entries and comments. The proof follows the parser's phases over the
//! bytes of the text, line by line.

mod body;
mod lines;
mod symbols;
mod table;

use crate::aiger::{spec_header, AigerError, AigerHeader};
use crate::aiger::model::{names_from_entries, next_line, spec_parse, spec_parse_body, table_holds, ParsedAiger};
use crate::aiger::order::lemma_parsed_graph_in_aiger_order;
use crate::aiger::serializer::{comments_text, header_text, symbol_text};
use crate::graph::AigGraph;
use crate::graph::symbols::{SymbolKind, SymbolTable};
use vstd::utf8::encode_utf8;
use body::{lemma_body_parses, lemma_header, lemma_text_ascii, written_header};
use lines::{
    lemma_encode_ascii, lemma_encode_concat, lemma_next_line_at, lemma_text_at_split, lemma_text_at_sub, plain,
    text_at,
};
use symbols::{lemma_parse_symbols, lemma_symbol_section};
use table::{lemma_entries_readable, lemma_replay_symbols, lemma_table_ok, lemma_table_weight};
use vstd::prelude::*;

verus! {

/// Symbol entries that the symbol section accepts, one after the other,
/// after `count` non-empty names of `bytes` bytes in all: no name holds a
/// line feed, no index is `usize::MAX`, and the running count of non-empty
/// names and of their UTF-8 bytes stays within the 32-bit limits of symbol
/// storage.
pub open spec fn entries_readable(entries: Seq<(SymbolKind, usize, Seq<char>)>, count: nat, bytes: nat) -> bool
    decreases entries.len(),
{
    if entries.len() == 0 {
        true
    } else {
        let (kind, index, name) = entries[0];
        let n = encode_utf8(name).len();
        &&& forall|j: int| 0 <= j < name.len() ==> #[trigger] name[j] != '\n'
        &&& index < usize::MAX
        &&& count + 3 <= u32::MAX
        &&& bytes + n <= u32::MAX
        &&& entries_readable(
            entries.drop_first(),
            count + if n > 0 {
                1nat
            } else {
                0nat
            },
            bytes + n,
        )
    }
}

/// Where the header, the body and the rest of the text of `g` stand in its
/// bytes.
proof fn lemma_data_layout(
    g: &AigGraph,
    symbols: Seq<(SymbolKind, usize, Seq<char>)>,
    comments: Seq<char>,
) -> (last: Seq<char>)
    ensures
        ({
            let data = encode_utf8(g.spec_ascii_text(symbols, comments));
            let hdr = header_text(g, "aag"@);
            let end = (hdr.len() + g.body_text().len()) as int;
            &&& plain(last)
            &&& hdr == last + "\n"@
            &&& text_at(data, 0, hdr)
            &&& text_at(data, hdr.len() as int, g.body_text())
            &&& end <= data.len()
            &&& data.subrange(end, data.len() as int) == encode_utf8(symbol_text(symbols)) + encode_utf8(
                comments_text(comments),
            )
        }),
{
    let hdr = header_text(g, "aag"@);
    let body = g.body_text();
    let a = hdr + body;
    let st = symbol_text(symbols);
    let ct = comments_text(comments);
    let text = g.spec_ascii_text(symbols, comments);
    assert(text == a + st + ct);
    lemma_encode_concat(a + st, ct);
    lemma_encode_concat(a, st);
    let last = lemma_text_ascii(g);
    let ea = encode_utf8(a);
    lemma_encode_ascii(a);
    let data = encode_utf8(text);
    let rest = encode_utf8(st) + encode_utf8(ct);
    assert(data =~= ea + rest);
    assert forall|j: int| 0 <= j < a.len() implies data[0 + j] == (#[trigger] a[j]) as u8 by {
        assert(data[j] == ea[j]);
        assert(ea[0 + j] == a[j] as u8);
    }
    lemma_text_at_split(data, 0, hdr, body);
    assert(data.subrange(a.len() as int, data.len() as int) =~= rest);
    last
}

/// A parse is its header line, then its body.
proof fn lemma_parse_split(data: Seq<u8>, line: Seq<u8>, p1: int, h: AigerHeader)
    requires
        next_line(data, 0) == (line, p1),
        spec_header(line) == Ok::<AigerHeader, AigerError>(h),
    ensures
        spec_parse(data, 0, false) == spec_parse_body(data, p1, h, false, h.is_ascii),
{
}

/// The header line of the text of `g`, as the parser reads it.
proof fn lemma_header_part(g: &AigGraph, symbols: Seq<(SymbolKind, usize, Seq<char>)>, comments: Seq<char>)
    requires
        g.aiger_ordered(),
    ensures
        ({
            let data = encode_utf8(g.spec_ascii_text(symbols, comments));
            let n = header_text(g, "aag"@).len() as int;
            &&& next_line(data, 0) == (data.subrange(0, n), n)
            &&& spec_header(data.subrange(0, n)) == Ok::<AigerHeader, AigerError>(written_header(g))
        }),
{
    let hdr = header_text(g, "aag"@);
    let data = encode_utf8(g.spec_ascii_text(symbols, comments));
    let last = lemma_data_layout(g, symbols, comments);
    reveal_strlit("\n");
    assert(hdr.len() == last.len() + 1);
    lemma_next_line_at(data, 0, last);
    let line = data.subrange(0, hdr.len() as int);
    lemma_text_at_sub(data, 0, hdr.len() as int, hdr);
    lemma_header(line, g);
}

/// The body, symbols and comments of the text of `g`, as the parser reads
/// them.
proof fn lemma_body_part(g: &AigGraph, symbols: Seq<(SymbolKind, usize, Seq<char>)>, comments: Seq<char>)
    requires
        g.aiger_ordered(),
        symbols_readable(symbols),
    ensures
        spec_parse_body(
            encode_utf8(g.spec_ascii_text(symbols, comments)),
            header_text(g, "aag"@).len() as int,
            written_header(g),
            false,
            true,
        ) == Ok::<ParsedAiger, AigerError>(ParsedAiger { graph: g.model(), symbols, comments }),
{
    let hdr = header_text(g, "aag"@);
    let data = encode_utf8(g.spec_ascii_text(symbols, comments));
    lemma_data_layout(g, symbols, comments);
    let end = (hdr.len() + g.body_text().len()) as int;
    lemma_symbol_section(data, end, symbols, comments, 0, 0);
    lemma_body_parses(data, g, hdr.len() as int, symbols, comments);
}

/// Symbol entries that read back as they were written (see
/// [`entries_readable`]).
pub open spec fn symbols_readable(symbols: Seq<(SymbolKind, usize, Seq<char>)>) -> bool {
    entries_readable(symbols, 0, 0)
}

/// Writing a graph in AIGER order as ASCII AIGER, with symbol entries and
/// comments, and parsing the text back (without AND-gate optimization)
/// gives back the same graph, the same symbol entries in the same order and
/// the same comments.
pub proof fn lemma_ascii_text_parses_back(
    g: &AigGraph,
    symbols: Seq<(SymbolKind, usize, Seq<char>)>,
    comments: Seq<char>,
)
    requires
        g.aiger_ordered(),
        symbols_readable(symbols),
    ensures
        spec_parse(encode_utf8(g.spec_ascii_text(symbols, comments)), 0, false) == Ok::<ParsedAiger, AigerError>(
            ParsedAiger { graph: g.model(), symbols, comments },
        ),
{
    let n = header_text(g, "aag"@).len() as int;
    let data = encode_utf8(g.spec_ascii_text(symbols, comments));
    lemma_header_part(g, symbols, comments);
    lemma_body_part(g, symbols, comments);
    lemma_parse_split(data, data.subrange(0, n), n, written_header(g));
}

/// A graph that parsing yields, written as ASCII AIGER with symbol entries
/// and comments, parses back (without AND-gate optimization) into the same
/// graph, the same entries and the same comments.
pub proof fn lemma_parsed_graph_round_trips(
    data: Seq<u8>,
    pos: int,
    pre_optimize: bool,
    g: &AigGraph,
    symbols: Seq<(SymbolKind, usize, Seq<char>)>,
    comments: Seq<char>,
)
    requires
        spec_parse(data, pos, pre_optimize) is Ok,
        g.model() == spec_parse(data, pos, pre_optimize)->Ok_0.graph,
        symbols_readable(symbols),
    ensures
        spec_parse(encode_utf8(g.spec_ascii_text(symbols, comments)), 0, false) == Ok::<ParsedAiger, AigerError>(
            ParsedAiger { graph: g.model(), symbols, comments },
        ),
{
    lemma_parsed_graph_in_aiger_order(data, pos, pre_optimize);
    lemma_ascii_text_parses_back(g, symbols, comments);
}

/// The name of entry `i` of a list of names, `None` beyond its end.
pub open spec fn name_at(names: Seq<Option<Seq<char>>>, i: int) -> Option<Seq<char>> {
    if 0 <= i < names.len() {
        names[i]
    } else {
        None
    }
}

/// A symbol table written with a graph and read back names the same
/// entries of every list, where its entries are readable and it has no
/// justice names (which AIGER symbol lines store with the constraints).
pub proof fn lemma_written_table_reads_back(
    g: &AigGraph,
    st: &SymbolTable,
    comments: Seq<char>,
    read: &SymbolTable,
)
    requires
        g.aiger_ordered(),
        symbols_readable(st.spec_symbols()),
        forall|i: int| #[trigger] name_at(st.names(SymbolKind::Justice), i) is None,
        spec_parse(encode_utf8(g.spec_ascii_text(st.spec_symbols(), comments)), 0, false) matches Ok(p)
            && table_holds(*read, p.symbols),
    ensures
        forall|k: SymbolKind, i: int| 0 <= i ==> #[trigger] name_at(read.names(k), i) == name_at(st.names(k), i),
{
    lemma_ascii_text_parses_back(g, st.spec_symbols(), comments);
    assert forall|k: SymbolKind, i: int| 0 <= i implies #[trigger] name_at(read.names(k), i) == name_at(
        st.names(k),
        i,
    ) by {
        lemma_replay_symbols(st, k);
        assert(read.names(k) == names_from_entries(st.spec_symbols(), k));
    }
}

/// The number of UTF-8 bytes of a name.
pub open spec fn byte_weight(name: Seq<char>) -> nat {
    encode_utf8(name).len()
}

/// One for a non-empty name, zero for the empty name.
pub open spec fn name_weight(name: Seq<char>) -> nat {
    if encode_utf8(name).len() > 0 {
        1
    } else {
        0
    }
}

/// The total weight of the names of `entries`.
pub open spec fn entries_weight(entries: Seq<(SymbolKind, usize, Seq<char>)>, w: spec_fn(Seq<char>) -> nat) -> nat
    decreases entries.len(),
{
    if entries.len() == 0 {
        0
    } else {
        entries_weight(entries.drop_last(), w) + w(entries.last().2)
    }
}

/// A symbol table that a parse yields, written with its graph and read
/// back, names the same entries of every list, where its non-empty names
/// number at most `u32::MAX - 3`.
pub proof fn lemma_parsed_table_round_trips(
    data: Seq<u8>,
    pos: int,
    pre_optimize: bool,
    g: &AigGraph,
    st: &SymbolTable,
    comments: Seq<char>,
    read: &SymbolTable,
)
    requires
        spec_parse(data, pos, pre_optimize) matches Ok(p) && g.model() == p.graph && table_holds(*st, p.symbols)
            && entries_weight(p.symbols, |n: Seq<char>| name_weight(n)) + 3 <= u32::MAX,
        spec_parse(encode_utf8(g.spec_ascii_text(st.spec_symbols(), comments)), 0, false) matches Ok(q)
            && table_holds(*read, q.symbols),
    ensures
        forall|k: SymbolKind, i: int| 0 <= i ==> #[trigger] name_at(read.names(k), i) == name_at(st.names(k), i),
{
    let p = spec_parse(data, pos, pre_optimize)->Ok_0;
    lemma_parsed_graph_in_aiger_order(data, pos, pre_optimize);
    lemma_parse_symbols(data, pos, pre_optimize);
    lemma_table_ok(st, p.symbols);
    lemma_table_weight(st, p.symbols, |n: Seq<char>| name_weight(n));
    lemma_table_weight(st, p.symbols, |n: Seq<char>| byte_weight(n));
    lemma_entries_readable(st.spec_symbols(), 0, 0);
    lemma_written_table_reads_back(g, st, comments, read);
}

} // verus!
