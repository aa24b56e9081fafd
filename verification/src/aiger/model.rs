//! What parsing an AIGER file yields, stated over its bytes.
//!
//! Each phase of the parser is a step function on a [`ParseState`]; a
//! phase that repeats a step is [`run_steps`]. A step fails with
//! [`AigerError::Malformed`] where the input breaks the format, and with
//! [`AigerError::UnexpectedEof`] where a binary delta is cut off.

use crate::aiger::{
    digits_end, int_at, int_fits, ints_scan, all_found, until_end, lemma_until_end_bounds, AigerError,
    AigerHeader,
};
use crate::graph::symbols::{set_slot, spec_from_tag, SymbolKind, SymbolTable};
use crate::graph::{
    model_add_and_optimized, model_add_and_raw, model_add_input, model_add_label, model_add_latch,
    model_and_allocates, model_set_latch_input, BuilderModel, GraphModel, LabelKind, NodeId,
    MAX_GRAPH_INDEX, NODE_ID_MASK,
};
use vstd::prelude::*;
use vstd::utf8::*;

verus! {

/// The line at `pos` (with its line feed, if any) and the position after it.
pub open spec fn next_line(data: Seq<u8>, pos: int) -> (Seq<u8>, int) {
    let end = until_end(data, pos, 10);
    (data.subrange(pos, end), end)
}

/// The literal map of a file with maximal variable `max_var`: variable 0 is
/// the false constant, the others are not yet defined.
pub open spec fn lits_new(max_var: nat) -> Seq<NodeId> {
    Seq::new(max_var + 1, |i: int| if i == 0 { NodeId(0) } else { NodeId(NODE_ID_MASK) })
}

/// Record that literal `lit` stands for `id`; fails where its variable is
/// beyond the map.
pub open spec fn lits_add(lits: Seq<NodeId>, lit: nat, id: NodeId) -> Option<Seq<NodeId>> {
    let v = (lit / 2) as int;
    if v < lits.len() {
        Some(lits.update(v, if lit % 2 == 1 { id.spec_invert() } else { id }))
    } else {
        None
    }
}

/// The signal of literal `lit`; fails where its variable is not defined.
pub open spec fn lits_get(lits: Seq<NodeId>, lit: nat) -> Option<NodeId> {
    let v = (lit / 2) as int;
    if v < lits.len() && lits[v] != NodeId(NODE_ID_MASK) {
        Some(if lit % 2 == 1 { lits[v].spec_invert() } else { lits[v] })
    } else {
        None
    }
}

/// One map entry covers both literals of a variable: after recording a
/// literal, it gives back its signal, and the other literal of the same
/// variable gives the inverted signal.
pub proof fn lemma_lits_both_polarities(lits: Seq<NodeId>, lit: nat, id: NodeId)
    requires
        lits_add(lits, lit, id) is Some,
        !id.spec_is_marker(),
    ensures
        lits_get(lits_add(lits, lit, id)->0, lit) == Some(id),
        lits_get(lits_add(lits, lit, id)->0, if lit % 2 == 0 { lit + 1 } else { (lit - 1) as nat })
            == Some(id.spec_invert()),
{
    crate::graph::lemma_invert_involution(id);
}

/// The state of a parse between two steps.
#[verifier::ext_equal]
pub struct ParseState {
    pub b: BuilderModel,
    pub lits: Seq<NodeId>,
    /// Latches and the literals of their next states, resolved at the end.
    pub latch_inputs: Seq<(NodeId, usize)>,
    /// The literals of outputs and properties, resolved at the end.
    pub label_lits: Seq<usize>,
    pub pos: int,
}

/// The kinds of repeated steps.
#[derive(Clone, Copy)]
pub enum Step {
    AsciiInput,
    AsciiLatch,
    Label,
    AsciiAnd,
    BinaryInput,
    BinaryLatch,
    BinaryAnd,
}

/// The integer on the line at the parse position (only the first one on
/// the line counts).
pub open spec fn line_int(data: Seq<u8>, pos: int) -> Result<(nat, int), AigerError> {
    let (line, next) = next_line(data, pos);
    if !int_fits(line, 0) {
        Err(AigerError::Malformed)
    } else {
        match int_at(line, 0) {
            Some(n) => Ok((n, next)),
            None => Err(AigerError::Malformed),
        }
    }
}

/// The first `n` integers on the line at the parse position.
pub open spec fn line_ints(data: Seq<u8>, pos: int, n: nat) -> Result<(Seq<nat>, int), AigerError> {
    let (line, next) = next_line(data, pos);
    let (found, p, fits) = ints_scan(line, 0, n);
    if !fits || !all_found(found) {
        Err(AigerError::Malformed)
    } else {
        Ok((found.map_values(|o: Option<nat>| o->0), next))
    }
}

/// A new input, and its literal recorded.
pub open spec fn add_input_step(s: ParseState, lit: nat, pos: int) -> Result<ParseState, AigerError> {
    if s.b.graph.nodes.len() > MAX_GRAPH_INDEX {
        Err(AigerError::Malformed)
    } else {
        let (b, id) = model_add_input(s.b);
        match lits_add(s.lits, lit, id) {
            Some(lits) => Ok(ParseState { b, lits, pos, ..s }),
            None => Err(AigerError::Malformed),
        }
    }
}

/// A new latch (its next state still unknown), and its literal recorded.
pub open spec fn add_latch_step(s: ParseState, lit: nat, next_lit: nat, pos: int) -> Result<ParseState, AigerError> {
    if s.b.graph.nodes.len() > MAX_GRAPH_INDEX {
        Err(AigerError::Malformed)
    } else {
        let (b, id) = model_add_latch(s.b, NodeId(0));
        match lits_add(s.lits, lit, id) {
            Some(lits) => Ok(
                ParseState { b, lits, latch_inputs: s.latch_inputs.push((id, next_lit as usize)), pos, ..s },
            ),
            None => Err(AigerError::Malformed),
        }
    }
}

/// A new AND gate of literals `lhs = rhs0 & rhs1`.
pub open spec fn add_and_step(
    s: ParseState,
    lhs: nat,
    rhs0: nat,
    rhs1: nat,
    pos: int,
    pre_optimize: bool,
) -> Result<ParseState, AigerError> {
    match (lits_get(s.lits, rhs0), lits_get(s.lits, rhs1)) {
        (Some(left), Some(right)) => {
            let allocates = !pre_optimize || model_and_allocates(s.b, left, right);
            if allocates && s.b.graph.nodes.len() > MAX_GRAPH_INDEX {
                Err(AigerError::Malformed)
            } else {
                let (b, id) = if pre_optimize {
                    model_add_and_optimized(s.b, left, right)
                } else {
                    model_add_and_raw(s.b, left, right)
                };
                match lits_add(s.lits, lhs, id) {
                    Some(lits) => Ok(ParseState { b, lits, pos, ..s }),
                    None => Err(AigerError::Malformed),
                }
            }
        },
        _ => Err(AigerError::Malformed),
    }
}

/// Decoding a binary delta: seven bits per byte, least significant first,
/// the high bit set on every byte but the last.
pub open spec fn delta_scan(data: Seq<u8>, pos: int, value: usize, shift: u32) -> Result<(usize, int), AigerError>
    decreases data.len() - pos,
{
    if pos < 0 || pos >= data.len() {
        Err(AigerError::UnexpectedEof)
    } else {
        let byte = data[pos];
        let chunk = (byte & 0x7f) as usize;
        if shift >= usize::BITS {
            Err(AigerError::Malformed)
        } else {
            let v = value | (chunk << shift);
            if byte & 0x80 == 0 {
                Ok((v, pos + 1))
            } else {
                delta_scan(data, pos + 1, v, (shift + 7) as u32)
            }
        }
    }
}

/// The bytes that encode `v` as a binary delta: its seven-bit chunks, least
/// significant first, with the high bit set on every byte but the last.
pub open spec fn delta_bytes(v: nat) -> Seq<u8>
    decreases v,
{
    if v < 128 {
        seq![v as u8]
    } else {
        seq![(v % 128 + 128) as u8] + delta_bytes(v / 128)
    }
}

proof fn lemma_delta_scan_chunks(data: Seq<u8>, pos: int, value: usize, shift: u32, v: usize)
    requires
        0 <= pos,
        pos + delta_bytes(v as nat).len() <= data.len(),
        data.subrange(pos, pos + delta_bytes(v as nat).len()) == delta_bytes(v as nat),
        shift < usize::BITS,
        value < (1usize << shift),
        (v << shift) >> shift == v,
    ensures
        delta_scan(data, pos, value, shift) == Ok::<(usize, int), AigerError>(
            (value | (v << shift), pos + delta_bytes(v as nat).len()),
        ),
    decreases v,
{
    let bytes = delta_bytes(v as nat);
    assert(data[pos] == bytes[0]);
    let byte = data[pos];
    if v < 128 {
        assert(byte == v as u8);
        assert((byte & 0x7f) as usize == v && byte & 0x80 == 0) by (bit_vector)
            requires
                byte == v as u8,
                v < 128,
        ;
    } else {
        let c = v % 128;
        let w = v / 128;
        assert(byte == (c + 128) as u8);
        assert((byte & 0x7f) as usize == c && byte & 0x80 != 0) by (bit_vector)
            requires
                byte == (c + 128) as u8,
                c < 128,
        ;
        let next = value | (c << shift);
        let s2 = (shift + 7) as u32;
        assert(s2 < usize::BITS && next < (1usize << s2) && (w << s2) >> s2 == w && next | (w << s2)
            == value | (v << shift)) by (bit_vector)
            requires
                shift < usize::BITS,
                value < (1usize << shift),
                (v << shift) >> shift == v,
                v >= 128,
                c == v % 128,
                w == v / 128,
                next == value | (c << shift),
                s2 == shift + 7,
        ;
        let rest = delta_bytes(w as nat);
        assert(bytes == seq![byte] + rest);
        assert(data.subrange(pos + 1, pos + 1 + rest.len()) =~= rest) by {
            assert forall|j: int| 0 <= j < rest.len() implies data.subrange(pos + 1, pos + 1 + rest.len())[j]
                == rest[j] by {
                assert(data[pos + 1 + j] == data.subrange(pos, pos + bytes.len())[1 + j]);
            }
        }
        lemma_delta_scan_chunks(data, pos + 1, next, s2, w);
    }
}

/// Delta decoding reads back every value that fits in a `usize` from its
/// encoding, wherever the encoding stands and whatever follows it.
pub proof fn lemma_delta_scan_decodes(data: Seq<u8>, pos: int, v: usize)
    requires
        0 <= pos,
        pos + delta_bytes(v as nat).len() <= data.len(),
        data.subrange(pos, pos + delta_bytes(v as nat).len()) == delta_bytes(v as nat),
    ensures
        delta_scan(data, pos, 0, 0) == Ok::<(usize, int), AigerError>((v, pos + delta_bytes(v as nat).len())),
{
    assert(0usize < (1usize << 0u32) && (v << 0u32) >> 0u32 == v && 0usize | (v << 0u32) == v) by (bit_vector);
    lemma_delta_scan_chunks(data, pos, 0, 0, v);
}

/// One step of kind `kind`, the `idx`-th of its phase.
pub open spec fn step(
    data: Seq<u8>,
    s: ParseState,
    idx: nat,
    kind: Step,
    h: AigerHeader,
    pre_optimize: bool,
) -> Result<ParseState, AigerError> {
    match kind {
        Step::AsciiInput => match line_int(data, s.pos) {
            Ok((lit, next)) => add_input_step(s, lit, next),
            Err(e) => Err(e),
        },
        Step::AsciiLatch => match line_ints(data, s.pos, 2) {
            Ok((v, next)) => add_latch_step(s, v[0], v[1], next),
            Err(e) => Err(e),
        },
        Step::Label => match line_int(data, s.pos) {
            Ok((lit, next)) => Ok(ParseState { label_lits: s.label_lits.push(lit as usize), pos: next, ..s }),
            Err(e) => Err(e),
        },
        Step::AsciiAnd => match line_ints(data, s.pos, 3) {
            Ok((v, next)) => add_and_step(s, v[0], v[1], v[2], next, pre_optimize),
            Err(e) => Err(e),
        },
        Step::BinaryInput => {
            let lit = 2 * (idx + 1);
            if lit > usize::MAX {
                Err(AigerError::Malformed)
            } else {
                add_input_step(s, lit, s.pos)
            }
        },
        Step::BinaryLatch => match line_int(data, s.pos) {
            Ok((next_lit, next)) => {
                let lit = 2 * (h.num_inputs + idx + 1);
                if lit > usize::MAX {
                    Err(AigerError::Malformed)
                } else {
                    add_latch_step(s, lit as nat, next_lit, next)
                }
            },
            Err(e) => Err(e),
        },
        Step::BinaryAnd => {
            let lhs = 2 * (h.num_inputs + h.num_latches + idx + 1);
            if lhs > usize::MAX {
                Err(AigerError::Malformed)
            } else {
                match delta_scan(data, s.pos, 0, 0) {
                    Err(e) => Err(e),
                    Ok((delta0, p0)) => match delta_scan(data, p0, 0, 0) {
                        Err(e) => Err(e),
                        Ok((delta1, p1)) => if delta0 > lhs || delta1 > lhs - delta0 {
                            Err(AigerError::Malformed)
                        } else {
                            add_and_step(
                                s,
                                lhs as nat,
                                (lhs - delta0) as nat,
                                (lhs - delta0 - delta1) as nat,
                                p1,
                                pre_optimize,
                            )
                        },
                    },
                }
            }
        },
    }
}

/// `n` steps of kind `kind`, stopping at the first failure.
pub open spec fn run_steps(
    data: Seq<u8>,
    s: ParseState,
    n: nat,
    kind: Step,
    h: AigerHeader,
    pre_optimize: bool,
) -> Result<ParseState, AigerError>
    decreases n,
{
    if n == 0 {
        Ok(s)
    } else {
        match run_steps(data, s, (n - 1) as nat, kind, h, pre_optimize) {
            Ok(t) => step(data, t, (n - 1) as nat, kind, h, pre_optimize),
            Err(e) => Err(e),
        }
    }
}

/// A failed phase stays failed.
pub proof fn lemma_run_steps_err(
    data: Seq<u8>,
    s: ParseState,
    k: nat,
    n: nat,
    kind: Step,
    h: AigerHeader,
    pre_optimize: bool,
)
    requires
        k <= n,
        run_steps(data, s, k, kind, h, pre_optimize) is Err,
    ensures
        run_steps(data, s, n, kind, h, pre_optimize) == run_steps(data, s, k, kind, h, pre_optimize),
    decreases n - k,
{
    if k < n {
        lemma_run_steps_err(data, s, k, (n - 1) as nat, kind, h, pre_optimize);
    }
}

/// Setting the next states of the latches, in order.
pub open spec fn resolve_latches(b: BuilderModel, lits: Seq<NodeId>, latch_inputs: Seq<(NodeId, usize)>) -> Result<
    BuilderModel,
    AigerError,
>
    decreases latch_inputs.len(),
{
    if latch_inputs.len() == 0 {
        Ok(b)
    } else {
        match resolve_latches(b, lits, latch_inputs.drop_last()) {
            Err(e) => Err(e),
            Ok(b2) => {
                let (id, lit) = latch_inputs.last();
                match lits_get(lits, lit as nat) {
                    None => Err(AigerError::Malformed),
                    Some(x) => if id.names_node(b2.graph.nodes.len() as int)
                        && b2.graph.nodes[id.spec_index()].spec_is_latch() {
                        Ok(model_set_latch_input(b2, id, x))
                    } else {
                        Err(AigerError::Malformed)
                    },
                }
            },
        }
    }
}

/// The kind of the `i`-th label: outputs, then bad states, invariant
/// constraints, justice and fairness properties, by the header's counts.
pub open spec fn label_kind(h: AigerHeader, i: int) -> LabelKind {
    if i < h.num_outputs {
        LabelKind::Output
    } else if i < h.num_outputs + h.num_bad_states {
        LabelKind::BadState
    } else if i < h.num_outputs + h.num_bad_states + h.num_invariants {
        LabelKind::Constraints
    } else if i < h.num_outputs + h.num_bad_states + h.num_invariants + h.num_justice {
        LabelKind::Justice
    } else {
        LabelKind::Fairness
    }
}

/// Adding the labels, in order.
pub open spec fn resolve_labels(b: BuilderModel, lits: Seq<NodeId>, label_lits: Seq<usize>, h: AigerHeader) -> Result<
    BuilderModel,
    AigerError,
>
    decreases label_lits.len(),
{
    if label_lits.len() == 0 {
        Ok(b)
    } else {
        match resolve_labels(b, lits, label_lits.drop_last(), h) {
            Err(e) => Err(e),
            Ok(b2) => match lits_get(lits, label_lits.last() as nat) {
                None => Err(AigerError::Malformed),
                Some(x) => Ok(model_add_label(b2, label_kind(h, label_lits.len() - 1), x)),
            },
        }
    }
}

/// The bytes of a line without its line feed.
pub open spec fn line_text(line: Seq<u8>) -> Seq<u8> {
    if line.len() > 0 && line.last() == 10 {
        line.drop_last()
    } else {
        line
    }
}

/// The line that opens the comment section: a lone `c`.
pub open spec fn is_comment_header(line: Seq<u8>) -> bool {
    line_text(line) == seq![99u8]
}

/// A symbol line `<tag><index> <name>`: its kind, index and name bytes.
pub open spec fn symbol_line(line: Seq<u8>) -> Option<(SymbolKind, nat, Seq<u8>)> {
    let text = line_text(line);
    if text.len() == 0 {
        None
    } else {
        match spec_from_tag(text[0]) {
            None => None,
            Some(kind) => {
                let p = digits_end(text, 1);
                match int_at(text, 1) {
                    None => None,
                    Some(index) => if p < text.len() && text[p] == 32 {
                        Some((kind, index, text.subrange(p + 1, text.len() as int)))
                    } else {
                        None
                    },
                }
            },
        }
    }
}

/// The comment section: the rest of the input after the `c` line, without
/// one final line feed.
pub open spec fn comment_bytes(data: Seq<u8>, pos: int) -> Seq<u8> {
    line_text(data.subrange(pos, data.len() as int))
}

/// The symbol entries from `pos` on and the comments, given `count` stored
/// names of `bytes` bytes in total so far.
pub open spec fn symbol_section(data: Seq<u8>, pos: int, count: nat, bytes: nat) -> Result<
    (Seq<(SymbolKind, usize, Seq<char>)>, Seq<char>),
    AigerError,
>
    decreases data.len() - pos,
{
    if pos < 0 || pos >= data.len() {
        Ok((Seq::empty(), Seq::empty()))
    } else {
        let (line, next) = next_line(data, pos);
        if is_comment_header(line) {
            let c = comment_bytes(data, next);
            if valid_utf8(c) {
                Ok((Seq::empty(), decode_utf8(c)))
            } else {
                Err(AigerError::Malformed)
            }
        } else {
            match symbol_line(line) {
                None => Err(AigerError::Malformed),
                Some((kind, index, name)) => {
                    let text = line_text(line);
                    if !int_fits(text, 1) || index >= usize::MAX || !valid_utf8(name) {
                        Err(AigerError::Malformed)
                    } else {
                        let added = if name.len() > 0 { 1nat } else { 0nat };
                        if count + 3 > u32::MAX || bytes + name.len() > u32::MAX {
                            Err(AigerError::Malformed)
                        } else {
                            proof {
                                lemma_until_end_bounds(data, pos, 10);
                            }
                            match symbol_section(data, next, count + added, bytes + name.len()) {
                                Err(e) => Err(e),
                                Ok((entries, comments)) => Ok(
                                    (seq![(kind, index as usize, decode_utf8(name))] + entries, comments),
                                ),
                            }
                        }
                    }
                },
            }
        }
    }
}

/// The result of a parse: the graph, the symbol entries in file order and
/// the comments.
pub struct ParsedAiger {
    pub graph: GraphModel,
    pub symbols: Seq<(SymbolKind, usize, Seq<char>)>,
    pub comments: Seq<char>,
}

/// The initial state of a body parse.
pub open spec fn initial_state(h: AigerHeader, pos: int) -> ParseState {
    ParseState {
        b: crate::graph::model_empty(),
        lits: lits_new(h.max_var as nat),
        latch_inputs: Seq::empty(),
        label_lits: Seq::empty(),
        pos,
    }
}

/// The number of labels that a header announces.
pub open spec fn num_labels(h: AigerHeader) -> int {
    h.num_outputs + h.num_bad_states + h.num_invariants + h.num_justice + h.num_fairness
}

/// The phases after the inputs: latches, labels, AND gates, resolution and,
/// in an ASCII file, the symbol section; a binary file ends with its AND
/// gates, and nothing after them is read.
pub open spec fn body_after_inputs(
    data: Seq<u8>,
    s: ParseState,
    h: AigerHeader,
    pre_optimize: bool,
    ascii: bool,
) -> Result<ParsedAiger, AigerError> {
    let latch_kind = if ascii { Step::AsciiLatch } else { Step::BinaryLatch };
    let and_kind = if ascii { Step::AsciiAnd } else { Step::BinaryAnd };
    match run_steps(data, s, h.num_latches as nat, latch_kind, h, pre_optimize) {
        Err(e) => Err(e),
        Ok(s1) => if num_labels(h) > usize::MAX {
            Err(AigerError::Malformed)
        } else {
            match run_steps(data, s1, num_labels(h) as nat, Step::Label, h, pre_optimize) {
                Err(e) => Err(e),
                Ok(s2) => match run_steps(data, s2, h.num_and_gates as nat, and_kind, h, pre_optimize) {
                    Err(e) => Err(e),
                    Ok(s3) => match resolve_latches(s3.b, s3.lits, s3.latch_inputs) {
                        Err(e) => Err(e),
                        Ok(b4) => match resolve_labels(b4, s3.lits, s3.label_lits, h) {
                            Err(e) => Err(e),
                            Ok(b5) => if !ascii {
                                Ok(ParsedAiger { graph: b5.graph, symbols: Seq::empty(), comments: Seq::empty() })
                            } else {
                                match symbol_section(data, s3.pos, 0, 0) {
                                    Err(e) => Err(e),
                                    Ok((symbols, comments)) => Ok(
                                        ParsedAiger { graph: b5.graph, symbols, comments },
                                    ),
                                }
                            },
                        },
                    },
                },
            }
        },
    }
}

/// Parsing the body of an AIGER file, ASCII or binary, after its header,
/// from `pos`.
pub open spec fn spec_parse_body(data: Seq<u8>, pos: int, h: AigerHeader, pre_optimize: bool, ascii: bool) -> Result<
    ParsedAiger,
    AigerError,
> {
    if h.max_var >= usize::MAX {
        Err(AigerError::Malformed)
    } else {
        let input_kind = if ascii { Step::AsciiInput } else { Step::BinaryInput };
        match run_steps(data, initial_state(h, pos), h.num_inputs as nat, input_kind, h, pre_optimize) {
            Err(e) => Err(e),
            Ok(s) => body_after_inputs(data, s, h, pre_optimize, ascii),
        }
    }
}

/// Parsing a whole AIGER file from `pos`: its header line, then the body
/// in the format that the header names.
pub open spec fn spec_parse(data: Seq<u8>, pos: int, pre_optimize: bool) -> Result<ParsedAiger, AigerError> {
    let (line, next) = next_line(data, pos);
    match crate::aiger::spec_header(line) {
        Err(e) => Err(e),
        Ok(h) => spec_parse_body(data, next, h, pre_optimize, h.is_ascii),
    }
}

/// The names of one symbol list after naming the entries in order (justice
/// names go to the constraint list).
pub open spec fn names_from_entries(entries: Seq<(SymbolKind, usize, Seq<char>)>, k: SymbolKind) -> Seq<
    Option<Seq<char>>,
>
    decreases entries.len(),
{
    if entries.len() == 0 {
        Seq::empty()
    } else {
        let prev = names_from_entries(entries.drop_last(), k);
        let (kind, index, name) = entries.last();
        if SymbolTable::storage_kind(kind) == k {
            set_slot(prev, index as int, name)
        } else {
            prev
        }
    }
}

/// `st` holds exactly the names of `entries`.
pub open spec fn table_holds(st: SymbolTable, entries: Seq<(SymbolKind, usize, Seq<char>)>) -> bool {
    &&& st.wf()
    &&& forall|k: SymbolKind| #[trigger] st.names(k) == names_from_entries(entries, k)
}

} // verus!
