//! AIGER parsing and writing.
//!
//! [`run_parser_with_options`] parses ASCII `.aag` or binary `.aig` input,
//! held in a [`ByteReader`], into an [`AigGraph`], its [`SymbolTable`] and
//! its comment section.

use crate::graph::{NodeId, NODE_ID_MASK};
use vstd::prelude::*;

mod ascii_parser;
mod binary_parser;
pub mod model;
mod serializer;
pub mod order;
pub mod numbering;
pub mod simplified;
pub mod roundtrip;

pub use serializer::{
    write_aiger, write_aiger_with_symbol_table, write_aiger_with_symbol_table_and_comments, write_ascii_aiger,
};

pub use ascii_parser::{parse_ascii_aiger_into_graph, parse_ascii_aiger_into_graph_checked};
pub use binary_parser::{parse_binary_aiger_into_graph, parse_binary_aiger_into_graph_checked};
use binary_parser::read_delta;

use model::{
    lemma_run_steps_err, add_and_step, add_input_step, add_latch_step, delta_scan, line_int, line_ints, lits_add, lits_get,
    lits_new, names_from_entries, spec_parse, spec_parse_body, ParsedAiger, next_line, resolve_labels, symbol_line, symbol_section, table_holds, resolve_latches, run_steps, step, ParseState, Step,
};
use crate::graph::symbols::{SymbolKind, SymbolTable};
use crate::graph::AigGraph;
use crate::text::str_from_utf8;
use vstd::string::StringSliceAdditionalSpecFns;
use vstd::utf8::decode_utf8;
use crate::graph::{
    lemma_index_roundtrip, lemma_pushed_label_keeps_wf, strash_key, AigNode, model_set_latch_input, AigBuilder, BuilderModel, MAX_GRAPH_INDEX};

verus! {

/// The two AIGER formats.
#[derive(Debug, Clone, Copy, PartialEq, Eq, Structural)]
pub enum AigerMode {
    /// ASCII AIGER (`aag`).
    Ascii,
    /// Binary AIGER (`aig`).
    Binary,
}

impl AigerMode {
    pub open spec fn spec_ext(self) -> Seq<char> {
        match self {
            AigerMode::Ascii => "aag"@,
            AigerMode::Binary => "aig"@,
        }
    }

    /// The header tag and file extension of the format.
    pub fn ext(&self) -> (r: &'static str)
        ensures
            r@ == self.spec_ext(),
    {
        match self {
            AigerMode::Ascii => "aag",
            AigerMode::Binary => "aig",
        }
    }
}

/// Why an AIGER input was rejected.
#[derive(Debug, Clone, Copy, PartialEq, Eq, Structural)]
pub enum AigerError {
    /// The input ended inside a binary AND-gate delta.
    UnexpectedEof,
    /// The input breaks the AIGER format: a bad header, a missing or
    /// malformed line, an undefined literal, a number out of range, a
    /// malformed symbol line or text that is not UTF-8.
    Malformed,
}

/// Parsed metadata from an AIGER header line.
#[derive(Debug, Clone, Copy, PartialEq, Eq, Structural)]
pub struct AigerHeader {
    /// `true` for ASCII AIGER (`aag`), `false` for binary AIGER (`aig`).
    pub is_ascii: bool,
    /// Maximum variable index (`M`).
    pub max_var: usize,
    /// Number of primary inputs (`I`).
    pub num_inputs: usize,
    /// Number of latches (`L`).
    pub num_latches: usize,
    /// Number of primary outputs (`O`).
    pub num_outputs: usize,
    /// Number of AND gates (`A`).
    pub num_and_gates: usize,
    /// Number of bad-state properties (`B`, AIGER 1.9).
    pub num_bad_states: usize,
    /// Number of invariant constraints (`C`, AIGER 1.9).
    pub num_invariants: usize,
    /// Number of justice properties (`J`, AIGER 1.9).
    pub num_justice: usize,
    /// Number of fairness constraints (`F`, AIGER 1.9).
    pub num_fairness: usize,
}

impl AigerHeader {
    /// The number of labelled signals: outputs and all properties.
    pub fn num_labels(&self) -> (r: usize)
        requires
            model::num_labels(*self) <= usize::MAX,
        ensures
            r == model::num_labels(*self),
    {
        self.num_outputs + self.num_bad_states + self.num_invariants + self.num_justice + self.num_fairness
    }
}

/// Whether `b` is an ASCII decimal digit.
pub open spec fn is_digit(b: u8) -> bool {
    48 <= b <= 57
}

/// Whether `b` is ASCII whitespace: space, tab, line feed, form feed or
/// carriage return.
pub open spec fn is_space(b: u8) -> bool {
    b == 32 || b == 9 || b == 10 || b == 12 || b == 13
}

fn is_ascii_digit(b: u8) -> (r: bool)
    ensures
        r == is_digit(b),
{
    48u8 <= b && b <= 57u8
}

fn is_ascii_whitespace(b: u8) -> (r: bool)
    ensures
        r == is_space(b),
{
    b == 32u8 || b == 9u8 || b == 10u8 || b == 12u8 || b == 13u8
}

fn is_not_ascii_whitespace(b: u8) -> (r: bool)
    ensures
        r == !is_space(b),
{
    !is_ascii_whitespace(b)
}

/// The position just after the first `delim` at or after `pos`, or the end
/// of the data where there is none.
pub open spec fn until_end(data: Seq<u8>, pos: int, delim: u8) -> int
    decreases data.len() - pos,
{
    if pos >= data.len() {
        data.len() as int
    } else if data[pos] == delim {
        pos + 1
    } else {
        until_end(data, pos + 1, delim)
    }
}

pub proof fn lemma_until_end_bounds(data: Seq<u8>, pos: int, delim: u8)
    requires
        0 <= pos < data.len(),
    ensures
        pos < until_end(data, pos, delim) <= data.len(),
    decreases data.len() - pos,
{
    if data[pos] != delim {
        if pos + 1 < data.len() {
            lemma_until_end_bounds(data, pos + 1, delim);
        } else {
            assert(until_end(data, pos + 1, delim) == data.len());
        }
    }
}

/// Byte input held in memory, read from front to back.
pub struct ByteReader {
    pub data: Vec<u8>,
    pub pos: usize,
}

impl ByteReader {
    pub open spec fn wf(&self) -> bool {
        self.pos <= self.data.len()
    }

    /// A reader positioned at the start of `data`.
    pub fn new(data: Vec<u8>) -> (r: ByteReader)
        ensures
            r.data@ == data@,
            r.pos == 0,
            r.wf(),
    {
        ByteReader { data, pos: 0 }
    }

    /// Append the bytes up to and including the next `delim` (or to the end
    /// of the data) to `buf`, and return how many were appended.
    pub fn read_until(&mut self, delim: u8, buf: &mut Vec<u8>) -> (r: usize)
        requires
            old(self).wf(),
        ensures
            final(self).wf(),
            final(self).data@ == old(self).data@,
            final(self).pos == until_end(old(self).data@, old(self).pos as int, delim),
            final(buf)@ == old(buf)@ + old(self).data@.subrange(old(self).pos as int, final(self).pos as int),
            r == final(self).pos - old(self).pos,
    {
        let start = self.pos;
        let ghost buf0 = buf@;
        let ghost data0 = self.data@;
        while self.pos < self.data.len()
            invariant_except_break
                self.wf(),
                self.data@ == data0,
                start <= self.pos,
                until_end(self.data@, start as int, delim) == until_end(self.data@, self.pos as int, delim),
                buf@ == buf0 + self.data@.subrange(start as int, self.pos as int),
            ensures
                self.wf(),
                self.data@ == data0,
                start <= self.pos,
                self.pos == until_end(self.data@, start as int, delim),
                buf@ == buf0 + self.data@.subrange(start as int, self.pos as int),
            decreases self.data.len() - self.pos,
        {
            let b = self.data[self.pos];
            buf.push(b);
            self.pos = self.pos + 1;
            assert(self.data@.subrange(start as int, self.pos as int) == self.data@.subrange(
                start as int,
                self.pos - 1,
            ).push(b));
            if b == delim {
                break;
            }
        }
        self.pos - start
    }

    /// Read one byte, or `None` at the end of the data.
    pub fn read_byte(&mut self) -> (r: Option<u8>)
        requires
            old(self).wf(),
        ensures
            final(self).wf(),
            final(self).data@ == old(self).data@,
            old(self).pos < old(self).data.len() ==> r == Some(old(self).data@[old(self).pos as int])
                && final(self).pos == old(self).pos + 1,
            old(self).pos >= old(self).data.len() ==> r is None && final(self).pos == old(self).pos,
    {
        if self.pos < self.data.len() {
            let b = self.data[self.pos];
            self.pos = self.pos + 1;
            Some(b)
        } else {
            None
        }
    }
}

/// The first position at or after `pos` whose byte is not a digit.
pub open spec fn digits_end(buf: Seq<u8>, pos: int) -> int
    decreases buf.len() - pos,
{
    if 0 <= pos < buf.len() && is_digit(buf[pos]) {
        digits_end(buf, pos + 1)
    } else {
        pos
    }
}

/// The first position at or after `pos` whose byte is not whitespace.
pub open spec fn spaces_end(buf: Seq<u8>, pos: int) -> int
    decreases buf.len() - pos,
{
    if 0 <= pos < buf.len() && is_space(buf[pos]) {
        spaces_end(buf, pos + 1)
    } else {
        pos
    }
}

/// The first position at or after `pos` whose byte is whitespace.
pub open spec fn word_end(buf: Seq<u8>, pos: int) -> int
    decreases buf.len() - pos,
{
    if 0 <= pos < buf.len() && !is_space(buf[pos]) {
        word_end(buf, pos + 1)
    } else {
        pos
    }
}

/// The number written by the decimal digits `buf[a..b]`.
pub open spec fn digits_value(buf: Seq<u8>, a: int, b: int) -> nat
    decreases b - a,
{
    if b <= a {
        0
    } else {
        digits_value(buf, a, b - 1) * 10 + (buf[b - 1] - 48) as nat
    }
}

/// The integer at `pos`, if digits start there.
pub open spec fn int_at(buf: Seq<u8>, pos: int) -> Option<nat> {
    if digits_end(buf, pos) == pos {
        None
    } else {
        Some(digits_value(buf, pos, digits_end(buf, pos)))
    }
}

/// The integer at `pos`, if any, fits in a `usize`.
pub open spec fn int_fits(buf: Seq<u8>, pos: int) -> bool {
    digits_value(buf, pos, digits_end(buf, pos)) <= usize::MAX
}

/// Scanning `k` whitespace-separated integers from `pos`: the integers
/// found (`None` where digits were missing), the position after them, and
/// whether all of them fit in a `usize`.
pub open spec fn ints_scan(buf: Seq<u8>, pos: int, k: nat) -> (Seq<Option<nat>>, int, bool)
    decreases k,
{
    if k == 0 {
        (Seq::empty(), pos, true)
    } else {
        let (found, p, fits) = ints_scan(buf, pos, (k - 1) as nat);
        let q = spaces_end(buf, p);
        (found.push(int_at(buf, q)), digits_end(buf, q), fits && int_fits(buf, q))
    }
}

/// The integers of a complete scan, where every one was present.
pub open spec fn all_found(found: Seq<Option<nat>>) -> bool {
    forall|i: int| 0 <= i < found.len() ==> (#[trigger] found[i]) is Some
}

proof fn lemma_digits_end_bounds(buf: Seq<u8>, pos: int)
    requires
        0 <= pos <= buf.len(),
    ensures
        pos <= digits_end(buf, pos) <= buf.len(),
        forall|j: int| pos <= j < digits_end(buf, pos) ==> is_digit(#[trigger] buf[j]),
    decreases buf.len() - pos,
{
    if pos < buf.len() && is_digit(buf[pos]) {
        lemma_digits_end_bounds(buf, pos + 1);
    }
}

proof fn lemma_spaces_end_bounds(buf: Seq<u8>, pos: int)
    requires
        0 <= pos <= buf.len(),
    ensures
        pos <= spaces_end(buf, pos) <= buf.len(),
    decreases buf.len() - pos,
{
    if pos < buf.len() && is_space(buf[pos]) {
        lemma_spaces_end_bounds(buf, pos + 1);
    }
}

proof fn lemma_word_end_bounds(buf: Seq<u8>, pos: int)
    requires
        0 <= pos <= buf.len(),
    ensures
        pos <= word_end(buf, pos) <= buf.len(),
    decreases buf.len() - pos,
{
    if pos < buf.len() && !is_space(buf[pos]) {
        lemma_word_end_bounds(buf, pos + 1);
    }
}

/// The value of a digit prefix never exceeds the value of a longer one.
proof fn lemma_digits_value_monotone(buf: Seq<u8>, a: int, b: int, c: int)
    requires
        a <= b <= c,
        forall|j: int| a <= j < c ==> is_digit(#[trigger] buf[j]),
    ensures
        digits_value(buf, a, b) <= digits_value(buf, a, c),
    decreases c - b,
{
    if b < c {
        lemma_digits_value_monotone(buf, a, b, c - 1);
        assert(is_digit(buf[c - 1]));
    }
}

/// A low-level parser for integers and words in a single ASCII line.
pub struct LineParser {
    /// The line buffer being parsed.
    pub buf: Vec<u8>,
    /// The current byte position in `buf`.
    pub pos: usize,
}

impl LineParser {
    pub open spec fn wf(&self) -> bool {
        self.pos <= self.buf.len()
    }

    /// Create a parser from an existing line buffer.
    pub fn new(buf: Vec<u8>) -> (r: LineParser)
        ensures
            r.buf@ == buf@,
            r.pos == 0,
            r.wf(),
    {
        LineParser { buf, pos: 0 }
    }

    /// Empty the line buffer.
    pub fn clear(&mut self)
        ensures
            final(self).buf@ == Seq::<u8>::empty(),
            final(self).pos == 0,
    {
        self.buf.clear();
        self.pos = 0;
    }

    /// All the data remaining in the line buffer.
    pub fn rest(&self) -> (r: &[u8])
        requires
            self.wf(),
        ensures
            r@ == self.buf@.subrange(self.pos as int, self.buf.len() as int),
    {
        &self.buf.as_slice()[self.pos..self.buf.len()]
    }

    /// Read the next line (with its line feed, if any) into the buffer and
    /// return whether the input was at its end.
    pub fn read_line(&mut self, reader: &mut ByteReader) -> (r: bool)
        requires
            old(reader).wf(),
        ensures
            final(reader).wf(),
            final(reader).data@ == old(reader).data@,
            final(reader).pos == until_end(old(reader).data@, old(reader).pos as int, 10),
            final(self).buf@ == old(reader).data@.subrange(old(reader).pos as int, final(reader).pos as int),
            final(self).pos == 0,
            r == (final(self).buf.len() == 0),
    {
        self.clear();
        reader.read_until(10u8, &mut self.buf);
        self.buf.len() == 0
    }

    fn peek(&self) -> (r: Option<u8>)
        requires
            self.wf(),
        ensures
            r == (if self.pos < self.buf.len() {
                Some(self.buf@[self.pos as int])
            } else {
                None::<u8>
            }),
    {
        if self.pos < self.buf.len() {
            Some(self.buf[self.pos])
        } else {
            None
        }
    }

    fn skip(&mut self)
        requires
            old(self).pos < old(self).buf.len(),
        ensures
            final(self).buf@ == old(self).buf@,
            final(self).pos == old(self).pos + 1,
    {
        self.pos = self.pos + 1;
    }

    /// Consume the next byte if `pred` holds of it.
    fn pop_if<F: Fn(u8) -> bool>(&mut self, pred: F) -> (r: Option<u8>)
        requires
            old(self).wf(),
            forall|b: u8| pred.requires((b,)),
        ensures
            final(self).wf(),
            final(self).buf@ == old(self).buf@,
            match r {
                Some(b) => old(self).pos < old(self).buf.len() && b == old(self).buf@[old(self).pos as int]
                    && pred.ensures((b,), true) && final(self).pos == old(self).pos + 1,
                None => final(self).pos == old(self).pos && (old(self).pos >= old(self).buf.len()
                    || pred.ensures((old(self).buf@[old(self).pos as int],), false)),
            },
    {
        if let Some(byte) = self.peek() {
            if pred(byte) {
                self.skip();
                return Some(byte);
            }
        }
        None
    }

    /// Consume an ASCII integer at the current position; fail where its
    /// value does not fit in a `usize` (the parser then stands after some
    /// of its digits).
    pub fn parse_int_checked(&mut self) -> (r: Result<Option<usize>, ()>)
        requires
            old(self).wf(),
        ensures
            final(self).wf(),
            final(self).buf@ == old(self).buf@,
            r is Ok <==> int_fits(old(self).buf@, old(self).pos as int),
            r is Ok ==> final(self).pos == digits_end(old(self).buf@, old(self).pos as int),
            r matches Ok(v) ==> match int_at(old(self).buf@, old(self).pos as int) {
                Some(n) => v == Some(n as usize),
                None => v is None,
            },
    {
        let ghost buf = self.buf@;
        let ghost start = self.pos as int;
        proof {
            lemma_digits_end_bounds(buf, start);
        }
        let mut out: Option<usize> = None;
        loop
            invariant
                self.wf(),
                self.buf@ == buf,
                buf == old(self).buf@,
                start == old(self).pos,
                start <= self.pos <= digits_end(buf, start),
                digits_end(buf, self.pos as int) == digits_end(buf, start),
                forall|j: int| start <= j < digits_end(buf, start) ==> is_digit(#[trigger] buf[j]),
                out == (if self.pos == start {
                    None::<usize>
                } else {
                    Some(digits_value(buf, start, self.pos as int) as usize)
                }),
                self.pos > start ==> digits_value(buf, start, self.pos as int) <= usize::MAX,
            decreases buf.len() - self.pos,
        {
            let ghost p = self.pos as int;
            match self.pop_if(is_ascii_digit) {
                Some(byte) => {
                    proof {
                        lemma_digits_end_bounds(buf, p + 1);
                    }
                    let value = (byte - 48u8) as usize;
                    assert(digits_value(buf, start, p + 1) == digits_value(buf, start, p) * 10 + value);
                    match out {
                        Some(old_value) => {
                            if old_value > (usize::MAX - value) / 10 {
                                assert(old_value * 10 + value > usize::MAX) by (nonlinear_arith)
                                    requires
                                        old_value > (usize::MAX - value) / 10,
                                        value <= 9,
                                ;
                                proof {
                                    lemma_digits_value_monotone(buf, start, p + 1, digits_end(buf, start));
                                }
                                return Err(());
                            }
                            out = Some(old_value * 10 + value);
                        },
                        None => {
                            out = Some(value);
                        },
                    }
                },
                None => {
                    assert(self.pos == digits_end(buf, start));
                    return Ok(out);
                },
            }
        }
    }

    /// Consume an ASCII integer at the current position.
    pub fn parse_int(&mut self) -> (r: Option<usize>)
        requires
            old(self).wf(),
            int_fits(old(self).buf@, old(self).pos as int),
        ensures
            final(self).wf(),
            final(self).buf@ == old(self).buf@,
            final(self).pos == digits_end(old(self).buf@, old(self).pos as int),
            match int_at(old(self).buf@, old(self).pos as int) {
                Some(n) => r == Some(n as usize),
                None => r is None,
            },
    {
        match self.parse_int_checked() {
            Ok(v) => v,
            Err(_) => None,
        }
    }

    /// Advance past a sequence of ASCII whitespace.
    pub fn skip_whitespace(&mut self)
        requires
            old(self).wf(),
        ensures
            final(self).wf(),
            final(self).buf@ == old(self).buf@,
            final(self).pos == spaces_end(old(self).buf@, old(self).pos as int),
    {
        let ghost buf = self.buf@;
        let ghost start = self.pos as int;
        proof {
            lemma_spaces_end_bounds(buf, start);
        }
        loop
            invariant_except_break
                self.wf(),
                self.buf@ == buf,
                spaces_end(buf, self.pos as int) == spaces_end(buf, start),
            ensures
                self.wf(),
                self.buf@ == buf,
                self.pos == spaces_end(buf, start),
            decreases buf.len() - self.pos,
        {
            match self.pop_if(is_ascii_whitespace) {
                Some(_) => {},
                None => {
                    break;
                },
            }
        }
    }

    /// Consume `N` whitespace-separated integers; fail where one does not
    /// fit in a `usize`.
    pub fn parse_ints_checked<const N: usize>(&mut self) -> (r: Result<Option<[usize; N]>, ()>)
        requires
            old(self).wf(),
        ensures
            final(self).wf(),
            final(self).buf@ == old(self).buf@,
            ({
                let (found, p, fits) = ints_scan(old(self).buf@, old(self).pos as int, N as nat);
                &&& r is Ok <==> fits
                &&& r is Ok ==> final(self).pos == p
                &&& r matches Ok(v) ==> match v {
                    Some(a) => all_found(found) && forall|i: int| 0 <= i < N ==> a@[i] == found[i]->0,
                    None => !all_found(found),
                }
            }),
    {
        let ghost buf = self.buf@;
        let ghost start = self.pos as int;
        let mut failed = false;
        let mut arr = [0usize; N];
        let mut i: usize = 0;
        while i < N
            invariant
                self.wf(),
                self.buf@ == buf,
                buf == old(self).buf@,
                start == old(self).pos,
                i <= N,
                arr@.len() == N,
                ({
                    let (found, p, fits) = ints_scan(buf, start, i as nat);
                    &&& fits
                    &&& self.pos == p
                    &&& failed == !all_found(found)
                    &&& forall|j: int| 0 <= j < i && (#[trigger] found[j]) is Some ==> arr@[j] == found[j]->0
                }),
            decreases N - i,
        {
            let ghost (found, p, fits) = ints_scan(buf, start, i as nat);
            self.skip_whitespace();
            let q = self.pos;
            match self.parse_int_checked() {
                Ok(Some(v)) => {
                    arr[i] = v;
                },
                Ok(None) => {
                    failed = true;
                },
                Err(_) => {
                    proof {
                        assert(q == spaces_end(buf, p));
                        assert(!ints_scan(buf, start, (i + 1) as nat).2);
                        lemma_ints_scan_unfits(buf, start, (i + 1) as nat, N as nat);
                    }
                    return Err(());
                },
            }
            i = i + 1;
            proof {
                let (found2, p2, fits2) = ints_scan(buf, start, i as nat);
                lemma_ints_scan_len(buf, start, (i - 1) as nat);
                assert(found2 == found.push(int_at(buf, q as int)));
                assert(all_found(found2) <==> all_found(found) && int_at(buf, q as int) is Some) by {
                    if all_found(found) && int_at(buf, q as int) is Some {
                        assert forall|j: int| 0 <= j < found2.len() implies (#[trigger] found2[j]) is Some by {
                            if j < found.len() {
                                assert(found2[j] == found[j]);
                            }
                        }
                    }
                    if all_found(found2) {
                        assert forall|j: int| 0 <= j < found.len() implies (#[trigger] found[j]) is Some by {
                            assert(found2[j] == found[j]);
                        }
                        assert(found2[found.len() as int] is Some);
                    }
                }
                assert forall|j: int| 0 <= j < i && (#[trigger] found2[j]) is Some implies arr@[j]
                    == found2[j]->0 by {
                    if j < i - 1 {
                        assert(found2[j] == found[j]);
                    }
                }
            }
        }
        proof {
            let (found, p, fits) = ints_scan(buf, start, N as nat);
            assert(found.len() == N) by {
                lemma_ints_scan_len(buf, start, N as nat);
            }
        }
        if failed {
            Ok(None)
        } else {
            Ok(Some(arr))
        }
    }

    /// Consume `N` whitespace-separated integers.
    pub fn parse_ints<const N: usize>(&mut self) -> (r: Option<[usize; N]>)
        requires
            old(self).wf(),
            ints_scan(old(self).buf@, old(self).pos as int, N as nat).2,
        ensures
            final(self).wf(),
            final(self).buf@ == old(self).buf@,
            ({
                let (found, p, fits) = ints_scan(old(self).buf@, old(self).pos as int, N as nat);
                &&& final(self).pos == p
                &&& match r {
                    Some(a) => all_found(found) && forall|i: int| 0 <= i < N ==> a@[i] == found[i]->0,
                    None => !all_found(found),
                }
            }),
    {
        match self.parse_ints_checked() {
            Ok(v) => v,
            Err(_) => None,
        }
    }

    /// Consume a sequence of non-whitespace bytes.
    pub fn parse_word(&mut self) -> (r: &[u8])
        requires
            old(self).wf(),
        ensures
            final(self).wf(),
            final(self).buf@ == old(self).buf@,
            final(self).pos == word_end(old(self).buf@, old(self).pos as int),
            r@ == old(self).buf@.subrange(old(self).pos as int, final(self).pos as int),
    {
        let ghost buf = self.buf@;
        let start_pos = self.pos;
        proof {
            lemma_word_end_bounds(buf, start_pos as int);
        }
        loop
            invariant_except_break
                self.wf(),
                self.buf@ == buf,
                start_pos <= self.pos,
                word_end(buf, self.pos as int) == word_end(buf, start_pos as int),
            ensures
                self.wf(),
                self.buf@ == buf,
                start_pos <= self.pos,
                self.pos == word_end(buf, start_pos as int),
            decreases buf.len() - self.pos,
        {
            match self.pop_if(is_not_ascii_whitespace) {
                Some(_) => {},
                None => {
                    break;
                },
            }
        }
        &self.buf.as_slice()[start_pos..self.pos]
    }
}

proof fn lemma_ints_scan_len(buf: Seq<u8>, pos: int, k: nat)
    ensures
        ints_scan(buf, pos, k).0.len() == k,
    decreases k,
{
    if k > 0 {
        lemma_ints_scan_len(buf, pos, (k - 1) as nat);
    }
}

/// Once an integer of a scan does not fit, no longer scan fits.
proof fn lemma_ints_scan_unfits(buf: Seq<u8>, pos: int, k: nat, m: nat)
    requires
        k <= m,
        !ints_scan(buf, pos, k).2,
    ensures
        !ints_scan(buf, pos, m).2,
    decreases m - k,
{
    if k < m {
        lemma_ints_scan_unfits(buf, pos, k, (m - 1) as nat);
    }
}


pub open spec fn is_aag(tag: Seq<u8>) -> bool {
    tag == seq![97u8, 97u8, 103u8]
}

pub open spec fn is_aig(tag: Seq<u8>) -> bool {
    tag == seq![97u8, 105u8, 103u8]
}

/// An optional header field at `pos`: its value (0 where absent), the
/// position after it and the whitespace that follows, and whether it fits.
pub open spec fn opt_field(line: Seq<u8>, pos: int) -> (nat, int, bool) {
    let v = match int_at(line, pos) {
        Some(n) => n,
        None => 0,
    };
    (v, spaces_end(line, digits_end(line, pos)), int_fits(line, pos))
}

/// The header that a header line states: `aag` or `aig`, the five counts
/// `M I L O A`, up to four optional counts `B C J F`, nothing else; `M` at
/// least `I + L + A`, and equal to it in binary files.
pub open spec fn spec_header(line: Seq<u8>) -> Result<AigerHeader, AigerError> {
    let w = word_end(line, 0);
    let tag = line.subrange(0, w);
    let (found, p, fits) = ints_scan(line, w, 5);
    let p1 = spaces_end(line, p);
    let (b, p2, f1) = opt_field(line, p1);
    let (c, p3, f2) = opt_field(line, p2);
    let (j, p4, f3) = opt_field(line, p3);
    let (f, p5, f4) = opt_field(line, p4);
    if !is_aag(tag) && !is_aig(tag) {
        Err(AigerError::Malformed)
    } else if !fits || !all_found(found) {
        Err(AigerError::Malformed)
    } else if !(f1 && f2 && f3 && f4) || p5 != line.len() {
        Err(AigerError::Malformed)
    } else {
        let m = found[0]->0;
        let i = found[1]->0;
        let l = found[2]->0;
        let o = found[3]->0;
        let a = found[4]->0;
        if i + l + a > usize::MAX || m < i + l + a || (m != i + l + a && !is_aag(tag)) {
            Err(AigerError::Malformed)
        } else {
            Ok(
                AigerHeader {
                    is_ascii: is_aag(tag),
                    max_var: m as usize,
                    num_inputs: i as usize,
                    num_latches: l as usize,
                    num_outputs: o as usize,
                    num_and_gates: a as usize,
                    num_bad_states: b as usize,
                    num_invariants: c as usize,
                    num_justice: j as usize,
                    num_fairness: f as usize,
                },
            )
        }
    }
}

/// Parse an optional header field, which defaults to zero.
fn parse_optional_field(parser: &mut LineParser) -> (r: Result<usize, ()>)
    requires
        old(parser).wf(),
    ensures
        final(parser).wf(),
        final(parser).buf@ == old(parser).buf@,
        ({
            let (v, p, fits) = opt_field(old(parser).buf@, old(parser).pos as int);
            &&& r is Ok <==> fits
            &&& r matches Ok(x) ==> x == v && final(parser).pos == p
        }),
{
    let val = match parser.parse_int_checked() {
        Ok(Some(v)) => v,
        Ok(None) => 0,
        Err(_) => {
            return Err(());
        },
    };
    parser.skip_whitespace();
    Ok(val)
}

fn is_tag(word: &[u8], c1: u8, c2: u8, c3: u8) -> (r: bool)
    ensures
        r == (word@ == seq![c1, c2, c3]),
{
    if word.len() == 3 && word[0] == c1 && word[1] == c2 && word[2] == c3 {
        assert(word@ =~= seq![c1, c2, c3]);
        true
    } else {
        false
    }
}

/// Read the header line and check it, rejecting a malformed one.
pub fn verify_aiger_header_checked(reader: &mut ByteReader) -> (r: Result<AigerHeader, AigerError>)
    requires
        old(reader).wf(),
    ensures
        final(reader).wf(),
        final(reader).data@ == old(reader).data@,
        final(reader).pos == next_line(old(reader).data@, old(reader).pos as int).1,
        r == spec_header(next_line(old(reader).data@, old(reader).pos as int).0),
{
    let mut parser = LineParser::new(Vec::new());
    parser.read_line(reader);
    let ghost line = parser.buf@;
    proof {
        lemma_word_end_bounds(line, 0);
    }
    let tag = parser.parse_word();
    let is_ascii = is_tag(tag, 97u8, 97u8, 103u8);
    let is_binary = is_tag(tag, 97u8, 105u8, 103u8);
    if !is_ascii && !is_binary {
        return Err(AigerError::Malformed);
    }
    let fields: [usize; 5] = match parser.parse_ints_checked() {
        Ok(Some(v)) => v,
        _ => {
            return Err(AigerError::Malformed);
        },
    };
    parser.skip_whitespace();
    let num_bad_states = match parse_optional_field(&mut parser) {
        Ok(v) => v,
        Err(_) => {
            return Err(AigerError::Malformed);
        },
    };
    let num_invariants = match parse_optional_field(&mut parser) {
        Ok(v) => v,
        Err(_) => {
            return Err(AigerError::Malformed);
        },
    };
    let num_justice = match parse_optional_field(&mut parser) {
        Ok(v) => v,
        Err(_) => {
            return Err(AigerError::Malformed);
        },
    };
    let num_fairness = match parse_optional_field(&mut parser) {
        Ok(v) => v,
        Err(_) => {
            return Err(AigerError::Malformed);
        },
    };
    if parser.rest().len() != 0 {
        return Err(AigerError::Malformed);
    }
    let max_var = fields[0];
    let num_inputs = fields[1];
    let num_latches = fields[2];
    let num_outputs = fields[3];
    let num_and_gates = fields[4];
    if num_inputs > usize::MAX - num_latches || num_inputs + num_latches > usize::MAX - num_and_gates {
        return Err(AigerError::Malformed);
    }
    let expected_max_var: usize = num_inputs + num_latches + num_and_gates;
    if max_var < expected_max_var {
        return Err(AigerError::Malformed);
    }
    if max_var != expected_max_var && !is_ascii {
        return Err(AigerError::Malformed);
    }
    Ok(
        AigerHeader {
            is_ascii,
            max_var,
            num_inputs,
            num_latches,
            num_outputs,
            num_and_gates,
            num_bad_states,
            num_invariants,
            num_justice,
            num_fairness,
        },
    )
}

/// Read and validate an AIGER header line.
///
/// Consumes only the header line; the line must be a valid header.
pub fn verify_aiger_header(reader: &mut ByteReader) -> (r: AigerHeader)
    requires
        old(reader).wf(),
        spec_header(next_line(old(reader).data@, old(reader).pos as int).0) is Ok,
    ensures
        final(reader).wf(),
        final(reader).data@ == old(reader).data@,
        final(reader).pos == next_line(old(reader).data@, old(reader).pos as int).1,
        Ok::<AigerHeader, AigerError>(r) == spec_header(next_line(old(reader).data@, old(reader).pos as int).0),
{
    match verify_aiger_header_checked(reader) {
        Ok(h) => h,
        Err(_) => AigerHeader {
            is_ascii: true,
            max_var: 0,
            num_inputs: 0,
            num_latches: 0,
            num_outputs: 0,
            num_and_gates: 0,
            num_bad_states: 0,
            num_invariants: 0,
            num_justice: 0,
            num_fairness: 0,
        },
    }
}


/// A mapping from AIGER literals to `NodeId`s: one entry per variable,
/// covering both polarities.
struct Literals(Vec<NodeId>);

impl Literals {
    fn new(max_var: usize) -> (r: Literals)
        requires
            max_var < usize::MAX,
        ensures
            r.0@ == lits_new(max_var as nat),
    {
        let mut map: Vec<NodeId> = Vec::new();
        map.push(NodeId::false_id());
        while map.len() < max_var + 1
            invariant
                max_var < usize::MAX,
                1 <= map.len() <= max_var + 1,
                map@[0] == NodeId(0),
                forall|i: int| 1 <= i < map.len() ==> #[trigger] map@[i] == NodeId(NODE_ID_MASK),
            decreases max_var + 1 - map.len(),
        {
            map.push(NodeId::none());
        }
        assert(map@ =~= lits_new(max_var as nat));
        Literals(map)
    }

    /// Split a literal into its variable index and inversion flag.
    fn split(literal: usize) -> (r: (usize, bool))
        ensures
            r == (literal / 2, literal % 2 == 1),
    {
        (literal / 2, literal % 2 == 1)
    }

    /// Record that `literal` stands for `id`; `false` where the literal's
    /// variable is beyond the map.
    fn add(&mut self, literal: usize, id: NodeId) -> (r: bool)
        ensures
            match lits_add(old(self).0@, literal as nat, id) {
                Some(l) => r && final(self).0@ == l,
                None => !r && final(self).0@ == old(self).0@,
            },
    {
        let (var_idx, inverted) = Self::split(literal);
        if var_idx >= self.0.len() {
            return false;
        }
        let value = if inverted {
            id.invert()
        } else {
            id
        };
        self.0.set(var_idx, value);
        true
    }

    /// The signal of `literal`, where its variable is defined.
    fn get(&self, literal: usize) -> (r: Option<NodeId>)
        ensures
            r == lits_get(self.0@, literal as nat),
    {
        let (var_idx, inverted) = Self::split(literal);
        if var_idx >= self.0.len() {
            return None;
        }
        let node = self.0[var_idx];
        if node == NodeId::none() {
            None
        } else if inverted {
            Some(node.invert())
        } else {
            Some(node)
        }
    }
}

/// Reads lines holding integers from the input.
struct LineReader {
    parser: LineParser,
}

impl LineReader {
    fn new() -> (r: LineReader)
        ensures
            r.parser.wf(),
            r.parser.buf@ == Seq::<u8>::empty(),
            r.parser.pos == 0,
    {
        LineReader { parser: LineParser::new(Vec::new()) }
    }

    /// Read a line holding an integer.
    fn read_int(&mut self, reader: &mut ByteReader) -> (r: Result<usize, AigerError>)
        requires
            old(reader).wf(),
        ensures
            final(reader).wf(),
            final(reader).data@ == old(reader).data@,
            final(self).parser.wf(),
            match line_int(old(reader).data@, old(reader).pos as int) {
                Ok((n, next)) => r == Ok::<usize, AigerError>(n as usize) && final(reader).pos == next,
                Err(e) => r == Err::<usize, AigerError>(e),
            },
    {
        self.parser.read_line(reader);
        match self.parser.parse_int_checked() {
            Ok(Some(n)) => Ok(n),
            _ => Err(AigerError::Malformed),
        }
    }

    /// Read a line holding `N` integers.
    fn read_ints<const N: usize>(&mut self, reader: &mut ByteReader) -> (r: Result<[usize; N], AigerError>)
        requires
            old(reader).wf(),
        ensures
            final(reader).wf(),
            final(reader).data@ == old(reader).data@,
            final(self).parser.wf(),
            match line_ints(old(reader).data@, old(reader).pos as int, N as nat) {
                Ok((v, next)) => r matches Ok(a) && final(reader).pos == next && forall|i: int|
                    0 <= i < N ==> a@[i] == v[i],
                Err(e) => r == Err::<[usize; N], AigerError>(e),
            },
    {
        self.parser.read_line(reader);
        proof {
            lemma_ints_scan_len(self.parser.buf@, 0, N as nat);
        }
        match self.parser.parse_ints_checked() {
            Ok(Some(a)) => Ok(a),
            _ => Err(AigerError::Malformed),
        }
    }
}

/// The executable state of a parse.
struct ParserState {
    builder: AigBuilder,
    literals: Literals,
    latch_inputs: Vec<(NodeId, usize)>,
    label_lits: Vec<usize>,
    line_reader: LineReader,
}

impl ParserState {
    fn new(max_var: usize) -> (r: ParserState)
        requires
            max_var < usize::MAX,
        ensures
            r.line_reader.parser.wf(),
            r.inv(),
            r.model(0) == (ParseState {
                b: crate::graph::model_empty(),
                lits: lits_new(max_var as nat),
                latch_inputs: Seq::empty(),
                label_lits: Seq::empty(),
                pos: 0,
            }),
    {
        let r = ParserState {
            builder: AigBuilder::new(),
            literals: Literals::new(max_var),
            latch_inputs: Vec::new(),
            label_lits: Vec::new(),
            line_reader: LineReader::new(),
        };
        assert(lits_closed(r.literals.0@, 0));
        r
    }

    /// One step of a phase, the `idx`-th.
    fn step(&mut self, reader: &mut ByteReader, idx: usize, kind: Step, h: &AigerHeader, pre_optimize: bool) -> (r:
        Result<(), AigerError>)
        requires
            old(reader).wf(),
            old(self).line_reader.parser.wf(),
            old(self).inv(),
        ensures
            final(reader).wf(),
            final(reader).data@ == old(reader).data@,
            final(self).line_reader.parser.wf(),
            r is Ok ==> final(self).inv(),
            match step(old(reader).data@, old(self).model(old(reader).pos as int), idx as nat, kind, *h, pre_optimize) {
                Ok(t) => r is Ok && final(self).model(final(reader).pos as int) == t,
                Err(e) => r == Err::<(), AigerError>(e),
            },
    {
        match kind {
            Step::AsciiInput => {
                let lit = self.line_reader.read_int(reader)?;
                self.add_input(lit, Ghost(reader.pos as int))
            },
            Step::AsciiLatch => {
                let fields: [usize; 2] = self.line_reader.read_ints(reader)?;
                self.add_latch(fields[0], fields[1], Ghost(reader.pos as int))
            },
            Step::Label => {
                let lit = self.line_reader.read_int(reader)?;
                self.label_lits.push(lit);
                Ok(())
            },
            Step::AsciiAnd => {
                let fields: [usize; 3] = self.line_reader.read_ints(reader)?;
                self.add_and(fields[0], fields[1], fields[2], pre_optimize, Ghost(reader.pos as int))
            },
            Step::BinaryInput => {
                if idx >= usize::MAX / 2 {
                    return Err(AigerError::Malformed);
                }
                let input_lit: usize = 2 * (idx + 1);
                self.add_input(input_lit, Ghost(reader.pos as int))
            },
            Step::BinaryLatch => {
                let latch_input_lit = self.line_reader.read_int(reader)?;
                if h.num_inputs >= usize::MAX / 2 || idx >= usize::MAX / 2 - h.num_inputs {
                    return Err(AigerError::Malformed);
                }
                let latch_lit: usize = 2 * (h.num_inputs + idx + 1);
                self.add_latch(latch_lit, latch_input_lit, Ghost(reader.pos as int))
            },
            Step::BinaryAnd => {
                if h.num_inputs >= usize::MAX / 2 || h.num_latches >= usize::MAX / 2 - h.num_inputs || idx
                    >= usize::MAX / 2 - h.num_inputs - h.num_latches {
                    return Err(AigerError::Malformed);
                }
                let lhs_lit: usize = 2 * (h.num_inputs + h.num_latches + idx + 1);
                let delta0 = read_delta(reader)?;
                let delta1 = read_delta(reader)?;
                if delta0 > lhs_lit || delta1 > lhs_lit - delta0 {
                    return Err(AigerError::Malformed);
                }
                let rhs0_lit: usize = lhs_lit - delta0;
                let rhs1_lit: usize = rhs0_lit - delta1;
                self.add_and(lhs_lit, rhs0_lit, rhs1_lit, pre_optimize, Ghost(reader.pos as int))
            },
        }
    }

    /// `n` steps of a phase.
    fn run_steps(&mut self, reader: &mut ByteReader, n: usize, kind: Step, h: &AigerHeader, pre_optimize: bool) -> (r:
        Result<(), AigerError>)
        requires
            old(reader).wf(),
            old(self).line_reader.parser.wf(),
            old(self).inv(),
        ensures
            final(reader).wf(),
            final(reader).data@ == old(reader).data@,
            final(self).line_reader.parser.wf(),
            r is Ok ==> final(self).inv(),
            match run_steps(old(reader).data@, old(self).model(old(reader).pos as int), n as nat, kind, *h, pre_optimize) {
                Ok(t) => r is Ok && final(self).model(final(reader).pos as int) == t,
                Err(e) => r == Err::<(), AigerError>(e),
            },
    {
        let ghost data = reader.data@;
        let ghost s0 = self.model(reader.pos as int);
        let mut i: usize = 0;
        while i < n
            invariant
                i <= n,
                reader.wf(),
                reader.data@ == data,
                data == old(reader).data@,
                s0 == old(self).model(old(reader).pos as int),
                self.line_reader.parser.wf(),
                self.inv(),
                run_steps(data, s0, i as nat, kind, *h, pre_optimize) == Ok::<ParseState, AigerError>(
                    self.model(reader.pos as int),
                ),
            decreases n - i,
        {
            let r = self.step(reader, i, kind, h, pre_optimize);
            if r.is_err() {
                proof {
                    lemma_run_steps_err(data, s0, (i + 1) as nat, n as nat, kind, *h, pre_optimize);
                }
                return r;
            }
            i = i + 1;
        }
        Ok(())
    }

    /// Set the next states of the latches and add the labels, once all
    /// literals are known.
    fn resolve_labels_and_latches(&mut self, h: &AigerHeader) -> (r: Result<(), AigerError>)
        requires
            model::num_labels(*h) <= usize::MAX,
            old(self).inv(),
        ensures
            r is Ok ==> final(self).builder.wf() && final(self).builder.graph.refs_closed(),
            final(self).literals.0@ == old(self).literals.0@,
            final(self).line_reader == old(self).line_reader,
            match resolve_latches(old(self).builder.model(), old(self).literals.0@, old(self).latch_inputs@) {
                Err(e) => r == Err::<(), AigerError>(e),
                Ok(b4) => match resolve_labels(b4, old(self).literals.0@, old(self).label_lits@, *h) {
                    Ok(b5) => r is Ok && final(self).builder.model() == b5,
                    Err(e) => r == Err::<(), AigerError>(e),
                },
            },
    {
        let ghost b0 = self.builder.model();
        let ghost lits = self.literals.0@;
        let ghost li = self.latch_inputs@;
        let mut i: usize = 0;
        assert(li.take(0) == Seq::<(NodeId, usize)>::empty());
        while i < self.latch_inputs.len()
            invariant
                i <= self.latch_inputs.len(),
                self.latch_inputs@ == li,
                self.literals.0@ == lits,
                self.line_reader == old(self).line_reader,
                self.label_lits == old(self).label_lits,
                b0 == old(self).builder.model(),
                lits == old(self).literals.0@,
                li == old(self).latch_inputs@,
                resolve_latches(b0, lits, li.take(i as int)) == Ok::<BuilderModel, AigerError>(self.builder.model()),
                self.inv(),
            decreases self.latch_inputs.len() - i,
        {
            assert(li.take(i + 1).drop_last() == li.take(i as int));
            let (latch_id, latch_input_lit) = self.latch_inputs[i];
            let latch_input_id = match self.literals.get(latch_input_lit) {
                Some(x) => x,
                None => {
                    proof {
                        lemma_resolve_latches_err(b0, lits, li, i as int + 1);
                    }
                    return Err(AigerError::Malformed);
                },
            };
            let ok = match latch_id.to_index() {
                Ok(index) => index < self.builder.graph.nodes.len() && self.builder.graph.nodes[index].is_latch(),
                Err(_) => false,
            };
            if !ok {
                proof {
                    lemma_resolve_latches_err(b0, lits, li, i as int + 1);
                }
                return Err(AigerError::Malformed);
            }
            let ghost before = self.builder.model();
            let ghost old_builder = self.builder;
            proof {
                lemma_lits_closed_get(lits, self.builder.graph.nodes.len() as int, latch_input_lit as nat);
            }
            self.builder.node(latch_id).set_latch_input(latch_input_id);
            assert(self.builder.model() == model_set_latch_input(before, latch_id, latch_input_id));
            proof {
                lemma_set_latch_keeps_inv(&old_builder, &self.builder, latch_id, latch_input_id);
            }
            i = i + 1;
        }
        assert(li.take(i as int) == li);
        let ghost b4 = self.builder.model();
        let ghost ll = self.label_lits@;
        let mut j: usize = 0;
        assert(ll.take(0) == Seq::<usize>::empty());
        while j < self.label_lits.len()
            invariant
                j <= self.label_lits.len(),
                self.label_lits@ == ll,
                self.literals.0@ == lits,
                self.line_reader == old(self).line_reader,
                model::num_labels(*h) <= usize::MAX,
                ll == old(self).label_lits@,
                lits == old(self).literals.0@,
                resolve_latches(old(self).builder.model(), lits, old(self).latch_inputs@) == Ok::<
                    BuilderModel,
                    AigerError,
                >(b4),
                resolve_labels(b4, lits, ll.take(j as int), *h) == Ok::<BuilderModel, AigerError>(
                    self.builder.model(),
                ),
                self.inv(),
            decreases self.label_lits.len() - j,
        {
            assert(ll.take(j + 1).drop_last() == ll.take(j as int));
            let lit = self.label_lits[j];
            let node = match self.literals.get(lit) {
                Some(x) => x,
                None => {
                    proof {
                        lemma_resolve_labels_err(b4, lits, ll, *h, j as int + 1);
                    }
                    return Err(AigerError::Malformed);
                },
            };
            proof {
                lemma_lits_closed_get(lits, self.builder.graph.nodes.len() as int, lit as nat);
            }
            let ghost old_builder = self.builder;
            let o = h.num_outputs;
            let ob = o + h.num_bad_states;
            let obc = ob + h.num_invariants;
            let obcj = obc + h.num_justice;
            if j < o {
                self.builder.add_output(node);
            } else if j < ob {
                self.builder.add_bad_state(node);
            } else if j < obc {
                self.builder.add_invariant(node);
            } else if j < obcj {
                self.builder.add_justice(node);
            } else {
                self.builder.add_fairness(node);
            }
            proof {
                let kind = model::label_kind(*h, j as int);
                lemma_pushed_label_keeps_wf(&self.builder, &old_builder, kind, node);
            }
            j = j + 1;
        }
        assert(ll.take(j as int) == ll);
        Ok(())
    }

    /// The builder is well-formed with closed references, and every defined
    /// literal stands for a signal of the graph.
    spec fn inv(&self) -> bool {
        &&& self.builder.wf()
        &&& self.builder.graph.refs_closed()
        &&& lits_closed(self.literals.0@, self.builder.graph.nodes.len() as int)
    }

    spec fn model(&self, pos: int) -> ParseState {
        ParseState {
            b: self.builder.model(),
            lits: self.literals.0@,
            latch_inputs: self.latch_inputs@,
            label_lits: self.label_lits@,
            pos,
        }
    }

    fn add_input(&mut self, lit: usize, Ghost(pos): Ghost<int>) -> (r: Result<(), AigerError>)
        requires
            old(self).inv(),
        ensures
            r is Ok ==> final(self).inv(),
            final(self).line_reader == old(self).line_reader,
            match add_input_step(old(self).model(pos), lit as nat, pos) {
                Ok(t) => r is Ok && final(self).model(pos) == t,
                Err(e) => r == Err::<(), AigerError>(e),
            },
    {
        if self.builder.graph.nodes.len() > MAX_GRAPH_INDEX {
            return Err(AigerError::Malformed);
        }
        let ghost n0 = self.builder.graph.nodes.len() as int;
        let id = self.builder.add_input();
        proof {
            lemma_index_roundtrip(n0);
            lemma_lits_closed_grow(self.literals.0@, n0, n0 + 1);
        }
        if !self.literals.add(lit, id) {
            return Err(AigerError::Malformed);
        }
        proof {
            lemma_lits_closed_add(old(self).literals.0@, n0 + 1, lit as nat, id);
        }
        Ok(())
    }

    fn add_latch(&mut self, lit: usize, next_lit: usize, Ghost(pos): Ghost<int>) -> (r: Result<(), AigerError>)
        requires
            old(self).inv(),
        ensures
            r is Ok ==> final(self).inv(),
            final(self).line_reader == old(self).line_reader,
            match add_latch_step(old(self).model(pos), lit as nat, next_lit as nat, pos) {
                Ok(t) => r is Ok && final(self).model(pos) == t,
                Err(e) => r == Err::<(), AigerError>(e),
            },
    {
        if self.builder.graph.nodes.len() > MAX_GRAPH_INDEX {
            return Err(AigerError::Malformed);
        }
        let ghost n0 = self.builder.graph.nodes.len() as int;
        let latch_id = self.builder.add_latch(NodeId::false_id());
        proof {
            lemma_index_roundtrip(n0);
            lemma_lits_closed_grow(self.literals.0@, n0, n0 + 1);
        }
        if !self.literals.add(lit, latch_id) {
            return Err(AigerError::Malformed);
        }
        proof {
            lemma_lits_closed_add(old(self).literals.0@, n0 + 1, lit as nat, latch_id);
        }
        self.latch_inputs.push((latch_id, next_lit));
        Ok(())
    }

    fn add_and(&mut self, lhs: usize, rhs0: usize, rhs1: usize, pre_optimize: bool, Ghost(pos): Ghost<int>) -> (r:
        Result<(), AigerError>)
        requires
            old(self).inv(),
        ensures
            r is Ok ==> final(self).inv(),
            final(self).line_reader == old(self).line_reader,
            match add_and_step(old(self).model(pos), lhs as nat, rhs0 as nat, rhs1 as nat, pos, pre_optimize) {
                Ok(t) => r is Ok && final(self).model(pos) == t,
                Err(e) => r == Err::<(), AigerError>(e),
            },
    {
        let left = match self.literals.get(rhs0) {
            Some(x) => x,
            None => {
                return Err(AigerError::Malformed);
            },
        };
        let right = match self.literals.get(rhs1) {
            Some(x) => x,
            None => {
                return Err(AigerError::Malformed);
            },
        };
        let ghost n0 = self.builder.graph.nodes.len() as int;
        proof {
            lemma_lits_closed_get(self.literals.0@, n0, rhs0 as nat);
            lemma_lits_closed_get(self.literals.0@, n0, rhs1 as nat);
        }
        let and_id = if pre_optimize {
            match self.builder.lookup_and(left, right) {
                Ok(x) => x,
                Err((a, b, key)) => {
                    if self.builder.graph.nodes.len() > MAX_GRAPH_INDEX {
                        return Err(AigerError::Malformed);
                    }
                    self.builder.add_and_optimized(left, right)
                },
            }
        } else {
            if self.builder.graph.nodes.len() > MAX_GRAPH_INDEX {
                return Err(AigerError::Malformed);
            }
            let x = self.builder.add_and_raw(left, right);
            proof {
                lemma_index_roundtrip(n0);
            }
            x
        };
        proof {
            lemma_lits_closed_grow(self.literals.0@, n0, self.builder.graph.nodes.len() as int);
        }
        if !self.literals.add(lhs, and_id) {
            return Err(AigerError::Malformed);
        }
        proof {
            lemma_lits_closed_add(
                old(self).literals.0@,
                self.builder.graph.nodes.len() as int,
                lhs as nat,
                and_id,
            );
        }
        Ok(())
    }
}


/// Every entry of a literal map is undefined or a signal of a graph with
/// `n` nodes.
pub open spec fn lits_closed(lits: Seq<NodeId>, n: int) -> bool {
    forall|v: int| 0 <= v < lits.len() ==> #[trigger] lits[v] == NodeId(NODE_ID_MASK) || lits[v].is_signal_of(n)
}

proof fn lemma_lits_closed_grow(lits: Seq<NodeId>, n: int, m: int)
    requires
        lits_closed(lits, n),
        n <= m,
    ensures
        lits_closed(lits, m),
{
}

proof fn lemma_lits_closed_get(lits: Seq<NodeId>, n: int, lit: nat)
    requires
        lits_closed(lits, n),
        lits_get(lits, lit) is Some,
    ensures
        lits_get(lits, lit)->0.is_signal_of(n),
{
    let v = (lit / 2) as int;
    assert(lits[v] == NodeId(NODE_ID_MASK) || lits[v].is_signal_of(n));
}

proof fn lemma_lits_closed_add(lits: Seq<NodeId>, n: int, lit: nat, id: NodeId)
    requires
        lits_closed(lits, n),
        id.is_signal_of(n),
        lits_add(lits, lit, id) is Some,
    ensures
        lits_closed(lits_add(lits, lit, id)->0, n),
{
    let l2 = lits_add(lits, lit, id)->0;
    assert forall|v: int| 0 <= v < l2.len() implies #[trigger] l2[v] == NodeId(NODE_ID_MASK) || l2[v].is_signal_of(
        n,
    ) by {
        if v != (lit / 2) as int {
            assert(lits[v] == NodeId(NODE_ID_MASK) || lits[v].is_signal_of(n));
        }
    }
}

/// Setting the next state of a latch node to a signal keeps the builder
/// well-formed with closed references.
proof fn lemma_set_latch_keeps_inv(old: &AigBuilder, new: &AigBuilder, id: NodeId, x: NodeId)
    requires
        old.wf(),
        old.graph.refs_closed(),
        id.names_node(old.graph.nodes.len() as int),
        old.graph.nodes@[id.spec_index()].spec_is_latch(),
        x.is_signal_of(old.graph.nodes.len() as int),
        new.graph.nodes@ == old.graph.nodes@.update(
            id.spec_index(),
            AigNode { left: old.graph.nodes@[id.spec_index()].left, right: x },
        ),
        new.graph.inputs == old.graph.inputs,
        new.graph.latches == old.graph.latches,
        new.graph.outputs == old.graph.outputs,
        new.graph.bad_states == old.graph.bad_states,
        new.graph.constraints == old.graph.constraints,
        new.graph.justice == old.graph.justice,
        new.graph.fairness == old.graph.fairness,
        new.and_hash@ == old.and_hash@,
    ensures
        new.wf(),
        new.graph.refs_closed(),
{
    let i = id.spec_index();
    assert forall|k: u64| #[trigger] new.and_hash@.contains_key(k) implies {
        let hid = new.and_hash@[k];
        &&& hid.names_node(new.graph.nodes.len() as int)
        &&& !hid.spec_is_inverted()
        &&& new.graph.nodes@[hid.spec_index()].spec_is_and()
        &&& strash_key(new.graph.nodes@[hid.spec_index()].left, new.graph.nodes@[hid.spec_index()].right) == k
    } by {
        let hid = old.and_hash@[k];
        assert(old.graph.nodes@[hid.spec_index()].spec_is_and());
        assert(hid.spec_index() != i);
    }
}

/// A failure resolving a prefix of the latches is the failure of all.
proof fn lemma_resolve_latches_err(b: BuilderModel, lits: Seq<NodeId>, li: Seq<(NodeId, usize)>, k: int)
    requires
        0 <= k <= li.len(),
        resolve_latches(b, lits, li.take(k)) is Err,
    ensures
        resolve_latches(b, lits, li) == resolve_latches(b, lits, li.take(k)),
    decreases li.len() - k,
{
    if k < li.len() {
        assert(li.take(k + 1).drop_last() == li.take(k));
        lemma_resolve_latches_err(b, lits, li, k + 1);
    } else {
        assert(li.take(k) == li);
    }
}

/// A failure adding a prefix of the labels is the failure of all.
proof fn lemma_resolve_labels_err(b: BuilderModel, lits: Seq<NodeId>, ll: Seq<usize>, h: AigerHeader, k: int)
    requires
        0 <= k <= ll.len(),
        resolve_labels(b, lits, ll.take(k), h) is Err,
    ensures
        resolve_labels(b, lits, ll, h) == resolve_labels(b, lits, ll.take(k), h),
    decreases ll.len() - k,
{
    if k < ll.len() {
        assert(ll.take(k + 1).drop_last() == ll.take(k));
        lemma_resolve_labels_err(b, lits, ll, h, k + 1);
    } else {
        assert(ll.take(k) == ll);
    }
}


/// Prepend entries to a symbol-section result.
pub open spec fn prepend_entries(
    done: Seq<(SymbolKind, usize, Seq<char>)>,
    r: Result<(Seq<(SymbolKind, usize, Seq<char>)>, Seq<char>), AigerError>,
) -> Result<(Seq<(SymbolKind, usize, Seq<char>)>, Seq<char>), AigerError> {
    match r {
        Ok((es, c)) => Ok((done + es, c)),
        Err(e) => Err(e),
    }
}

/// Read the optional symbol table and comment section that end a file.
fn parse_symbol_table_and_comments(line_reader: &mut LineReader, reader: &mut ByteReader) -> (r: Result<
    (SymbolTable, String),
    AigerError,
>)
    requires
        old(reader).wf(),
    ensures
        final(reader).wf(),
        match symbol_section(old(reader).data@, old(reader).pos as int, 0, 0) {
            Ok((entries, comments)) => r matches Ok((st, c)) && table_holds(st, entries) && c@ == comments,
            Err(e) => r is Err && r->Err_0 == e,
        },
{
    let ghost data = reader.data@;
    let ghost pos0 = reader.pos as int;
    let ghost mut done: Seq<(SymbolKind, usize, Seq<char>)> = Seq::empty();
    let mut st = SymbolTable::new();
    assert forall|k: SymbolKind| #[trigger] st.names(k) == names_from_entries(done, k) by {}
    while reader.pos < reader.data.len()
        invariant
            reader.wf(),
            reader.data@ == data,
            data == old(reader).data@,
            pos0 == old(reader).pos,
            st.wf(),
            table_holds(st, done),
            symbol_section(data, pos0, 0, 0) == prepend_entries(
                done,
                symbol_section(data, reader.pos as int, st.strings.ends.len() as nat, st.strings.bytes.len() as nat),
            ),
        decreases data.len() - reader.pos,
    {
        let ghost pos = reader.pos as int;
        let ghost count = st.strings.ends.len() as nat;
        let ghost nbytes = st.strings.bytes.len() as nat;
        proof {
            lemma_until_end_bounds(data, pos, 10);
        }
        line_reader.parser.read_line(reader);
        let ghost line = line_reader.parser.buf@;
        let buf = &mut line_reader.parser.buf;
        let len = buf.len();
        if (len == 1 && buf[0] == 99u8) || (len == 2 && buf[0] == 99u8 && buf[1] == 10u8) {
            assert(model::is_comment_header(line)) by {
                assert(model::line_text(line) =~= seq![99u8]);
            }
            let end = reader.data.len();
            let mut stop = end;
            if stop > reader.pos && reader.data[stop - 1] == 10u8 {
                stop = stop - 1;
            }
            let rest = &reader.data.as_slice()[reader.pos..stop];
            assert(rest@ == model::comment_bytes(data, reader.pos as int));
            return match str_from_utf8(rest) {
                Some(text) => {
                    proof {
                        vstd::utf8::encode_utf8_decode_utf8(text@);
                    }
                    Ok((st, text.to_owned()))
                },
                None => Err(AigerError::Malformed),
            };
        }
        assert(!model::is_comment_header(line)) by {
            if model::is_comment_header(line) {
                assert(model::line_text(line).len() == 1);
            }
        }
        if len > 0 && buf[len - 1] == 10u8 {
            buf.pop();
        }
        let ghost text = line_reader.parser.buf@;
        assert(text == model::line_text(line));
        if line_reader.parser.buf.len() == 0 {
            return Err(AigerError::Malformed);
        }
        let kind = match SymbolKind::from_tag(line_reader.parser.buf[0]) {
            Some(k) => k,
            None => {
                return Err(AigerError::Malformed);
            },
        };
        line_reader.parser.pos = 1;
        let index = match line_reader.parser.parse_int_checked() {
            Ok(Some(i)) => i,
            _ => {
                return Err(AigerError::Malformed);
            },
        };
        let p = line_reader.parser.pos;
        let text_len = line_reader.parser.buf.len();
        if !(p < text_len && line_reader.parser.buf[p] == 32u8) {
            return Err(AigerError::Malformed);
        }
        let name_bytes = &line_reader.parser.buf.as_slice()[p + 1..text_len];
        let name = match str_from_utf8(name_bytes) {
            Some(n) => n,
            None => {
                return Err(AigerError::Malformed);
            },
        };
        proof {
            vstd::utf8::encode_utf8_decode_utf8(name@);
        }
        if index == usize::MAX {
            return Err(AigerError::Malformed);
        }
        if st.strings.ends.len() > 0xFFFF_FFFCusize || name_bytes.len() > 0xFFFF_FFFFusize
            - st.strings.bytes.len() {
            return Err(AigerError::Malformed);
        }
        let ghost entry = (kind, index, name@);
        let ghost before = st;
        st.name_symbol(kind, index, name);
        proof {
            assert(next_line(data, pos) == (line, reader.pos as int));
            assert(symbol_line(line) == Some((kind, index as nat, name_bytes@)));
            assert(decode_utf8(name_bytes@) == name@);
            assert(done.push(entry).drop_last() == done);
            assert forall|k: SymbolKind| #[trigger] st.names(k) == names_from_entries(done.push(entry), k) by {}
            let rest = symbol_section(
                data,
                reader.pos as int,
                st.strings.ends.len() as nat,
                st.strings.bytes.len() as nat,
            );
            assert(symbol_section(data, pos, count, nbytes) == prepend_entries(seq![entry], rest));
            match rest {
                Ok((es, c)) => {
                    assert(done + (seq![entry] + es) == done.push(entry) + es);
                },
                Err(_) => {},
            }
            done = done.push(entry);
        }
    }
    assert(symbol_section(data, reader.pos as int, st.strings.ends.len() as nat, st.strings.bytes.len() as nat)
        == Ok::<(Seq<(SymbolKind, usize, Seq<char>)>, Seq<char>), AigerError>((Seq::empty(), Seq::empty())));
    assert(done + Seq::<(SymbolKind, usize, Seq<char>)>::empty() == done);
    Ok((st, String::new()))
}


/// `r` is what a parse specified by `spec` returns.
pub open spec fn parse_result(
    r: Result<(AigGraph, SymbolTable, String), AigerError>,
    spec: Result<ParsedAiger, AigerError>,
) -> bool {
    match spec {
        Ok(p) => r matches Ok((g, st, c)) && g.model() == p.graph && table_holds(st, p.symbols) && c@
            == p.comments && g.wf() && g.refs_closed(),
        Err(e) => r is Err && r->Err_0 == e,
    }
}

/// Parse the body of an AIGER file after its header: ASCII where `ascii`
/// holds, binary otherwise.
pub(crate) fn parse_body(header: AigerHeader, reader: &mut ByteReader, pre_optimize: bool, ascii: bool) -> (r: Result<
    (AigGraph, SymbolTable, String),
    AigerError,
>)
    requires
        old(reader).wf(),
    ensures
        final(reader).wf(),
        parse_result(r, spec_parse_body(old(reader).data@, old(reader).pos as int, header, pre_optimize, ascii)),
{
    let ghost data = reader.data@;
    let ghost pos0 = reader.pos as int;
    if header.max_var == usize::MAX {
        return Err(AigerError::Malformed);
    }
    let mut state = ParserState::new(header.max_var);
    assert(state.model(pos0) == model::initial_state(header, pos0));
    let input_kind = if ascii {
        Step::AsciiInput
    } else {
        Step::BinaryInput
    };
    state.run_steps(reader, header.num_inputs, input_kind, &header, pre_optimize)?;
    let ghost s0 = state.model(reader.pos as int);
    let latch_kind = if ascii {
        Step::AsciiLatch
    } else {
        Step::BinaryLatch
    };
    state.run_steps(reader, header.num_latches, latch_kind, &header, pre_optimize)?;
    // Outputs and properties are all labels of signals; their literals
    // are resolved once every AND gate is known.
    if header.num_outputs > usize::MAX - header.num_bad_states || header.num_outputs + header.num_bad_states
        > usize::MAX - header.num_invariants || header.num_outputs + header.num_bad_states
        + header.num_invariants > usize::MAX - header.num_justice || header.num_outputs
        + header.num_bad_states + header.num_invariants + header.num_justice > usize::MAX
        - header.num_fairness {
        return Err(AigerError::Malformed);
    }
    let num_labels = header.num_labels();
    state.run_steps(reader, num_labels, Step::Label, &header, pre_optimize)?;
    let and_kind = if ascii {
        Step::AsciiAnd
    } else {
        Step::BinaryAnd
    };
    state.run_steps(reader, header.num_and_gates, and_kind, &header, pre_optimize)?;
    let ghost s3 = state.model(reader.pos as int);
    state.resolve_labels_and_latches(&header)?;
    if !ascii {
        // A binary file ends with its AND gates: whatever follows is not read.
        let st = SymbolTable::new();
        assert forall|k: SymbolKind| #[trigger] st.names(k) == names_from_entries(Seq::empty(), k) by {}
        return Ok((state.builder.build(), st, String::new()));
    }
    let (st, comments) = parse_symbol_table_and_comments(&mut state.line_reader, reader)?;
    Ok((state.builder.build(), st, comments))
}

/// Parse an AIGER input into an [`AigGraph`], its symbol table and its
/// comments, rejecting malformed input.
///
/// The input holds ASCII AIGER (`aag`) or binary AIGER (`aig`). With
/// `pre_optimize`, AND gates are simplified and structurally hashed as
/// they are added.
pub fn run_parser_with_options_checked(reader: &mut ByteReader, pre_optimize: bool) -> (r: Result<
    (AigGraph, SymbolTable, String),
    AigerError,
>)
    requires
        old(reader).wf(),
    ensures
        final(reader).wf(),
        parse_result(r, spec_parse(old(reader).data@, old(reader).pos as int, pre_optimize)),
        r matches Ok((g, _, _)) ==> g.aiger_ordered() && g.kinds_listed(),
{
    let ghost data = reader.data@;
    let ghost pos = reader.pos as int;
    let header = verify_aiger_header_checked(reader)?;
    let r = if header.is_ascii {
        parse_ascii_aiger_into_graph_checked(header, reader, pre_optimize)
    } else {
        parse_binary_aiger_into_graph_checked(header, reader, pre_optimize)
    };
    proof {
        if r is Ok {
            order::lemma_parsed_graph_in_aiger_order(data, pos, pre_optimize);
            order::lemma_parsed_graph_kinds_listed(data, pos, pre_optimize);
        }
    }
    r
}

/// Parse an AIGER input into an [`AigGraph`], its symbol table and its
/// comments.
///
/// The input must be well-formed; the only error left is a binary AND-gate
/// delta cut off by the end of the input.
pub fn run_parser_with_options(reader: &mut ByteReader, pre_optimize: bool) -> (r: Result<
    (AigGraph, SymbolTable, String),
    AigerError,
>)
    requires
        old(reader).wf(),
        spec_parse(old(reader).data@, old(reader).pos as int, pre_optimize) != Err::<ParsedAiger, AigerError>(
            AigerError::Malformed,
        ),
    ensures
        final(reader).wf(),
        parse_result(r, spec_parse(old(reader).data@, old(reader).pos as int, pre_optimize)),
        r matches Ok((g, _, _)) ==> g.aiger_ordered() && g.kinds_listed(),
{
    run_parser_with_options_checked(reader, pre_optimize)
}

} // verus!
