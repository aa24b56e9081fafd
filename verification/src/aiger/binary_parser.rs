//! Binary AIGER (`aig`) parsing.

use crate::aiger::model::{delta_scan, spec_parse_body, ParsedAiger};
use crate::aiger::{parse_body, parse_result, AigerError, AigerHeader, ByteReader};
use crate::graph::symbols::SymbolTable;
use crate::graph::AigGraph;
use vstd::prelude::*;

verus! {

/// Parse the body of a binary AIGER file, rejecting malformed input.
///
/// Inputs are implicit; latch next-state literals and label literals
/// follow on lines, then each AND gate as two binary deltas, then the
/// optional symbol table and comments.
pub fn parse_binary_aiger_into_graph_checked(header: AigerHeader, reader: &mut ByteReader, pre_optimize: bool) -> (r:
    Result<(AigGraph, SymbolTable, String), AigerError>)
    requires
        old(reader).wf(),
    ensures
        final(reader).wf(),
        parse_result(r, spec_parse_body(old(reader).data@, old(reader).pos as int, header, pre_optimize, false)),
{
    parse_body(header, reader, pre_optimize, false)
}

/// Parse the body of a well-formed binary AIGER file; the only error left
/// is a delta cut off by the end of the input.
pub fn parse_binary_aiger_into_graph(header: AigerHeader, reader: &mut ByteReader, pre_optimize: bool) -> (r: Result<
    (AigGraph, SymbolTable, String),
    AigerError,
>)
    requires
        old(reader).wf(),
        spec_parse_body(old(reader).data@, old(reader).pos as int, header, pre_optimize, false) != Err::<
            ParsedAiger,
            AigerError,
        >(AigerError::Malformed),
    ensures
        final(reader).wf(),
        parse_result(r, spec_parse_body(old(reader).data@, old(reader).pos as int, header, pre_optimize, false)),
{
    parse_binary_aiger_into_graph_checked(header, reader, pre_optimize)
}

/// Decode one binary-encoded AND-gate delta.
///
/// Each AND gate of a binary AIGER file is stored as two deltas,
/// `delta0 = lhs - rhs0` and `delta1 = rhs0 - rhs1`, from which `rhs0` and
/// `rhs1` follow. A delta is a variable-length little-endian integer: each
/// byte holds seven bits, and its high bit is set where another byte
/// follows.
pub(crate) fn read_delta(reader: &mut ByteReader) -> (r: Result<usize, AigerError>)
    requires
        old(reader).wf(),
    ensures
        final(reader).wf(),
        final(reader).data@ == old(reader).data@,
        match delta_scan(old(reader).data@, old(reader).pos as int, 0, 0) {
            Ok((v, next)) => r == Ok::<usize, AigerError>(v) && final(reader).pos == next,
            Err(e) => r == Err::<usize, AigerError>(e),
        },
{
    let ghost data = reader.data@;
    let mut value: usize = 0usize;
    let mut shift: u32 = 0u32;
    loop
        invariant
            reader.wf(),
            reader.data@ == data,
            data == old(reader).data@,
            delta_scan(data, old(reader).pos as int, 0, 0) == delta_scan(data, reader.pos as int, value, shift),
        decreases data.len() - reader.pos,
    {
        let byte = match reader.read_byte() {
            Some(b) => b,
            None => {
                return Err(AigerError::UnexpectedEof);
            },
        };
        // The lower seven bits of the byte are the next chunk of the value.
        let chunk: usize = (byte & 0x7fu8) as usize;
        if shift >= usize::BITS {
            return Err(AigerError::Malformed);
        }
        value = value | (chunk << shift);
        if (byte & 0x80u8) == 0 {
            return Ok(value);
        }
        shift = shift + 7;
    }
}

} // verus!
