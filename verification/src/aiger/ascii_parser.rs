//! ASCII AIGER (`aag`) parsing.

use crate::aiger::model::{spec_parse_body, ParsedAiger};
use crate::aiger::{parse_body, parse_result, AigerError, AigerHeader, ByteReader};
use crate::graph::symbols::SymbolTable;
use crate::graph::AigGraph;
use vstd::prelude::*;

verus! {

/// Parse the body of an ASCII AIGER file, rejecting malformed input.
///
/// Lines of input literals, latch literal pairs, label literals and AND
/// triples `lhs rhs0 rhs1` follow the header, then the optional symbol
/// table and comments.
pub fn parse_ascii_aiger_into_graph_checked(header: AigerHeader, reader: &mut ByteReader, pre_optimize: bool) -> (r:
    Result<(AigGraph, SymbolTable, String), AigerError>)
    requires
        old(reader).wf(),
    ensures
        final(reader).wf(),
        parse_result(r, spec_parse_body(old(reader).data@, old(reader).pos as int, header, pre_optimize, true)),
{
    parse_body(header, reader, pre_optimize, true)
}

/// Parse the body of a well-formed ASCII AIGER file.
pub fn parse_ascii_aiger_into_graph(header: AigerHeader, reader: &mut ByteReader, pre_optimize: bool) -> (r: Result<
    (AigGraph, SymbolTable, String),
    AigerError,
>)
    requires
        old(reader).wf(),
        spec_parse_body(old(reader).data@, old(reader).pos as int, header, pre_optimize, true) != Err::<
            ParsedAiger,
            AigerError,
        >(AigerError::Malformed),
    ensures
        final(reader).wf(),
        parse_result(r, spec_parse_body(old(reader).data@, old(reader).pos as int, header, pre_optimize, true)),
{
    parse_ascii_aiger_into_graph_checked(header, reader, pre_optimize)
}

} // verus!
