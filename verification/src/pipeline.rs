//! The stages in a row: source text to a program ready to run.
use crate::ast::{parse_program, AstNode, ParseError};
use crate::collect::{program, CollectedAstNode, Instruction};
use crate::deduplicate::{all_settled, normalize, DeduplicatedAstNode};
use crate::optimizations::collapse_unbounded::collapse_unbounded;
use crate::parse::{tokenize, Token};
use crate::ChunkedReceiverWrapper;
use std::collections::VecDeque;
use vstd::prelude::*;

verus! {

/// The program that a source text spells, or why it spells none.
pub open spec fn compiled(source: Seq<u8>) -> Result<Seq<Instruction>, ParseError> {
    match parse_program(tokenize(source)) {
        Ok(nodes) => Ok(normalize(nodes)),
        Err(error) => Err(error),
    }
}

/// Runs `source` through tokenizer, parser, normalizer and collector, every
/// transport between them batching by `chunk_size`, and through the
/// optimization hook if `optimization_level` is 1 or more. The program that
/// comes out depends on the source text alone: neither the chunk size nor the
/// level changes it. No instruction in it changes anything by zero. A text
/// with a bracket that has no partner is refused.
pub fn compile(source: &[u8], chunk_size: usize, optimization_level: usize) -> (result: Result<
    VecDeque<CollectedAstNode>,
    ParseError,
>)
    requires
        chunk_size > 0,
    ensures
        match compiled(source@) {
            Ok(instructions) => {
                &&& result is Ok
                &&& program(result->Ok_0@) == instructions
                &&& all_settled(instructions)
            },
            Err(error) => result == Err::<VecDeque<CollectedAstNode>, ParseError>(error),
        },
{
    let tokens = Token::parse(source, chunk_size);
    let mut receiver = ChunkedReceiverWrapper::new(tokens);
    assert(crate::ChunkedReceive::remaining(&receiver) =~= tokenize(source@));
    let nodes = match AstNode::parse(&mut receiver, chunk_size) {
        Ok(nodes) => nodes,
        Err(error) => {
            return Err(error);
        },
    };
    let normalized = DeduplicatedAstNode::parse(nodes, chunk_size);
    let collected = CollectedAstNode::parse(normalized);
    if optimization_level >= 1 {
        Ok(collapse_unbounded(collected))
    } else {
        Ok(collected)
    }
}

} // verus!
