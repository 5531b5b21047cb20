//! A brainfuck toolchain: lexer, parser, peephole optimizer, compiler to a
//! flat jump-resolved instruction sequence, and a tape machine that runs it.

use vstd::prelude::*;
use crate::compile::compile;
use crate::compile::compiled;
use crate::compile::Instruction;
use crate::interp::interpret;
use crate::interp::run_spec;
use crate::interp::Execution;
use crate::lex::tokenize;
use crate::lex::tokens_of;
use crate::optimize::optimize;
use crate::optimize::optimized;
use crate::parse::parse;
use crate::parse::parsed;
use crate::parse::ParseError;

pub mod lex;
pub mod parse;
pub mod optimize;
pub mod compile;
pub mod interp;
pub mod semantics;
pub mod equivalence;

verus! {

/// Builds the flat program of a source text: its tokens parsed, optimized
/// and compiled, the first instruction at index 0. Fails if a bracket in
/// the text has no partner.
pub fn build(source: &str) -> (result: Result<Vec<Instruction>, ParseError>)
    ensures
        match result {
            Ok(code) => parsed(tokens_of(source@)) matches Some(tree) && code@ == compiled(
                optimized(tree),
                0,
            ),
            Err(e) => parsed(tokens_of(source@)) is None && e == ParseError::UnmatchedBracket,
        },
{
    let tokens = tokenize(source);
    assert(tokens@.len() == tokens.len() <= usize::MAX);
    match parse(tokens.as_slice()) {
        Ok(tree) => {
            let slice = tree.as_slice();
            proof {
                assert(slice.deep_view() =~= tree.deep_view());
            }
            let better = optimize(slice);
            let slice = better.as_slice();
            proof {
                assert(slice.deep_view() =~= better.deep_view());
            }
            Ok(compile(slice, 0))
        },
        Err(e) => Err(e),
    }
}

/// Builds the flat program of a source text and runs it on a fresh
/// machine against `input`, for at most `max_steps` instructions. Fails if
/// a bracket in the text has no partner.
pub fn run(source: &str, input: &[u8], max_steps: u64) -> (result: Result<Execution, ParseError>)
    ensures
        match result {
            Ok(run) => parsed(tokens_of(source@)) matches Some(tree) && run@ == run_spec(
                compiled(optimized(tree), 0),
                input@,
                max_steps as nat,
            ),
            Err(e) => parsed(tokens_of(source@)) is None && e == ParseError::UnmatchedBracket,
        },
{
    match build(source) {
        Ok(code) => Ok(interpret(code.as_slice(), input, max_steps)),
        Err(e) => Err(e),
    }
}

} // verus!
