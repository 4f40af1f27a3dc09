//! An execution engine for a small untyped register-machine language:
//! labelled blocks of instructions over a register file, a word-addressed
//! heap and a first-fit free-list allocator with eager coalescing.

pub mod error;
pub mod eval;
pub mod freelist;
pub mod laws;
pub mod lexer;
pub mod parser;
pub mod semantics;
pub mod syntax;
pub mod tc;
pub mod text;

use crate::error::Error;
use crate::eval::{eval, evaluates};
use crate::lexer::{lex_error_text, lexed};
use crate::parser::{bad_block, parse, parse_error_text, program_syms};
use crate::syntax::{Block, Instr};
use crate::tc::{addresses, distinct, is_table_of, tc};
use vstd::prelude::*;

verus! {

/// Whether `r` is the result that is owed for the list of blocks `blocks`
/// on a fresh machine of the given size: a usage error where two blocks
/// have one address, and otherwise what the evaluation of the table of the
/// blocks gives.
pub open spec fn validated_and_evaluated(
    blocks: Seq<Block>,
    mem_limit: nat,
    reg_limit: nat,
    r: Result<i32, Error>,
) -> bool {
    if distinct(addresses(blocks)) {
        exists|table: Map<i32, Instr>|
            is_table_of(table, blocks) && evaluates(table, mem_limit, reg_limit, r)
    } else {
        r matches Err(Error::Usage(msg)) && msg@ == "duplicate block IDs"@
    }
}

/// Reads the program text `code`, validates its blocks and runs it on a fresh
/// machine with `mem_limit` heap words and `reg_limit` registers.
///
/// Text that is no program is a parse error, and nothing is run. Otherwise
/// the result is that of the blocks which the text writes.
pub fn parse_and_eval(code: &str, mem_limit: usize, reg_limit: usize) -> (r: Result<i32, Error>)
    ensures
        match lexed(code@) {
            Err(at) => r matches Err(Error::Parse(msg)) && msg@ == lex_error_text(code@, at),
            Ok(t) => match bad_block(t, 0) {
                Some(at) => r matches Err(Error::Parse(msg)) && msg@ == parse_error_text(at),
                None => exists|blocks: Seq<Block>|
                    program_syms(blocks) == t && validated_and_evaluated(
                        blocks,
                        mem_limit as nat,
                        reg_limit as nat,
                        r,
                    ),
            },
        },
{
    let blocks = match parse(code) {
        Ok(blocks) => blocks,
        Err(e) => {
            return Err(e);
        },
    };
    let ghost listed = blocks@;
    let table = match tc(blocks) {
        Ok(table) => table,
        Err(e) => {
            assert(validated_and_evaluated(listed, mem_limit as nat, reg_limit as nat, Err(e)));
            return Err(e);
        },
    };
    let ghost entries = table@;
    let r = eval(mem_limit, reg_limit, table);
    assert(is_table_of(entries, listed) && evaluates(
        entries,
        mem_limit as nat,
        reg_limit as nat,
        r,
    ));
    r
}

} // verus!
