//! The grammar of programs and the parser for it.
//!
//! The grammar is given by the tokens that a program is written with:
//! `program_syms` renders a list of blocks as tokens, and a token sequence
//! is a program exactly when it is the rendering of some list of blocks.
//! The parser reads a token sequence from left to right and rebuilds the
//! blocks.

pub use crate::lexer::Tok;

use crate::error::Error;
use crate::lexer::{lex, lex_error_text, lexed, symbols, Symbol};
use crate::syntax::{Block, Instr, Op2, Printable, Val};
use crate::text::{decimal, push_decimal};
use vstd::prelude::*;
use vstd::string::*;

verus! {

/// The token that writes a value.
pub open spec fn val_sym(v: Val) -> Symbol {
    match v {
        Val::Reg(r) => Symbol::Reg(r),
        Val::Imm(n) => Symbol::Int32(n),
    }
}

/// The tokens that write a printable item.
pub open spec fn printable_syms(p: Printable) -> Seq<Symbol> {
    match p {
        Printable::Id(s) => seq![Symbol::Id(s@)],
        Printable::Val(v) => seq![val_sym(v)],
        Printable::Array(start, count) => seq![
            Symbol::Array,
            Symbol::LParen,
            val_sym(start),
            Symbol::Comma,
            val_sym(count),
            Symbol::RParen,
        ],
    }
}

/// The tokens that write an instruction and all that follows it in its
/// block.
pub open spec fn instr_syms(instr: Instr) -> Seq<Symbol>
    decreases instr,
{
    match instr {
        Instr::Goto(v) => seq![
            Symbol::Goto,
            Symbol::LParen,
            val_sym(v),
            Symbol::RParen,
            Symbol::Semi,
        ],
        Instr::Exit(v) => seq![
            Symbol::Exit,
            Symbol::LParen,
            val_sym(v),
            Symbol::RParen,
            Symbol::Semi,
        ],
        Instr::Abort() => seq![Symbol::Abort, Symbol::Semi],
        Instr::Op2(r, op, v1, v2, rest) => seq![
            Symbol::Reg(r),
            Symbol::Equal,
            val_sym(v1),
            Symbol::Op2(op),
            val_sym(v2),
            Symbol::Semi,
        ] + instr_syms(*rest),
        Instr::Copy(r, v, rest) => seq![Symbol::Reg(r), Symbol::Equal, val_sym(v), Symbol::Semi]
            + instr_syms(*rest),
        Instr::Load(r, v, rest) => seq![
            Symbol::Reg(r),
            Symbol::Equal,
            Symbol::Op2(Op2::Mul),
            val_sym(v),
            Symbol::Semi,
        ] + instr_syms(*rest),
        Instr::Store(r, v, rest) => seq![
            Symbol::Op2(Op2::Mul),
            Symbol::Reg(r),
            Symbol::Equal,
            val_sym(v),
            Symbol::Semi,
        ] + instr_syms(*rest),
        Instr::IfZ(v, on_zero, otherwise) => seq![Symbol::Ifz, val_sym(v), Symbol::LBrace]
            + instr_syms(*on_zero) + seq![Symbol::RBrace, Symbol::Else, Symbol::LBrace]
            + instr_syms(*otherwise) + seq![Symbol::RBrace],
        Instr::Malloc(r, v, rest) => seq![
            Symbol::Reg(r),
            Symbol::Equal,
            Symbol::Malloc,
            Symbol::LParen,
            val_sym(v),
            Symbol::RParen,
            Symbol::Semi,
        ] + instr_syms(*rest),
        Instr::Print(p, rest) => seq![Symbol::Print, Symbol::LParen] + printable_syms(p)
            + seq![Symbol::RParen, Symbol::Semi] + instr_syms(*rest),
        Instr::Free(r, rest) => seq![
            Symbol::Free,
            Symbol::LParen,
            Symbol::Reg(r),
            Symbol::RParen,
            Symbol::Semi,
        ] + instr_syms(*rest),
    }
}

/// The tokens that write a block: `block`, its address, and its
/// instructions in braces.
pub open spec fn block_syms(b: Block) -> Seq<Symbol> {
    seq![Symbol::Block, Symbol::Int32(b.0), Symbol::LBrace] + instr_syms(b.1) + seq![
        Symbol::RBrace,
    ]
}

/// The tokens that write a list of blocks, one block after the other.
pub open spec fn blocks_syms(blocks: Seq<Block>) -> Seq<Symbol>
    decreases blocks.len(),
{
    if blocks.len() == 0 {
        Seq::empty()
    } else {
        blocks_syms(blocks.drop_last()) + block_syms(blocks.last())
    }
}

/// The tokens of a whole program: its blocks and the end marker.
pub open spec fn program_syms(blocks: Seq<Block>) -> Seq<Symbol> {
    blocks_syms(blocks) + seq![Symbol::Eof]
}

/// The token at position `k`; beyond the end of the sequence stands the
/// end marker.
pub open spec fn sym(t: Seq<Symbol>, k: int) -> Symbol {
    if 0 <= k < t.len() {
        t[k]
    } else {
        Symbol::Eof
    }
}

/// Whether a value stands at position `k`.
pub open spec fn val_at(t: Seq<Symbol>, k: int) -> bool {
    sym(t, k) is Reg || sym(t, k) is Int32
}

/// The value that the token `y` writes, where it writes one.
pub open spec fn val_of(y: Symbol) -> Val {
    match y {
        Symbol::Reg(r) => Val::Reg(r),
        Symbol::Int32(n) => Val::Imm(n),
        _ => Val::Imm(0),
    }
}

/// The position behind the printable item that stands at `pos`, if one
/// does.
pub open spec fn printable_end(t: Seq<Symbol>, pos: int) -> Option<int> {
    if sym(t, pos) is Id || val_at(t, pos) {
        Some(pos + 1)
    } else if sym(t, pos) == Symbol::Array && sym(t, pos + 1) == Symbol::LParen && val_at(
        t,
        pos + 2,
    ) && sym(t, pos + 3) == Symbol::Comma && val_at(t, pos + 4) && sym(t, pos + 5)
        == Symbol::RParen {
        Some(pos + 6)
    } else {
        None
    }
}

/// The position behind the instruction at `pos` that ends a block by
/// itself (`goto`, `exit`, `abort`), if one stands there.
pub open spec fn terminal_end(t: Seq<Symbol>, pos: int) -> Option<int> {
    if (sym(t, pos) == Symbol::Goto || sym(t, pos) == Symbol::Exit) && sym(t, pos + 1)
        == Symbol::LParen && val_at(t, pos + 2) && sym(t, pos + 3) == Symbol::RParen && sym(
        t,
        pos + 4,
    ) == Symbol::Semi {
        Some(pos + 5)
    } else if sym(t, pos) == Symbol::Abort && sym(t, pos + 1) == Symbol::Semi {
        Some(pos + 2)
    } else {
        None
    }
}

/// The position behind the instruction at `pos` that begins with a
/// register and `=`, not counting what follows it in the block.
pub open spec fn assignment_end(t: Seq<Symbol>, pos: int) -> Option<int> {
    if !(sym(t, pos) is Reg && sym(t, pos + 1) == Symbol::Equal) {
        None
    } else if sym(t, pos + 2) == Symbol::Op2(Op2::Mul) {
        if val_at(t, pos + 3) && sym(t, pos + 4) == Symbol::Semi {
            Some(pos + 5)
        } else {
            None
        }
    } else if sym(t, pos + 2) == Symbol::Malloc {
        if sym(t, pos + 3) == Symbol::LParen && val_at(t, pos + 4) && sym(t, pos + 5)
            == Symbol::RParen && sym(t, pos + 6) == Symbol::Semi {
            Some(pos + 7)
        } else {
            None
        }
    } else if !val_at(t, pos + 2) {
        None
    } else if sym(t, pos + 3) is Op2 {
        if val_at(t, pos + 4) && sym(t, pos + 5) == Symbol::Semi {
            Some(pos + 6)
        } else {
            None
        }
    } else if sym(t, pos + 3) == Symbol::Semi {
        Some(pos + 4)
    } else {
        None
    }
}

/// The position behind the instruction at `pos` that is followed by more
/// of its block (an assignment, a store, `free`, `print`), not counting
/// what follows.
pub open spec fn stem_end(t: Seq<Symbol>, pos: int) -> Option<int> {
    if sym(t, pos) is Reg {
        assignment_end(t, pos)
    } else if sym(t, pos) == Symbol::Op2(Op2::Mul) {
        if sym(t, pos + 1) is Reg && sym(t, pos + 2) == Symbol::Equal && val_at(t, pos + 3) && sym(
            t,
            pos + 4,
        ) == Symbol::Semi {
            Some(pos + 5)
        } else {
            None
        }
    } else if sym(t, pos) == Symbol::Free {
        if sym(t, pos + 1) == Symbol::LParen && sym(t, pos + 2) is Reg && sym(t, pos + 3)
            == Symbol::RParen && sym(t, pos + 4) == Symbol::Semi {
            Some(pos + 5)
        } else {
            None
        }
    } else if sym(t, pos) == Symbol::Print {
        if sym(t, pos + 1) == Symbol::LParen {
            match printable_end(t, pos + 2) {
                Some(e) => if sym(t, e) == Symbol::RParen && sym(t, e + 1) == Symbol::Semi {
                    Some(e + 2)
                } else {
                    None
                },
                None => None,
            }
        } else {
            None
        }
    } else {
        None
    }
}

/// The position behind the instruction that stands at `pos`, with all that
/// follows it in its block, if the tokens from `pos` on begin with one.
pub open spec fn instr_end(t: Seq<Symbol>, pos: int) -> Option<int>
    decreases t.len() - pos,
{
    if pos < 0 || pos >= t.len() {
        None
    } else if terminal_end(t, pos) is Some {
        terminal_end(t, pos)
    } else if sym(t, pos) == Symbol::Ifz {
        if val_at(t, pos + 1) && sym(t, pos + 2) == Symbol::LBrace {
            match instr_end(t, pos + 3) {
                Some(e1) => if pos + 3 < e1 && sym(t, e1) == Symbol::RBrace && sym(t, e1 + 1)
                    == Symbol::Else && sym(t, e1 + 2) == Symbol::LBrace {
                    match instr_end(t, e1 + 3) {
                        Some(e2) => if sym(t, e2) == Symbol::RBrace {
                            Some(e2 + 1)
                        } else {
                            None
                        },
                        None => None,
                    }
                } else {
                    None
                },
                None => None,
            }
        } else {
            None
        }
    } else {
        match stem_end(t, pos) {
            Some(h) => if pos < h {
                instr_end(t, h)
            } else {
                None
            },
            None => None,
        }
    }
}

/// The position behind the block that stands at `pos`, if one does.
pub open spec fn block_end(t: Seq<Symbol>, pos: int) -> Option<int> {
    if sym(t, pos) == Symbol::Block && sym(t, pos + 1) is Int32 && sym(t, pos + 2)
        == Symbol::LBrace {
        match instr_end(t, pos + 3) {
            Some(e) => if sym(t, e) == Symbol::RBrace {
                Some(e + 1)
            } else {
                None
            },
            None => None,
        }
    } else {
        None
    }
}

/// Reads blocks from `pos` on up to the end marker that closes the
/// sequence. The result is `None` if that succeeds, and otherwise the
/// position at which a block or the end marker was looked for and neither
/// stood.
pub open spec fn bad_block(t: Seq<Symbol>, pos: int) -> Option<int>
    decreases t.len() - pos,
{
    if pos < 0 || pos >= t.len() {
        Some(pos)
    } else if pos == t.len() - 1 && t[pos] == Symbol::Eof {
        None
    } else {
        match block_end(t, pos) {
            Some(e) => if pos < e {
                bad_block(t, e)
            } else {
                Some(pos)
            },
            None => Some(pos),
        }
    }
}

/// The message for tokens among which no block stands at position `at`.
pub open spec fn parse_error_text(at: int) -> Seq<char> {
    "Parse error: no block at token "@ + decimal(at as nat)
}

/// Whether the token at `pos` is `want`.
fn token_match(toks: &Vec<Tok>, pos: usize, want: &Tok) -> (ok: bool)
    requires
        want@ != Symbol::Eof,
    ensures
        ok == (sym(symbols(toks@), pos as int) == want@),
{
    if pos >= toks.len() {
        return false;
    }
    match (want, &toks[pos]) {
        (Tok::LBrace, Tok::LBrace) => true,
        (Tok::RBrace, Tok::RBrace) => true,
        (Tok::LParen, Tok::LParen) => true,
        (Tok::RParen, Tok::RParen) => true,
        (Tok::Ifz, Tok::Ifz) => true,
        (Tok::Else, Tok::Else) => true,
        (Tok::Semi, Tok::Semi) => true,
        (Tok::Equal, Tok::Equal) => true,
        (Tok::Goto, Tok::Goto) => true,
        (Tok::Abort, Tok::Abort) => true,
        (Tok::Exit, Tok::Exit) => true,
        (Tok::Malloc, Tok::Malloc) => true,
        (Tok::Print, Tok::Print) => true,
        (Tok::Array, Tok::Array) => true,
        (Tok::Comma, Tok::Comma) => true,
        (Tok::Free, Tok::Free) => true,
        (Tok::Block, Tok::Block) => true,
        (Tok::Op2(a), Tok::Op2(b)) => *a == *b,
        (Tok::Int32(a), Tok::Int32(b)) => *a == *b,
        (Tok::Reg(a), Tok::Reg(b)) => *a == *b,
        (Tok::Id(a), Tok::Id(b)) => *a == *b,
        _ => false,
    }
}

/// The register that the token at `pos` names, if it names one.
fn reg(toks: &Vec<Tok>, pos: usize) -> (r: Option<usize>)
    ensures
        r == (match sym(symbols(toks@), pos as int) {
            Symbol::Reg(n) => Some(n),
            _ => None,
        }),
{
    if pos >= toks.len() {
        return None;
    }
    match &toks[pos] {
        Tok::Reg(n) => Some(*n),
        _ => None,
    }
}

/// The literal that the token at `pos` is, if it is one.
fn i32_token(toks: &Vec<Tok>, pos: usize) -> (r: Option<i32>)
    ensures
        r == (match sym(symbols(toks@), pos as int) {
            Symbol::Int32(n) => Some(n),
            _ => None,
        }),
{
    if pos >= toks.len() {
        return None;
    }
    match &toks[pos] {
        Tok::Int32(n) => Some(*n),
        _ => None,
    }
}

/// The value that the token at `pos` writes, if it writes one.
fn val(toks: &Vec<Tok>, pos: usize) -> (r: Option<Val>)
    ensures
        r == (if val_at(symbols(toks@), pos as int) {
            Some(val_of(sym(symbols(toks@), pos as int)))
        } else {
            None
        }),
        r matches Some(v) ==> val_sym(v) == sym(symbols(toks@), pos as int),
{
    match reg(toks, pos) {
        Some(n) => Some(Val::Reg(n)),
        None => match i32_token(toks, pos) {
            Some(n) => Some(Val::Imm(n)),
            None => None,
        },
    }
}

/// The operator that the token at `pos` is, if it is one.
fn op2_token(toks: &Vec<Tok>, pos: usize) -> (r: Option<Op2>)
    ensures
        r == (match sym(symbols(toks@), pos as int) {
            Symbol::Op2(op) => Some(op),
            _ => None,
        }),
{
    if pos >= toks.len() {
        return None;
    }
    match &toks[pos] {
        Tok::Op2(op) => Some(*op),
        _ => None,
    }
}

/// The label that the token at `pos` is, if it is one.
fn id_token(toks: &Vec<Tok>, pos: usize) -> (r: Option<String>)
    ensures
        match sym(symbols(toks@), pos as int) {
            Symbol::Id(text) => r matches Some(s) && s@ == text,
            _ => r is None,
        },
{
    if pos >= toks.len() {
        return None;
    }
    match &toks[pos] {
        Tok::Id(s) => Some(s.clone()),
        _ => None,
    }
}

/// Reads the printable item at `pos`.
fn printable(toks: &Vec<Tok>, pos: usize) -> (r: Option<(Printable, usize)>)
    requires
        pos <= toks.len(),
    ensures
        match printable_end(symbols(toks@), pos as int) {
            Some(e) => r matches Some((p, end)) && end == e && pos < e <= toks.len() && symbols(
                toks@,
            ).subrange(pos as int, e) == printable_syms(p),
            None => r is None,
        },
{
    let ghost t = symbols(toks@);
    match id_token(toks, pos) {
        Some(s) => {
            assert(t.subrange(pos as int, pos + 1) =~= printable_syms(Printable::Id(s)));
            return Some((Printable::Id(s), pos + 1));
        },
        None => {},
    }
    match val(toks, pos) {
        Some(v) => {
            assert(t.subrange(pos as int, pos + 1) =~= printable_syms(Printable::Val(v)));
            return Some((Printable::Val(v), pos + 1));
        },
        None => {},
    }
    if !token_match(toks, pos, &Tok::Array) || !token_match(toks, pos + 1, &Tok::LParen) {
        return None;
    }
    let start = match val(toks, pos + 2) {
        Some(v) => v,
        None => {
            return None;
        },
    };
    if !token_match(toks, pos + 3, &Tok::Comma) {
        return None;
    }
    let count = match val(toks, pos + 4) {
        Some(v) => v,
        None => {
            return None;
        },
    };
    if !token_match(toks, pos + 5, &Tok::RParen) {
        return None;
    }
    assert(t.subrange(pos as int, pos + 6) =~= printable_syms(Printable::Array(start, count)));
    Some((Printable::Array(start, count), pos + 6))
}

/// Reads the `goto`, `exit` or `abort` at `pos`.
fn terminal(toks: &Vec<Tok>, pos: usize) -> (r: Option<(Instr, usize)>)
    requires
        pos < toks.len(),
    ensures
        match terminal_end(symbols(toks@), pos as int) {
            Some(e) => r matches Some((instr, end)) && end == e && pos < e <= toks.len()
                && symbols(toks@).subrange(pos as int, e) == instr_syms(instr),
            None => r is None,
        },
{
    match &toks[pos] {
        Tok::Goto => parse_goto(toks, pos),
        Tok::Abort => parse_abort(toks, pos),
        Tok::Exit => parse_exit(toks, pos),
        _ => None,
    }
}

/// Reads the value in parentheses and the semicolon behind a `goto` or an
/// `exit` at `pos`.
fn parse_target(toks: &Vec<Tok>, pos: usize) -> (r: Option<Val>)
    requires
        pos < toks.len(),
    ensures
        ({
            let t = symbols(toks@);
            if sym(t, pos + 1) == Symbol::LParen && val_at(t, pos + 2) && sym(t, pos + 3)
                == Symbol::RParen && sym(t, pos + 4) == Symbol::Semi {
                r matches Some(v) && val_sym(v) == sym(t, pos + 2) && pos + 5 <= toks.len()
            } else {
                r is None
            }
        }),
{
    if !token_match(toks, pos + 1, &Tok::LParen) {
        return None;
    }
    let v = match val(toks, pos + 2) {
        Some(v) => v,
        None => {
            return None;
        },
    };
    if !token_match(toks, pos + 3, &Tok::RParen) || !token_match(toks, pos + 4, &Tok::Semi) {
        return None;
    }
    Some(v)
}

/// Reads the `goto` at `pos`.
fn parse_goto(toks: &Vec<Tok>, pos: usize) -> (r: Option<(Instr, usize)>)
    requires
        pos < toks.len(),
        sym(symbols(toks@), pos as int) == Symbol::Goto,
    ensures
        match terminal_end(symbols(toks@), pos as int) {
            Some(e) => r matches Some((instr, end)) && end == e && pos < e <= toks.len()
                && symbols(toks@).subrange(pos as int, e) == instr_syms(instr),
            None => r is None,
        },
{
    let ghost t = symbols(toks@);
    match parse_target(toks, pos) {
        Some(v) => {
            assert(t.subrange(pos as int, pos + 5) =~= instr_syms(Instr::Goto(v)));
            Some((Instr::Goto(v), pos + 5))
        },
        None => None,
    }
}

/// Reads the `abort` at `pos`.
fn parse_abort(toks: &Vec<Tok>, pos: usize) -> (r: Option<(Instr, usize)>)
    requires
        pos < toks.len(),
        sym(symbols(toks@), pos as int) == Symbol::Abort,
    ensures
        match terminal_end(symbols(toks@), pos as int) {
            Some(e) => r matches Some((instr, end)) && end == e && pos < e <= toks.len()
                && symbols(toks@).subrange(pos as int, e) == instr_syms(instr),
            None => r is None,
        },
{
    let ghost t = symbols(toks@);
    if !token_match(toks, pos + 1, &Tok::Semi) {
        return None;
    }
    assert(t.subrange(pos as int, pos + 2) =~= instr_syms(Instr::Abort()));
    Some((Instr::Abort(), pos + 2))
}

/// Reads the `exit` at `pos`.
fn parse_exit(toks: &Vec<Tok>, pos: usize) -> (r: Option<(Instr, usize)>)
    requires
        pos < toks.len(),
        sym(symbols(toks@), pos as int) == Symbol::Exit,
    ensures
        match terminal_end(symbols(toks@), pos as int) {
            Some(e) => r matches Some((instr, end)) && end == e && pos < e <= toks.len()
                && symbols(toks@).subrange(pos as int, e) == instr_syms(instr),
            None => r is None,
        },
{
    let ghost t = symbols(toks@);
    match parse_target(toks, pos) {
        Some(v) => {
            assert(t.subrange(pos as int, pos + 5) =~= instr_syms(Instr::Exit(v)));
            Some((Instr::Exit(v), pos + 5))
        },
        None => None,
    }
}

/// An instruction that is followed by more of its block, without what
/// follows.
enum Stem {
    Op2(usize, Op2, Val, Val),
    Copy(usize, Val),
    Load(usize, Val),
    Store(usize, Val),
    Malloc(usize, Val),
    Print(Printable),
    Free(usize),
}

/// The tokens that write a stem.
spec fn stem_syms(stem: Stem) -> Seq<Symbol> {
    match stem {
        Stem::Op2(r, op, v1, v2) => seq![
            Symbol::Reg(r),
            Symbol::Equal,
            val_sym(v1),
            Symbol::Op2(op),
            val_sym(v2),
            Symbol::Semi,
        ],
        Stem::Copy(r, v) => seq![Symbol::Reg(r), Symbol::Equal, val_sym(v), Symbol::Semi],
        Stem::Load(r, v) => seq![
            Symbol::Reg(r),
            Symbol::Equal,
            Symbol::Op2(Op2::Mul),
            val_sym(v),
            Symbol::Semi,
        ],
        Stem::Store(r, v) => seq![
            Symbol::Op2(Op2::Mul),
            Symbol::Reg(r),
            Symbol::Equal,
            val_sym(v),
            Symbol::Semi,
        ],
        Stem::Malloc(r, v) => seq![
            Symbol::Reg(r),
            Symbol::Equal,
            Symbol::Malloc,
            Symbol::LParen,
            val_sym(v),
            Symbol::RParen,
            Symbol::Semi,
        ],
        Stem::Print(p) => seq![Symbol::Print, Symbol::LParen] + printable_syms(p) + seq![
            Symbol::RParen,
            Symbol::Semi,
        ],
        Stem::Free(r) => seq![
            Symbol::Free,
            Symbol::LParen,
            Symbol::Reg(r),
            Symbol::RParen,
            Symbol::Semi,
        ],
    }
}

/// The instruction that a stem and its continuation make.
spec fn joined(stem: Stem, rest: Instr) -> Instr {
    match stem {
        Stem::Op2(r, op, v1, v2) => Instr::Op2(r, op, v1, v2, Box::new(rest)),
        Stem::Copy(r, v) => Instr::Copy(r, v, Box::new(rest)),
        Stem::Load(r, v) => Instr::Load(r, v, Box::new(rest)),
        Stem::Store(r, v) => Instr::Store(r, v, Box::new(rest)),
        Stem::Malloc(r, v) => Instr::Malloc(r, v, Box::new(rest)),
        Stem::Print(p) => Instr::Print(p, Box::new(rest)),
        Stem::Free(r) => Instr::Free(r, Box::new(rest)),
    }
}

/// Makes the instruction of a stem and its continuation.
fn join(stem: Stem, rest: Instr) -> (instr: Instr)
    ensures
        instr == joined(stem, rest),
        instr_syms(instr) == stem_syms(stem) + instr_syms(rest),
{
    match stem {
        Stem::Op2(r, op, v1, v2) => Instr::Op2(r, op, v1, v2, Box::new(rest)),
        Stem::Copy(r, v) => Instr::Copy(r, v, Box::new(rest)),
        Stem::Load(r, v) => Instr::Load(r, v, Box::new(rest)),
        Stem::Store(r, v) => Instr::Store(r, v, Box::new(rest)),
        Stem::Malloc(r, v) => Instr::Malloc(r, v, Box::new(rest)),
        Stem::Print(p) => Instr::Print(p, Box::new(rest)),
        Stem::Free(r) => Instr::Free(r, Box::new(rest)),
    }
}

/// Reads the instruction at `pos` that begins with a register and `=`,
/// without what follows it.
fn parse_copy_or_op2(toks: &Vec<Tok>, pos: usize) -> (r: Option<(Stem, usize)>)
    requires
        pos < toks.len(),
    ensures
        match assignment_end(symbols(toks@), pos as int) {
            Some(h) => r matches Some((stem, end)) && end == h && pos < h <= toks.len()
                && symbols(toks@).subrange(pos as int, h) == stem_syms(stem),
            None => r is None,
        },
{
    let ghost t = symbols(toks@);
    let target = match reg(toks, pos) {
        Some(n) => n,
        None => {
            return None;
        },
    };
    if !token_match(toks, pos + 1, &Tok::Equal) {
        return None;
    }
    if token_match(toks, pos + 2, &Tok::Op2(Op2::Mul)) {
        let v = match val(toks, pos + 3) {
            Some(v) => v,
            None => {
                return None;
            },
        };
        if !token_match(toks, pos + 4, &Tok::Semi) {
            return None;
        }
        assert(t.subrange(pos as int, pos + 5) =~= stem_syms(Stem::Load(target, v)));
        return Some((Stem::Load(target, v), pos + 5));
    }
    if token_match(toks, pos + 2, &Tok::Malloc) {
        if !token_match(toks, pos + 3, &Tok::LParen) {
            return None;
        }
        let v = match val(toks, pos + 4) {
            Some(v) => v,
            None => {
                return None;
            },
        };
        if !token_match(toks, pos + 5, &Tok::RParen) || !token_match(toks, pos + 6, &Tok::Semi) {
            return None;
        }
        assert(t.subrange(pos as int, pos + 7) =~= stem_syms(Stem::Malloc(target, v)));
        return Some((Stem::Malloc(target, v), pos + 7));
    }
    let v1 = match val(toks, pos + 2) {
        Some(v) => v,
        None => {
            return None;
        },
    };
    match op2_token(toks, pos + 3) {
        Some(op) => {
            let v2 = match val(toks, pos + 4) {
                Some(v) => v,
                None => {
                    return None;
                },
            };
            if !token_match(toks, pos + 5, &Tok::Semi) {
                return None;
            }
            assert(t.subrange(pos as int, pos + 6) =~= stem_syms(Stem::Op2(target, op, v1, v2)));
            Some((Stem::Op2(target, op, v1, v2), pos + 6))
        },
        None => {
            if !token_match(toks, pos + 3, &Tok::Semi) {
                return None;
            }
            assert(t.subrange(pos as int, pos + 4) =~= stem_syms(Stem::Copy(target, v1)));
            Some((Stem::Copy(target, v1), pos + 4))
        },
    }
}

/// Reads the store at `pos`, without what follows it.
fn parse_store(toks: &Vec<Tok>, pos: usize) -> (r: Option<(Stem, usize)>)
    requires
        pos < toks.len(),
        sym(symbols(toks@), pos as int) == Symbol::Op2(Op2::Mul),
    ensures
        match stem_end(symbols(toks@), pos as int) {
            Some(h) => r matches Some((stem, end)) && end == h && pos < h <= toks.len()
                && symbols(toks@).subrange(pos as int, h) == stem_syms(stem),
            None => r is None,
        },
{
    let ghost t = symbols(toks@);
    let through = match reg(toks, pos + 1) {
        Some(n) => n,
        None => {
            return None;
        },
    };
    if !token_match(toks, pos + 2, &Tok::Equal) {
        return None;
    }
    let v = match val(toks, pos + 3) {
        Some(v) => v,
        None => {
            return None;
        },
    };
    if !token_match(toks, pos + 4, &Tok::Semi) {
        return None;
    }
    assert(t.subrange(pos as int, pos + 5) =~= stem_syms(Stem::Store(through, v)));
    Some((Stem::Store(through, v), pos + 5))
}

/// Reads the `free` at `pos`, without what follows it.
fn parse_free(toks: &Vec<Tok>, pos: usize) -> (r: Option<(Stem, usize)>)
    requires
        pos < toks.len(),
        sym(symbols(toks@), pos as int) == Symbol::Free,
    ensures
        match stem_end(symbols(toks@), pos as int) {
            Some(h) => r matches Some((stem, end)) && end == h && pos < h <= toks.len()
                && symbols(toks@).subrange(pos as int, h) == stem_syms(stem),
            None => r is None,
        },
{
    let ghost t = symbols(toks@);
    if !token_match(toks, pos + 1, &Tok::LParen) {
        return None;
    }
    let freed = match reg(toks, pos + 2) {
        Some(n) => n,
        None => {
            return None;
        },
    };
    if !token_match(toks, pos + 3, &Tok::RParen) || !token_match(toks, pos + 4, &Tok::Semi) {
        return None;
    }
    assert(t.subrange(pos as int, pos + 5) =~= stem_syms(Stem::Free(freed)));
    Some((Stem::Free(freed), pos + 5))
}

/// Reads the `print` at `pos`, without what follows it.
fn parse_print(toks: &Vec<Tok>, pos: usize) -> (r: Option<(Stem, usize)>)
    requires
        pos < toks.len(),
        sym(symbols(toks@), pos as int) == Symbol::Print,
    ensures
        match stem_end(symbols(toks@), pos as int) {
            Some(h) => r matches Some((stem, end)) && end == h && pos < h <= toks.len()
                && symbols(toks@).subrange(pos as int, h) == stem_syms(stem),
            None => r is None,
        },
{
    let ghost t = symbols(toks@);
    if !token_match(toks, pos + 1, &Tok::LParen) {
        return None;
    }
    let (p, e) = match printable(toks, pos + 2) {
        Some(found) => found,
        None => {
            return None;
        },
    };
    if !token_match(toks, e, &Tok::RParen) || !token_match(toks, e + 1, &Tok::Semi) {
        return None;
    }
    assert(t.subrange(pos as int, e + 2) =~= seq![Symbol::Print, Symbol::LParen] + t.subrange(
        pos + 2,
        e as int,
    ) + seq![Symbol::RParen, Symbol::Semi]);
    Some((Stem::Print(p), e + 2))
}

/// Reads the instruction at `pos` that is followed by more of its block,
/// without what follows it.
fn stem(toks: &Vec<Tok>, pos: usize) -> (r: Option<(Stem, usize)>)
    requires
        pos < toks.len(),
    ensures
        match stem_end(symbols(toks@), pos as int) {
            Some(h) => r matches Some((stem, end)) && end == h && pos < h <= toks.len()
                && symbols(toks@).subrange(pos as int, h) == stem_syms(stem),
            None => r is None,
        },
{
    match &toks[pos] {
        Tok::Reg(_) => parse_copy_or_op2(toks, pos),
        Tok::Op2(Op2::Mul) => parse_store(toks, pos),
        Tok::Free => parse_free(toks, pos),
        Tok::Print => parse_print(toks, pos),
        _ => None,
    }
}

/// Reads the instruction at `pos` and all that follows it in its block.
fn instr(toks: &Vec<Tok>, pos: usize) -> (r: Option<(Instr, usize)>)
    ensures
        match instr_end(symbols(toks@), pos as int) {
            Some(e) => r matches Some((found, end)) && end == e && pos < e <= toks.len()
                && symbols(toks@).subrange(pos as int, e) == instr_syms(found),
            None => r is None,
        },
    decreases toks.len() - pos,
{
    let ghost t = symbols(toks@);
    if pos >= toks.len() {
        return None;
    }
    match terminal(toks, pos) {
        Some(found) => {
            return Some(found);
        },
        None => {},
    }
    if token_match(toks, pos, &Tok::Ifz) {
        return parse_ifz(toks, pos);
    }
    let (head, h) = match stem(toks, pos) {
        Some(found) => found,
        None => {
            return None;
        },
    };
    let (rest, e) = match instr(toks, h) {
        Some(found) => found,
        None => {
            return None;
        },
    };
    assert(t.subrange(pos as int, e as int) =~= t.subrange(pos as int, h as int) + t.subrange(
        h as int,
        e as int,
    ));
    Some((join(head, rest), e))
}

/// Reads the zero test at `pos` with both of its arms.
fn parse_ifz(toks: &Vec<Tok>, pos: usize) -> (r: Option<(Instr, usize)>)
    requires
        pos < toks.len(),
        sym(symbols(toks@), pos as int) == Symbol::Ifz,
    ensures
        match instr_end(symbols(toks@), pos as int) {
            Some(e) => r matches Some((found, end)) && end == e && pos < e <= toks.len()
                && symbols(toks@).subrange(pos as int, e) == instr_syms(found),
            None => r is None,
        },
    decreases toks.len() - pos, 0nat,
{
    let ghost t = symbols(toks@);
    let v = match val(toks, pos + 1) {
        Some(v) => v,
        None => {
            return None;
        },
    };
    if !token_match(toks, pos + 2, &Tok::LBrace) {
        return None;
    }
    let (on_zero, e1) = match instr(toks, pos + 3) {
        Some(found) => found,
        None => {
            return None;
        },
    };
    if !token_match(toks, e1, &Tok::RBrace) || !token_match(toks, e1 + 1, &Tok::Else)
        || !token_match(toks, e1 + 2, &Tok::LBrace) {
        return None;
    }
    let (otherwise, e2) = match instr(toks, e1 + 3) {
        Some(found) => found,
        None => {
            return None;
        },
    };
    if !token_match(toks, e2, &Tok::RBrace) {
        return None;
    }
    assert(t.subrange(pos as int, e2 + 1) =~= seq![Symbol::Ifz, val_sym(v), Symbol::LBrace]
        + t.subrange(pos + 3, e1 as int) + seq![Symbol::RBrace, Symbol::Else, Symbol::LBrace]
        + t.subrange(e1 + 3, e2 as int) + seq![Symbol::RBrace]);
    Some((Instr::IfZ(v, Box::new(on_zero), Box::new(otherwise)), e2 + 1))
}

/// Reads the block at `pos`.
fn block(toks: &Vec<Tok>, pos: usize) -> (r: Option<(Block, usize)>)
    ensures
        match block_end(symbols(toks@), pos as int) {
            Some(e) => r matches Some((found, end)) && end == e && pos < e <= toks.len()
                && symbols(toks@).subrange(pos as int, e) == block_syms(found),
            None => r is None,
        },
{
    let ghost t = symbols(toks@);
    if pos >= toks.len() || !token_match(toks, pos, &Tok::Block) {
        return None;
    }
    let address = match i32_token(toks, pos + 1) {
        Some(n) => n,
        None => {
            return None;
        },
    };
    if !token_match(toks, pos + 2, &Tok::LBrace) {
        return None;
    }
    let (body, e) = match instr(toks, pos + 3) {
        Some(found) => found,
        None => {
            return None;
        },
    };
    if !token_match(toks, e, &Tok::RBrace) {
        return None;
    }
    assert(t.subrange(pos as int, e + 1) =~= seq![
        Symbol::Block,
        Symbol::Int32(address),
        Symbol::LBrace,
    ] + t.subrange(pos + 3, e as int) + seq![Symbol::RBrace]);
    Some(((address, body), e + 1))
}


/// Whether the tokens `w` stand in `t` from position `pos` on.
pub open spec fn stands_at(w: Seq<Symbol>, t: Seq<Symbol>, pos: int) -> bool {
    0 <= pos && pos + w.len() <= t.len() && t.subrange(pos, pos + w.len()) == w
}

/// Where two runs of tokens stand one after the other, each of them stands
/// at its place.
proof fn lemma_split(a: Seq<Symbol>, b: Seq<Symbol>, t: Seq<Symbol>, pos: int)
    requires
        stands_at(a + b, t, pos),
    ensures
        stands_at(a, t, pos),
        stands_at(b, t, pos + a.len()),
{
    let w = a + b;
    let whole = t.subrange(pos, pos + w.len());
    assert forall|k: int| 0 <= k < a.len() implies t.subrange(pos, pos + a.len())[k] == a[k] by {
        assert(whole[k] == w[k]);
    }
    assert(t.subrange(pos, pos + a.len()) =~= a);
    assert forall|k: int| 0 <= k < b.len() implies t.subrange(
        pos + a.len(),
        pos + a.len() + b.len(),
    )[k] == b[k] by {
        assert(whole[a.len() + k] == w[a.len() + k]);
    }
    assert(t.subrange(pos + a.len(), pos + a.len() + b.len()) =~= b);
}

/// The tokens that stand at a place are the tokens found there one by one.
proof fn lemma_head(w: Seq<Symbol>, t: Seq<Symbol>, pos: int)
    requires
        stands_at(w, t, pos),
    ensures
        forall|k: int| 0 <= k < w.len() ==> sym(t, pos + k) == #[trigger] w[k],
{
    assert forall|k: int| 0 <= k < w.len() implies sym(t, pos + k) == #[trigger] w[k] by {
        assert(t.subrange(pos, pos + w.len())[k] == t[pos + k]);
    }
}

/// A printable item is read back from the tokens that write it.
proof fn lemma_printable_complete(p: Printable, t: Seq<Symbol>, pos: int)
    requires
        stands_at(printable_syms(p), t, pos),
    ensures
        printable_end(t, pos) == Some(pos + printable_syms(p).len()),
{
    let w = printable_syms(p);
    lemma_head(w, t, pos);
    match p {
        Printable::Id(s) => {
            assert(sym(t, pos) == w[0]);
        },
        Printable::Val(v) => {
            assert(sym(t, pos) == w[0]);
        },
        Printable::Array(start, count) => {
            assert(sym(t, pos) == w[0]);
            assert(sym(t, pos + 1) == w[1]);
            assert(sym(t, pos + 2) == w[2]);
            assert(sym(t, pos + 3) == w[3]);
            assert(sym(t, pos + 4) == w[4]);
            assert(sym(t, pos + 5) == w[5]);
        },
    }
}

/// A stem is read back from the tokens that write it.
proof fn lemma_stem_complete(stem: Stem, t: Seq<Symbol>, pos: int)
    requires
        stands_at(stem_syms(stem), t, pos),
    ensures
        stem_end(t, pos) == Some(pos + stem_syms(stem).len()),
        terminal_end(t, pos) is None,
        sym(t, pos) != Symbol::Ifz,
        0 <= pos < t.len(),
        stem_syms(stem).len() > 0,
{
    let w = stem_syms(stem);
    match stem {
        Stem::Print(p) => {
            let a = seq![Symbol::Print, Symbol::LParen];
            let b = printable_syms(p);
            let c = seq![Symbol::RParen, Symbol::Semi];
            lemma_split(a + b, c, t, pos);
            lemma_split(a, b, t, pos);
            lemma_head(a, t, pos);
            lemma_head(c, t, pos + a.len() + b.len());
            lemma_printable_complete(p, t, pos + 2);
            assert(sym(t, pos) == a[0]);
            assert(sym(t, pos + 1) == a[1]);
            let e = pos + 2 + b.len();
            assert(sym(t, e) == c[0]);
            assert(sym(t, e + 1) == c[1]);
        },
        _ => {
            lemma_head(w, t, pos);
            assert(sym(t, pos) == w[0]);
            assert(sym(t, pos + 1) == w[1]);
            assert(sym(t, pos + 2) == w[2]);
            assert(sym(t, pos + 3) == w[3]);
            if w.len() > 4 {
                assert(sym(t, pos + 4) == w[4]);
            }
            if w.len() > 5 {
                assert(sym(t, pos + 5) == w[5]);
            }
            if w.len() > 6 {
                assert(sym(t, pos + 6) == w[6]);
            }
        },
    }
}

/// The stem and the continuation that an instruction is made of, for the
/// instructions that have a continuation.
spec fn stem_of(instr: Instr) -> Option<(Stem, Instr)> {
    match instr {
        Instr::Op2(r, op, v1, v2, rest) => Some((Stem::Op2(r, op, v1, v2), *rest)),
        Instr::Copy(r, v, rest) => Some((Stem::Copy(r, v), *rest)),
        Instr::Load(r, v, rest) => Some((Stem::Load(r, v), *rest)),
        Instr::Store(r, v, rest) => Some((Stem::Store(r, v), *rest)),
        Instr::Malloc(r, v, rest) => Some((Stem::Malloc(r, v), *rest)),
        Instr::Print(p, rest) => Some((Stem::Print(p), *rest)),
        Instr::Free(r, rest) => Some((Stem::Free(r), *rest)),
        _ => None,
    }
}

/// Every instruction is read back from the tokens that write it: where
/// the rendering of an instruction stands, the grammar finds an instruction
/// of that length.
pub proof fn lemma_instr_complete(instr: Instr, t: Seq<Symbol>, pos: int)
    requires
        stands_at(instr_syms(instr), t, pos),
    ensures
        instr_end(t, pos) == Some(pos + instr_syms(instr).len()),
        instr_syms(instr).len() > 0,
    decreases instr,
{
    let w = instr_syms(instr);
    match instr {
        Instr::Goto(v) => {
            lemma_head(w, t, pos);
            assert(sym(t, pos) == w[0]);
            assert(sym(t, pos + 1) == w[1]);
            assert(sym(t, pos + 2) == w[2]);
            assert(sym(t, pos + 3) == w[3]);
            assert(sym(t, pos + 4) == w[4]);
        },
        Instr::Exit(v) => {
            lemma_head(w, t, pos);
            assert(sym(t, pos) == w[0]);
            assert(sym(t, pos + 1) == w[1]);
            assert(sym(t, pos + 2) == w[2]);
            assert(sym(t, pos + 3) == w[3]);
            assert(sym(t, pos + 4) == w[4]);
        },
        Instr::Abort() => {
            lemma_head(w, t, pos);
            assert(sym(t, pos) == w[0]);
            assert(sym(t, pos + 1) == w[1]);
        },
        Instr::IfZ(v, on_zero, otherwise) => {
            let h1 = seq![Symbol::Ifz, val_sym(v), Symbol::LBrace];
            let a = instr_syms(*on_zero);
            let h2 = seq![Symbol::RBrace, Symbol::Else, Symbol::LBrace];
            let b = instr_syms(*otherwise);
            let h3 = seq![Symbol::RBrace];
            lemma_split(h1 + a + h2 + b, h3, t, pos);
            lemma_split(h1 + a + h2, b, t, pos);
            lemma_split(h1 + a, h2, t, pos);
            lemma_split(h1, a, t, pos);
            let e1 = pos + 3 + a.len();
            let e2 = e1 + 3 + b.len();
            lemma_head(h1, t, pos);
            lemma_head(h2, t, e1);
            lemma_head(h3, t, e2);
            assert(sym(t, pos) == h1[0]);
            assert(sym(t, pos + 1) == h1[1]);
            assert(sym(t, pos + 2) == h1[2]);
            assert(sym(t, e1) == h2[0]);
            assert(sym(t, e1 + 1) == h2[1]);
            assert(sym(t, e1 + 2) == h2[2]);
            assert(sym(t, e2) == h3[0]);
            lemma_instr_complete(*on_zero, t, pos + 3);
            lemma_instr_complete(*otherwise, t, e1 + 3);
        },
        _ => {
            let (stem, rest) = stem_of(instr)->0;
            assert(w == stem_syms(stem) + instr_syms(rest));
            lemma_split(stem_syms(stem), instr_syms(rest), t, pos);
            lemma_stem_complete(stem, t, pos);
            lemma_instr_complete(rest, t, pos + stem_syms(stem).len());
        },
    }
}

/// The rendering of a list of blocks with one more block at its front.
proof fn lemma_blocks_front(b: Block, rest: Seq<Block>)
    ensures
        blocks_syms(seq![b] + rest) == block_syms(b) + blocks_syms(rest),
    decreases rest.len(),
{
    let all = seq![b] + rest;
    if rest.len() == 0 {
        assert(all.drop_last() =~= Seq::<Block>::empty());
        assert(blocks_syms(all.drop_last()) =~= Seq::<Symbol>::empty());
        assert(blocks_syms(all) =~= block_syms(b) + blocks_syms(rest));
    } else {
        assert(all.drop_last() =~= seq![b] + rest.drop_last());
        assert(all.last() == rest.last());
        lemma_blocks_front(b, rest.drop_last());
        assert(blocks_syms(all) =~= block_syms(b) + blocks_syms(rest));
    }
}

/// Every list of blocks is read back from the tokens that write it.
proof fn lemma_blocks_complete(blocks: Seq<Block>, t: Seq<Symbol>, pos: int)
    requires
        0 <= pos,
        stands_at(program_syms(blocks), t, pos),
        pos + program_syms(blocks).len() == t.len(),
    ensures
        bad_block(t, pos) is None,
    decreases blocks.len(),
{
    if blocks.len() == 0 {
        assert(blocks_syms(blocks) =~= Seq::<Symbol>::empty());
        lemma_head(program_syms(blocks), t, pos);
        assert(sym(t, pos) == program_syms(blocks)[0]);
    } else {
        let b = blocks[0];
        let rest = blocks.drop_first();
        assert(blocks =~= seq![b] + rest);
        lemma_blocks_front(b, rest);
        let w = block_syms(b);
        assert(program_syms(blocks) =~= w + program_syms(rest));
        lemma_split(w, program_syms(rest), t, pos);
        let h = seq![Symbol::Block, Symbol::Int32(b.0), Symbol::LBrace];
        let body = instr_syms(b.1);
        let close = seq![Symbol::RBrace];
        lemma_split(h + body, close, t, pos);
        lemma_split(h, body, t, pos);
        lemma_head(h, t, pos);
        lemma_head(close, t, pos + 3 + body.len());
        assert(sym(t, pos) == h[0]);
        assert(sym(t, pos + 1) == h[1]);
        assert(sym(t, pos + 2) == h[2]);
        assert(sym(t, pos + 3 + body.len()) == close[0]);
        lemma_instr_complete(b.1, t, pos + 3);
        lemma_blocks_complete(rest, t, pos + w.len());
    }
}

/// Whether two printable items are the same but for the identity of the
/// strings that hold their labels.
pub open spec fn same_printable(p: Printable, q: Printable) -> bool {
    match (p, q) {
        (Printable::Id(s), Printable::Id(u)) => s@ == u@,
        (Printable::Val(v), Printable::Val(w)) => v == w,
        (Printable::Array(a, b), Printable::Array(c, d)) => a == c && b == d,
        _ => false,
    }
}

/// Whether two instructions, with all that follows them, are the same but
/// for the identity of the strings that hold their labels.
pub open spec fn same_instr(a: Instr, b: Instr) -> bool
    decreases a,
{
    match (a, b) {
        (Instr::Goto(v), Instr::Goto(w)) => v == w,
        (Instr::Exit(v), Instr::Exit(w)) => v == w,
        (Instr::Abort(), Instr::Abort()) => true,
        (Instr::Op2(r, op, v1, v2, rest), Instr::Op2(r2, op2, w1, w2, rest2)) => r == r2 && op
            == op2 && v1 == w1 && v2 == w2 && same_instr(*rest, *rest2),
        (Instr::Copy(r, v, rest), Instr::Copy(r2, w, rest2)) => r == r2 && v == w && same_instr(
            *rest,
            *rest2,
        ),
        (Instr::Load(r, v, rest), Instr::Load(r2, w, rest2)) => r == r2 && v == w && same_instr(
            *rest,
            *rest2,
        ),
        (Instr::Store(r, v, rest), Instr::Store(r2, w, rest2)) => r == r2 && v == w && same_instr(
            *rest,
            *rest2,
        ),
        (Instr::IfZ(v, a1, a2), Instr::IfZ(w, b1, b2)) => v == w && same_instr(*a1, *b1)
            && same_instr(*a2, *b2),
        (Instr::Malloc(r, v, rest), Instr::Malloc(r2, w, rest2)) => r == r2 && v == w
            && same_instr(*rest, *rest2),
        (Instr::Print(p, rest), Instr::Print(q, rest2)) => same_printable(p, q) && same_instr(
            *rest,
            *rest2,
        ),
        (Instr::Free(r, rest), Instr::Free(r2, rest2)) => r == r2 && same_instr(*rest, *rest2),
        _ => false,
    }
}

/// What the tokens at `pos` are where the rendering of `p` stands there.
spec fn printable_reads(p: Printable, t: Seq<Symbol>, pos: int) -> bool {
    match p {
        Printable::Id(s) => sym(t, pos) == Symbol::Id(s@),
        Printable::Val(v) => sym(t, pos) == val_sym(v),
        Printable::Array(a, b) => sym(t, pos) == Symbol::Array && sym(t, pos + 2) == val_sym(a)
            && sym(t, pos + 4) == val_sym(b),
    }
}

/// What the tokens at `pos` are where the rendering of `instr` stands
/// there, and where the renderings of its parts stand.
spec fn instr_reads(instr: Instr, t: Seq<Symbol>, pos: int) -> bool {
    match instr {
        Instr::Goto(v) => sym(t, pos) == Symbol::Goto && sym(t, pos + 2) == val_sym(v),
        Instr::Exit(v) => sym(t, pos) == Symbol::Exit && sym(t, pos + 2) == val_sym(v),
        Instr::Abort() => sym(t, pos) == Symbol::Abort,
        Instr::Op2(r, op, v1, v2, rest) => sym(t, pos) == Symbol::Reg(r) && sym(t, pos + 2)
            == val_sym(v1) && sym(t, pos + 3) == Symbol::Op2(op) && sym(t, pos + 4) == val_sym(v2)
            && stands_at(instr_syms(*rest), t, pos + 6),
        Instr::Copy(r, v, rest) => sym(t, pos) == Symbol::Reg(r) && sym(t, pos + 2) == val_sym(v)
            && sym(t, pos + 3) == Symbol::Semi && stands_at(instr_syms(*rest), t, pos + 4),
        Instr::Load(r, v, rest) => sym(t, pos) == Symbol::Reg(r) && sym(t, pos + 2) == Symbol::Op2(
            Op2::Mul,
        ) && sym(t, pos + 3) == val_sym(v) && stands_at(instr_syms(*rest), t, pos + 5),
        Instr::Store(r, v, rest) => sym(t, pos) == Symbol::Op2(Op2::Mul) && sym(t, pos + 1)
            == Symbol::Reg(r) && sym(t, pos + 3) == val_sym(v) && stands_at(
            instr_syms(*rest),
            t,
            pos + 5,
        ),
        Instr::IfZ(v, on_zero, otherwise) => sym(t, pos) == Symbol::Ifz && sym(t, pos + 1)
            == val_sym(v) && stands_at(instr_syms(*on_zero), t, pos + 3) && stands_at(
            instr_syms(*otherwise),
            t,
            pos + 6 + instr_syms(*on_zero).len(),
        ),
        Instr::Malloc(r, v, rest) => sym(t, pos) == Symbol::Reg(r) && sym(t, pos + 2)
            == Symbol::Malloc && sym(t, pos + 4) == val_sym(v) && stands_at(
            instr_syms(*rest),
            t,
            pos + 7,
        ),
        Instr::Print(p, rest) => sym(t, pos) == Symbol::Print && printable_reads(p, t, pos + 2)
            && stands_at(instr_syms(*rest), t, pos + 4 + printable_syms(p).len()),
        Instr::Free(r, rest) => sym(t, pos) == Symbol::Free && sym(t, pos + 2) == Symbol::Reg(r)
            && stands_at(instr_syms(*rest), t, pos + 5),
    }
}

/// Where the rendering of an instruction stands, its tokens can be read
/// off one by one.
proof fn lemma_instr_reads(instr: Instr, t: Seq<Symbol>, pos: int)
    requires
        stands_at(instr_syms(instr), t, pos),
    ensures
        instr_reads(instr, t, pos),
{
    let w = instr_syms(instr);
    match instr {
        Instr::Goto(v) => {
            lemma_head(w, t, pos);
            assert(sym(t, pos) == w[0]);
            assert(sym(t, pos + 2) == w[2]);
        },
        Instr::Exit(v) => {
            lemma_head(w, t, pos);
            assert(sym(t, pos) == w[0]);
            assert(sym(t, pos + 2) == w[2]);
        },
        Instr::Abort() => {
            lemma_head(w, t, pos);
            assert(sym(t, pos) == w[0]);
        },
        Instr::IfZ(v, on_zero, otherwise) => {
            let h1 = seq![Symbol::Ifz, val_sym(v), Symbol::LBrace];
            let a = instr_syms(*on_zero);
            let h2 = seq![Symbol::RBrace, Symbol::Else, Symbol::LBrace];
            let b = instr_syms(*otherwise);
            let h3 = seq![Symbol::RBrace];
            lemma_split(h1 + a + h2 + b, h3, t, pos);
            lemma_split(h1 + a + h2, b, t, pos);
            lemma_split(h1 + a, h2, t, pos);
            lemma_split(h1, a, t, pos);
            lemma_head(h1, t, pos);
            assert(sym(t, pos) == h1[0]);
            assert(sym(t, pos + 1) == h1[1]);
        },
        Instr::Print(p, rest) => {
            let a = seq![Symbol::Print, Symbol::LParen];
            let b = printable_syms(p);
            let c = seq![Symbol::RParen, Symbol::Semi];
            lemma_split(a + b + c, instr_syms(*rest), t, pos);
            lemma_split(a + b, c, t, pos);
            lemma_split(a, b, t, pos);
            lemma_head(a, t, pos);
            lemma_head(b, t, pos + 2);
            assert(sym(t, pos) == a[0]);
            assert(sym(t, pos + 2) == b[0]);
            if b.len() > 1 {
                assert(sym(t, pos + 2 + 2) == b[2]);
                assert(sym(t, pos + 2 + 4) == b[4]);
            }
        },
        _ => {
            let (stem, rest) = stem_of(instr)->0;
            let h = stem_syms(stem);
            assert(w == h + instr_syms(rest));
            lemma_split(h, instr_syms(rest), t, pos);
            lemma_head(h, t, pos);
            assert(sym(t, pos) == h[0]);
            assert(sym(t, pos + 1) == h[1]);
            assert(sym(t, pos + 2) == h[2]);
            assert(sym(t, pos + 3) == h[3]);
            if h.len() > 4 {
                assert(sym(t, pos + 4) == h[4]);
            }
        },
    }
}

/// Two instructions whose renderings stand at the same place are the same
/// but for the identity of their label strings.
proof fn lemma_instr_same(a: Instr, b: Instr, t: Seq<Symbol>, pos: int)
    requires
        stands_at(instr_syms(a), t, pos),
        stands_at(instr_syms(b), t, pos),
    ensures
        same_instr(a, b),
        instr_syms(a).len() == instr_syms(b).len(),
    decreases a,
{
    lemma_instr_reads(a, t, pos);
    lemma_instr_reads(b, t, pos);
    lemma_instr_complete(a, t, pos);
    lemma_instr_complete(b, t, pos);
    match (a, b) {
        (Instr::Op2(_, _, _, _, rest), Instr::Op2(_, _, _, _, rest2)) => {
            lemma_instr_same(*rest, *rest2, t, pos + 6);
        },
        (Instr::Copy(_, _, rest), Instr::Copy(_, _, rest2)) => {
            lemma_instr_same(*rest, *rest2, t, pos + 4);
        },
        (Instr::Load(_, _, rest), Instr::Load(_, _, rest2)) => {
            lemma_instr_same(*rest, *rest2, t, pos + 5);
        },
        (Instr::Store(_, _, rest), Instr::Store(_, _, rest2)) => {
            lemma_instr_same(*rest, *rest2, t, pos + 5);
        },
        (Instr::Malloc(_, _, rest), Instr::Malloc(_, _, rest2)) => {
            lemma_instr_same(*rest, *rest2, t, pos + 7);
        },
        (Instr::Free(_, rest), Instr::Free(_, rest2)) => {
            lemma_instr_same(*rest, *rest2, t, pos + 5);
        },
        (Instr::Print(p, rest), Instr::Print(q, rest2)) => {
            assert(same_printable(p, q));
            assert(printable_syms(p).len() == printable_syms(q).len());
            lemma_instr_same(*rest, *rest2, t, pos + 4 + printable_syms(p).len());
        },
        (Instr::IfZ(_, a1, a2), Instr::IfZ(_, b1, b2)) => {
            lemma_instr_same(*a1, *b1, t, pos + 3);
            lemma_instr_same(*a2, *b2, t, pos + 6 + instr_syms(*a1).len());
        },
        _ => {},
    }
}

/// The rendering of an instruction tells the instruction: two
/// instructions that are written with the same tokens are the same but for
/// the identity of the strings that hold their labels.
pub proof fn law_rendering_injective(a: Instr, b: Instr)
    requires
        instr_syms(a) == instr_syms(b),
    ensures
        same_instr(a, b),
{
    let t = instr_syms(a);
    assert(t.subrange(0, t.len() as int) =~= t);
    lemma_instr_same(a, b, t, 0);
}

/// A token sequence that writes some list of blocks is accepted by the
/// grammar: no place in it lacks a block.
pub proof fn law_parse_complete(blocks: Seq<Block>, t: Seq<Symbol>)
    requires
        program_syms(blocks) == t,
    ensures
        bad_block(t, 0) is None,
{
    assert(t.subrange(0, t.len() as int) =~= t);
    lemma_blocks_complete(blocks, t, 0);
}

/// Whether the token at `pos` is the end marker that closes the sequence.
fn at_end(toks: &Vec<Tok>, pos: usize) -> (end: bool)
    ensures
        end == (pos == toks.len() - 1 && symbols(toks@)[pos as int] == Symbol::Eof),
{
    if toks.len() == 0 || pos != toks.len() - 1 {
        return false;
    }
    match &toks[pos] {
        Tok::Eof => true,
        _ => false,
    }
}

/// Reads a program: the text is cut into tokens, and the tokens are read as
/// a list of blocks up to the end of the text.
///
/// The result is the list of blocks that the text writes. Text in which
/// some token does not fit, and text whose tokens write no list of blocks,
/// is a parse error.
pub fn parse(input: &str) -> (r: Result<Vec<Block>, Error>)
    ensures
        match lexed(input@) {
            Err(at) => r matches Err(Error::Parse(msg)) && msg@ == lex_error_text(input@, at),
            Ok(t) => match bad_block(t, 0) {
                None => r matches Ok(blocks) && program_syms(blocks@) == t,
                Some(at) => r matches Err(Error::Parse(msg)) && msg@ == parse_error_text(at),
            },
        },
        r is Ok <==> exists|blocks: Seq<Block>| lexed(input@) == Ok::<Seq<Symbol>, int>(
            program_syms(blocks),
        ),
{
    let toks = match lex(input) {
        Ok(toks) => toks,
        Err(e) => {
            return Err(e);
        },
    };
    let ghost t = symbols(toks@);
    let mut blocks: Vec<Block> = Vec::new();
    let mut pos: usize = 0;
    assert(t.subrange(0, 0) =~= blocks_syms(blocks@));
    while !at_end(&toks, pos)
        invariant
            pos <= toks.len(),
            t == symbols(toks@),
            lexed(input@) == Ok::<Seq<Symbol>, int>(t),
            bad_block(t, 0) == bad_block(t, pos as int),
            t.subrange(0, pos as int) == blocks_syms(blocks@),
        decreases toks.len() - pos,
    {
        match block(&toks, pos) {
            Some((found, end)) => {
                proof {
                    let longer = blocks@.push(found);
                    assert(longer.drop_last() =~= blocks@);
                    assert(t.subrange(0, end as int) =~= t.subrange(0, pos as int) + t.subrange(
                        pos as int,
                        end as int,
                    ));
                }
                blocks.push(found);
                pos = end;
            },
            None => {
                proof {
                    assert forall|bs: Seq<Block>| program_syms(bs) != t by {
                        if program_syms(bs) == t {
                            law_parse_complete(bs, t);
                        }
                    }
                }
                let mut msg = String::from_str("Parse error: no block at token ");
                push_decimal(&mut msg, pos as u64);
                return Err(Error::Parse(msg));
            },
        }
    }
    proof {
        assert(t =~= t.subrange(0, pos as int) + seq![Symbol::Eof]);
        assert(lexed(input@) == Ok::<Seq<Symbol>, int>(program_syms(blocks@)));
    }
    Ok(blocks)
}

} // verus!
