//! The data model of programs: values, operators, printable items,
//! instruction chains and blocks.

use vstd::prelude::*;

verus! {

/// Index of a register in the register file.
pub type Reg = usize;

/// An operand: either a literal word or the current content of a register.
#[derive(Debug, PartialEq, Eq, Clone, Copy, Structural)]
pub enum Val {
    Reg(usize),
    Imm(i32),
}

/// A binary operator on machine words.
#[derive(Debug, PartialEq, Eq, Clone, Copy, Structural)]
pub enum Op2 {
    Add,
    Sub,
    Mul,
    Div,
    Mod,
    LT,
    Eq,
}

/// What a `print` instruction emits.
#[derive(Debug, PartialEq)]
pub enum Printable {
    /// A literal label.
    Id(String),
    /// One resolved value.
    Val(Val),
    /// A run of consecutive heap words: start address and count.
    Array(Val, Val),
}

/// One instruction together with the rest of its basic block.
///
/// Every variant that does not end the block owns its continuation, so a
/// block is a chain that ends in `Goto`, `Exit`, `Abort` or an `IfZ` whose
/// two arms are chains themselves.
#[derive(Debug, PartialEq)]
pub enum Instr {
    Goto(Val),
    Exit(Val),
    Abort(),
    Op2(Reg, Op2, Val, Val, Box<Instr>),
    Copy(Reg, Val, Box<Instr>),
    Load(Reg, Val, Box<Instr>),
    Store(Reg, Val, Box<Instr>),
    IfZ(Val, Box<Instr>, Box<Instr>),
    Malloc(Reg, Val, Box<Instr>),
    Print(Printable, Box<Instr>),
    Free(Reg, Box<Instr>),
}

/// A block: its address and the chain that starts there.
pub type Block = (i32, Instr);

} // verus!
