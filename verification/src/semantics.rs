//! The meaning of programs: a machine state as mathematical values, what
//! one instruction does to it, and what a run of many instructions does.
//!
//! A run is a sequence of steps. Each step evaluates exactly one instruction
//! against the machine and either names the instruction to go on with, or
//! ends the run with an exit value or a fault. A fault leaves the machine as
//! it was before the faulting instruction.

use crate::freelist::{carved, covered, first_fit, released, well_formed, Extent};
use crate::syntax::{Instr, Op2, Printable, Val};
use vstd::prelude::*;

verus! {

/// Why a running program was stopped.
#[derive(Clone, Copy, Debug, PartialEq, Eq, Structural)]
pub enum Fault {
    /// A load into register `reg` from an address outside the heap.
    InvalidLoad { reg: usize, addr: i32 },
    /// A store through register `reg`, which holds an address outside the heap.
    InvalidStore { reg: usize, addr: i32 },
    /// A jump to an address at which no block begins.
    InvalidJump { target: i32 },
    /// A division or a remainder with divisor zero.
    DivisionByZero,
    /// No free extent is large enough for a requested allocation.
    OutOfMemory,
    /// A release of an address that is not the base of a live allocation.
    InvalidFree { addr: i32 },
    /// The program executed `abort`.
    Abort,
    /// An instruction names a register that the machine does not have.
    InvalidRegister { reg: usize },
    /// A print of heap words that do not all lie inside the heap.
    InvalidPrint { addr: i32, count: i32 },
}

/// One item that a `print` instruction emitted.
pub enum Emitted {
    Label(Seq<char>),
    Word(i32),
    Words(Seq<i32>),
}

/// The state of the machine.
pub struct Model {
    /// The register file.
    pub registers: Seq<i32>,
    /// The heap, one word per address.
    pub heap: Seq<i32>,
    /// The free extents, in address order.
    pub free_list: Seq<Extent>,
    /// The end of the address range `[1, limit)` that the allocator manages.
    pub limit: int,
    /// The live allocations: base address to size in words.
    pub allocated: Map<usize, usize>,
    /// What the program has printed so far, oldest first.
    pub output: Seq<Emitted>,
}

/// What comes after an instruction.
pub enum Control {
    /// The run goes on with this instruction.
    Next(Instr),
    /// The run ended with this value.
    Exit(i32),
    /// The run was stopped.
    Fault(Fault),
}

/// The largest number of addresses that a machine word can name as
/// non-negative values.
pub open spec fn address_space() -> int {
    0x8000_0000
}

/// Whether the live allocation at `p` holds address `a`.
pub open spec fn owns(allocated: Map<usize, usize>, p: usize, a: int) -> bool {
    allocated.contains_key(p) && p <= a < p + allocated[p]
}

/// Whether some live allocation holds address `a`.
pub open spec fn live(allocated: Map<usize, usize>, a: int) -> bool {
    exists|p: usize| owns(allocated, p, a)
}

impl Model {
    /// The machine before the first instruction: all registers and heap
    /// words zero, no allocation, nothing printed, and every address from 1
    /// up to the end of the heap free, as far as a word can name it.
    pub open spec fn initial(heap_size: nat, num_registers: nat) -> Model {
        let limit = if heap_size <= address_space() {
            heap_size as int
        } else {
            address_space()
        };
        Model {
            registers: Seq::new(num_registers, |i: int| 0i32),
            heap: Seq::new(heap_size, |i: int| 0i32),
            free_list: if limit > 1 {
                seq![Extent { base: 1, len: (limit - 1) as usize }]
            } else {
                Seq::empty()
            },
            limit,
            allocated: Map::empty(),
            output: Seq::empty(),
        }
    }

    /// The invariant of the machine's memory: the free list is well-formed,
    /// the managed range lies inside the heap and inside what a word can
    /// name, every live allocation is a non-empty run inside the range, and
    /// each address of the range is either free or held by exactly one live
    /// allocation, never both.
    pub open spec fn wf(self) -> bool {
        &&& well_formed(self.free_list, self.limit)
        &&& 0 <= self.limit <= self.heap.len()
        &&& self.limit <= address_space()
        &&& forall|p: usize| #[trigger]
            self.allocated.contains_key(p) ==> 1 <= p && self.allocated[p] > 0 && p
                + self.allocated[p] <= self.limit
        &&& forall|p: usize, q: usize, a: int|
            #![trigger owns(self.allocated, p, a), owns(self.allocated, q, a)]
            owns(self.allocated, p, a) && owns(self.allocated, q, a) ==> p == q
        &&& forall|a: int|
            #![trigger covered(self.free_list, a)]
            #![trigger live(self.allocated, a)]
            1 <= a < self.limit ==> (covered(self.free_list, a) != live(self.allocated, a))
    }

    /// The machine with `x` in register `r`.
    pub open spec fn with_register(self, r: int, x: i32) -> Model {
        Model { registers: self.registers.update(r, x), ..self }
    }

    /// The machine with `x` at heap address `a`.
    pub open spec fn with_word(self, a: int, x: i32) -> Model {
        Model { heap: self.heap.update(a, x), ..self }
    }

    /// The machine after it printed `item`.
    pub open spec fn with_output(self, item: Emitted) -> Model {
        Model { output: self.output.push(item), ..self }
    }
}

/// The value of an operand: a literal is itself, a register reference is
/// the register's content. A register that the machine does not have is a
/// fault.
pub open spec fn read(registers: Seq<i32>, v: Val) -> Result<i32, Fault> {
    match v {
        Val::Imm(n) => Ok(n),
        Val::Reg(i) => if i < registers.len() {
            Ok(registers[i as int])
        } else {
            Err(Fault::InvalidRegister { reg: i })
        },
    }
}

/// The 32-bit two's-complement word that is congruent to `x` modulo 2^32.
pub open spec fn wrap(x: int) -> i32 {
    let r = x % 0x1_0000_0000;
    if r >= 0x8000_0000 {
        (r - 0x1_0000_0000) as i32
    } else {
        r as i32
    }
}

/// The quotient of `m` by `n` rounded toward zero, for `n != 0`.
pub open spec fn quotient(m: int, n: int) -> int {
    let q = (if m < 0 {
        -m
    } else {
        m
    }) / (if n < 0 {
        -n
    } else {
        n
    });
    if (m < 0) == (n < 0) {
        q
    } else {
        -q
    }
}

/// The remainder that goes with `quotient`: it has the sign of `m`.
pub open spec fn remainder(m: int, n: int) -> int {
    m - n * quotient(m, n)
}

/// The result of a binary operator on two words. Sums, differences,
/// products and quotients that do not fit a word wrap around; comparisons
/// give 1 for true and 0 for false; a zero divisor is a fault.
pub open spec fn apply(op: Op2, m: i32, n: i32) -> Result<i32, Fault> {
    match op {
        Op2::Add => Ok(wrap(m + n)),
        Op2::Sub => Ok(wrap(m - n)),
        Op2::Mul => Ok(wrap(m * n)),
        Op2::Div => if n == 0 {
            Err(Fault::DivisionByZero)
        } else {
            Ok(wrap(quotient(m as int, n as int)))
        },
        Op2::Mod => if n == 0 {
            Err(Fault::DivisionByZero)
        } else {
            Ok(wrap(remainder(m as int, n as int)))
        },
        Op2::LT => Ok(if m < n {
            1i32
        } else {
            0i32
        }),
        Op2::Eq => Ok(if m == n {
            1i32
        } else {
            0i32
        }),
    }
}

/// The machine stopped by fault `f`, unchanged.
pub open spec fn stop(m: Model, f: Fault) -> (Model, Control) {
    (m, Control::Fault(f))
}

/// Writes `x` to register `r` and goes on with `rest`.
pub open spec fn assign(m: Model, r: usize, x: i32, rest: Instr) -> (Model, Control) {
    if r < m.registers.len() {
        (m.with_register(r as int, x), Control::Next(rest))
    } else {
        stop(m, Fault::InvalidRegister { reg: r })
    }
}

/// `r = v`
pub open spec fn step_copy(m: Model, r: usize, v: Val, rest: Instr) -> (Model, Control) {
    match read(m.registers, v) {
        Ok(x) => assign(m, r, x, rest),
        Err(f) => stop(m, f),
    }
}

/// `r = v1 op v2`
pub open spec fn step_op2(m: Model, r: usize, op: Op2, v1: Val, v2: Val, rest: Instr) -> (
    Model,
    Control,
) {
    match read(m.registers, v1) {
        Ok(a) => match read(m.registers, v2) {
            Ok(b) => match apply(op, a, b) {
                Ok(x) => assign(m, r, x, rest),
                Err(f) => stop(m, f),
            },
            Err(f) => stop(m, f),
        },
        Err(f) => stop(m, f),
    }
}

/// `r = *v`
pub open spec fn step_load(m: Model, r: usize, v: Val, rest: Instr) -> (Model, Control) {
    match read(m.registers, v) {
        Ok(a) => if 0 <= a < m.heap.len() {
            assign(m, r, m.heap[a as int], rest)
        } else {
            stop(m, Fault::InvalidLoad { reg: r, addr: a })
        },
        Err(f) => stop(m, f),
    }
}

/// `*r = v`
pub open spec fn step_store(m: Model, r: usize, v: Val, rest: Instr) -> (Model, Control) {
    match read(m.registers, Val::Reg(r)) {
        Ok(a) => if 0 <= a < m.heap.len() {
            match read(m.registers, v) {
                Ok(x) => (m.with_word(a as int, x), Control::Next(rest)),
                Err(f) => stop(m, f),
            }
        } else {
            stop(m, Fault::InvalidStore { reg: r, addr: a })
        },
        Err(f) => stop(m, f),
    }
}

/// `goto(v)`
pub open spec fn step_goto(env: Map<i32, Instr>, m: Model, v: Val) -> (Model, Control) {
    match read(m.registers, v) {
        Ok(target) => if env.contains_key(target) {
            (m, Control::Next(env[target]))
        } else {
            stop(m, Fault::InvalidJump { target })
        },
        Err(f) => stop(m, f),
    }
}

/// `ifz v { on_zero } else { otherwise }`
pub open spec fn step_ifz(m: Model, v: Val, on_zero: Instr, otherwise: Instr) -> (Model, Control) {
    match read(m.registers, v) {
        Ok(x) => (m, Control::Next(if x == 0 {
            on_zero
        } else {
            otherwise
        })),
        Err(f) => stop(m, f),
    }
}

/// `r = malloc(v)`
pub open spec fn step_malloc(m: Model, r: usize, v: Val, rest: Instr) -> (Model, Control) {
    match read(m.registers, v) {
        Ok(n) => if r >= m.registers.len() {
            stop(m, Fault::InvalidRegister { reg: r })
        } else if n == 0 {
            (m.with_register(r as int, 0), Control::Next(rest))
        } else if n < 0 {
            stop(m, Fault::OutOfMemory)
        } else {
            match first_fit(m.free_list, n as int) {
                Some(k) => {
                    let base = m.free_list[k].base;
                    (
                        Model {
                            registers: m.registers.update(r as int, base as i32),
                            free_list: carved(m.free_list, k, n as int),
                            allocated: m.allocated.insert(base, n as usize),
                            ..m
                        },
                        Control::Next(rest),
                    )
                },
                None => stop(m, Fault::OutOfMemory),
            }
        },
        Err(f) => stop(m, f),
    }
}

/// `free(r)`
pub open spec fn step_free(m: Model, r: usize, rest: Instr) -> (Model, Control) {
    match read(m.registers, Val::Reg(r)) {
        Ok(p) => if p >= 0 && m.allocated.contains_key(p as usize) {
            (
                Model {
                    free_list: released(
                        m.free_list,
                        m.limit,
                        p as int,
                        m.allocated[p as usize] as int,
                    ),
                    allocated: m.allocated.remove(p as usize),
                    ..m
                },
                Control::Next(rest),
            )
        } else {
            stop(m, Fault::InvalidFree { addr: p })
        },
        Err(f) => stop(m, f),
    }
}

/// What a printable item stands for in machine `m`: a label is its text, a
/// value is its word, and a run of heap words is those words, which must
/// all lie inside the heap.
pub open spec fn emitted(m: Model, p: Printable) -> Result<Emitted, Fault> {
    match p {
        Printable::Id(s) => Ok(Emitted::Label(s@)),
        Printable::Val(v) => match read(m.registers, v) {
            Ok(x) => Ok(Emitted::Word(x)),
            Err(f) => Err(f),
        },
        Printable::Array(start, count) => match read(m.registers, start) {
            Ok(a) => match read(m.registers, count) {
                Ok(n) => if 0 <= a && 0 <= n && a + n <= m.heap.len() {
                    Ok(Emitted::Words(m.heap.subrange(a as int, a + n)))
                } else {
                    Err(Fault::InvalidPrint { addr: a, count: n })
                },
                Err(f) => Err(f),
            },
            Err(f) => Err(f),
        },
    }
}

/// `print(p)`
pub open spec fn step_print(m: Model, p: Printable, rest: Instr) -> (Model, Control) {
    match emitted(m, p) {
        Ok(item) => (m.with_output(item), Control::Next(rest)),
        Err(f) => stop(m, f),
    }
}

/// `exit(v)`
pub open spec fn step_exit(m: Model, v: Val) -> (Model, Control) {
    match read(m.registers, v) {
        Ok(x) => (m, Control::Exit(x)),
        Err(f) => stop(m, f),
    }
}

/// The machine and the control after instruction `instr` was evaluated in
/// machine `m`, with the blocks of `env` as jump targets.
pub open spec fn step(env: Map<i32, Instr>, m: Model, instr: Instr) -> (Model, Control) {
    match instr {
        Instr::Copy(r, v, rest) => step_copy(m, r, v, *rest),
        Instr::Op2(r, op, v1, v2, rest) => step_op2(m, r, op, v1, v2, *rest),
        Instr::Load(r, v, rest) => step_load(m, r, v, *rest),
        Instr::Store(r, v, rest) => step_store(m, r, v, *rest),
        Instr::Goto(v) => step_goto(env, m, v),
        Instr::IfZ(v, on_zero, otherwise) => step_ifz(m, v, *on_zero, *otherwise),
        Instr::Malloc(r, v, rest) => step_malloc(m, r, v, *rest),
        Instr::Free(r, rest) => step_free(m, r, *rest),
        Instr::Print(p, rest) => step_print(m, p, *rest),
        Instr::Exit(v) => step_exit(m, v),
        Instr::Abort() => stop(m, Fault::Abort),
    }
}

/// The machine and the control after at most `fuel` steps from control `c`
/// in machine `m`: the run ends before that when it reaches an exit or a
/// fault, and is still under way if `fuel` steps do not reach one.
pub open spec fn run(env: Map<i32, Instr>, m: Model, c: Control, fuel: nat) -> (Model, Control)
    decreases fuel,
{
    match c {
        Control::Next(instr) => if fuel == 0 {
            (m, c)
        } else {
            let (m1, c1) = step(env, m, instr);
            run(env, m1, c1, (fuel - 1) as nat)
        },
        _ => (m, c),
    }
}

} // verus!
