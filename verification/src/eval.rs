//! The interpreter: the machine state, the evaluation of one instruction,
//! bounded runs, and the evaluation of a whole program.

use crate::error::Error;
use crate::freelist::{carved, first_fit, free, malloc, Extent, FreeList};
use crate::laws::{lemma_free_wf, lemma_malloc_wf, lemma_wf_frame};
use crate::semantics::{
    apply, emitted, live, read, remainder, run, step, Control, Emitted, Fault, Model,
};
use crate::syntax::{Instr, Op2, Printable, Val};
use std::collections::HashMap;
use vstd::prelude::*;
use vstd::string::*;

verus! {

broadcast use vstd::std_specs::hash::group_hash_axioms;

/// Resolves an operand against the register file.
pub fn eval_val(reg: &[i32], v: &Val) -> (r: Result<i32, Fault>)
    ensures
        r == read(reg@, *v),
{
    match v {
        Val::Imm(n) => Ok(*n),
        Val::Reg(i) => if *i < reg.len() {
            Ok(reg[*i])
        } else {
            Err(Fault::InvalidRegister { reg: *i })
        },
    }
}

/// Applies a binary operator to two words.
pub fn eval_op2(op2: &Op2, m: i32, n: i32) -> (r: Result<i32, Fault>)
    ensures
        r == apply(*op2, m, n),
{
    match op2 {
        Op2::Add => Ok(m.wrapping_add(n)),
        Op2::Sub => Ok(m.wrapping_sub(n)),
        Op2::Mul => Ok(m.wrapping_mul(n)),
        Op2::Div => {
            if n == 0 {
                Err(Fault::DivisionByZero)
            } else {
                proof {
                    lemma_quotient_bounds(m as int, n as int);
                }
                match m.checked_div(n) {
                    Some(q) => Ok(q),
                    None => Ok(i32::MIN),
                }
            }
        },
        Op2::Mod => {
            if n == 0 {
                Err(Fault::DivisionByZero)
            } else {
                proof {
                    lemma_remainder_cases(m as int, n as int);
                }
                match m.checked_rem(n) {
                    Some(r) => Ok(r),
                    None => Ok(0),
                }
            }
        },
        Op2::LT => Ok(if m < n {
            1
        } else {
            0
        }),
        Op2::Eq => Ok(if m == n {
            1
        } else {
            0
        }),
    }
}

/// The quotient of the magnitudes of a dividend and a divisor is no larger
/// than the magnitude of the dividend.
proof fn lemma_quotient_bounds(m: int, n: int)
    requires
        n != 0,
    ensures
        m >= 0 ==> 0 <= m / (if n < 0 {
            -n
        } else {
            n
        }) <= m,
        m < 0 ==> 0 <= (-m) / (if n < 0 {
            -n
        } else {
            n
        }) <= -m,
{
    let d = if n < 0 {
        -n
    } else {
        n
    };
    let a = if m < 0 {
        -m
    } else {
        m
    };
    assert(0 <= a / d <= a) by (nonlinear_arith)
        requires
            a >= 0,
            d >= 1,
    ;
}

/// The remainder that goes with the quotient rounded toward zero is the
/// remainder of the magnitudes with the sign of the dividend.
proof fn lemma_remainder_cases(m: int, n: int)
    requires
        n != 0,
    ensures
        m >= 0 ==> remainder(m, n) == m % (if n < 0 {
            -n
        } else {
            n
        }),
        m < 0 ==> remainder(m, n) == -((-m) % (if n < 0 {
            -n
        } else {
            n
        })),
        -(if n < 0 {
            -n
        } else {
            n
        }) < remainder(m, n) < (if n < 0 {
            -n
        } else {
            n
        }),
{
    let d = if n < 0 {
        -n
    } else {
        n
    };
    let a = if m < 0 {
        -m
    } else {
        m
    };
    assert(a == d * (a / d) + a % d && 0 <= a % d < d) by (nonlinear_arith)
        requires
            a >= 0,
            d >= 1,
    ;
    let q = a / d;
    if n < 0 {
        assert(n * q == -(d * q)) by (nonlinear_arith)
            requires
                d == -n,
        ;
        assert(n * (-q) == d * q) by (nonlinear_arith)
            requires
                d == -n,
        ;
    } else {
        assert(n * (-q) == -(d * q)) by (nonlinear_arith)
            requires
                d == n,
        ;
    }
}

/// One item that a `print` instruction emitted, ready to be shown.
#[derive(Debug, PartialEq)]
pub enum Output {
    /// The text of a label.
    Label(String),
    /// The word that a value stood for.
    Word(i32),
    /// A run of consecutive heap words.
    Words(Vec<i32>),
}

impl View for Output {
    type V = Emitted;

    open spec fn view(&self) -> Emitted {
        match self {
            Output::Label(s) => Emitted::Label(s@),
            Output::Word(x) => Emitted::Word(*x),
            Output::Words(w) => Emitted::Words(w@),
        }
    }
}

/// Where a run stands: at an instruction, or at its end.
#[derive(Debug)]
pub enum Status<'a> {
    /// The run goes on with this instruction.
    Running(&'a Instr),
    /// The run ended with this value.
    Exited(i32),
    /// The run was stopped.
    Faulted(Fault),
}

impl<'a> View for Status<'a> {
    type V = Control;

    open spec fn view(&self) -> Control {
        match self {
            Status::Running(instr) => Control::Next(**instr),
            Status::Exited(x) => Control::Exit(*x),
            Status::Faulted(f) => Control::Fault(*f),
        }
    }
}

/// The views of a sequence of emitted items.
pub open spec fn views(items: Seq<Output>) -> Seq<Emitted> {
    Seq::new(items.len(), |i: int| items[i]@)
}

/// The state of one machine: registers, heap, free list, the table of live
/// allocations and the items printed and not yet taken.
pub struct State {
    heap: Vec<i32>,
    registers: Vec<i32>,
    free_list: FreeList,
    alloc_blocks: HashMap<usize, usize>,
    output: Vec<Output>,
}

impl View for State {
    type V = Model;

    closed spec fn view(&self) -> Model {
        Model {
            registers: self.registers@,
            heap: self.heap@,
            free_list: self.free_list@,
            limit: self.free_list.limit(),
            allocated: self.alloc_blocks@,
            output: views(self.output@),
        }
    }
}

impl State {
    /// The invariant of the machine's memory.
    pub open spec fn wf(&self) -> bool {
        self@.wf()
    }

    /// A machine with `heap_size` heap words and `num_registers` registers,
    /// all zero, and with every heap address but the null address free.
    pub fn new(heap_size: usize, num_registers: usize) -> (st: State)
        ensures
            st.wf(),
            st@ == Model::initial(heap_size as nat, num_registers as nat),
    {
        let limit: usize = if heap_size <= 0x8000_0000 {
            heap_size
        } else {
            0x8000_0000
        };
        let st = State {
            heap: vec![0i32; heap_size],
            registers: vec![0i32; num_registers],
            free_list: FreeList::new(limit),
            alloc_blocks: HashMap::new(),
            output: Vec::new(),
        };
        proof {
            let m = Model::initial(heap_size as nat, num_registers as nat);
            assert(st@.registers =~= m.registers);
            assert(st@.heap =~= m.heap);
            assert(st@.output =~= m.output);
            assert(st@.allocated =~= m.allocated);
            assert(st@.free_list == m.free_list);
            lemma_initial_wf(heap_size as nat, num_registers as nat);
        }
        st
    }

    /// The content of register `r`, if the machine has that register.
    pub fn register(&self, r: usize) -> (x: Option<i32>)
        ensures
            x == (if r < self@.registers.len() {
                Some(self@.registers[r as int])
            } else {
                None
            }),
    {
        if r < self.registers.len() {
            Some(self.registers[r])
        } else {
            None
        }
    }

    /// The heap word at address `a`, if the heap has that address.
    pub fn word(&self, a: usize) -> (x: Option<i32>)
        ensures
            x == (if a < self@.heap.len() {
                Some(self@.heap[a as int])
            } else {
                None
            }),
    {
        if a < self.heap.len() {
            Some(self.heap[a])
        } else {
            None
        }
    }

    /// The free extents, in address order.
    pub fn free_extents(&self) -> (extents: Vec<Extent>)
        ensures
            extents@ == self@.free_list,
    {
        self.free_list.extents()
    }

    /// The size of the live allocation whose base is `ptr`, if there is one.
    pub fn allocation(&self, ptr: usize) -> (size: Option<usize>)
        ensures
            size == (if self@.allocated.contains_key(ptr) {
                Some(self@.allocated[ptr])
            } else {
                None
            }),
    {
        match self.alloc_blocks.get(&ptr) {
            Some(n) => Some(*n),
            None => None,
        }
    }

    /// Hands out what the program printed since the last call, oldest first.
    pub fn take_output(&mut self) -> (items: Vec<Output>)
        ensures
            views(items@) == old(self)@.output,
            final(self)@ == (Model { output: Seq::empty(), ..old(self)@ }),
    {
        let mut items: Vec<Output> = Vec::new();
        std::mem::swap(&mut self.output, &mut items);
        assert(views(self.output@) =~= Seq::<Emitted>::empty());
        items
    }

    /// Writes `x` to register `r` and goes on with `rest`.
    fn assign<'a>(&mut self, r: usize, x: i32, rest: &'a Instr) -> (next: Status<'a>)
        ensures
            (final(self)@, next@) == crate::semantics::assign(old(self)@, r, x, *rest),
            old(self).wf() ==> final(self).wf(),
    {
        if r < self.registers.len() {
            self.registers.set(r, x);
            Status::Running(rest)
        } else {
            Status::Faulted(Fault::InvalidRegister { reg: r })
        }
    }
}

impl State {
    /// `r = v`
    fn step_copy<'a>(&mut self, r: usize, v: &Val, rest: &'a Instr) -> (next: Status<'a>)
        requires
            old(self).wf(),
        ensures
            final(self).wf(),
            (final(self)@, next@) == crate::semantics::step_copy(old(self)@, r, *v, *rest),
    {
        match eval_val(self.registers.as_slice(), v) {
            Ok(x) => self.assign(r, x, rest),
            Err(f) => Status::Faulted(f),
        }
    }

    /// `r = v1 op v2`
    fn step_op2<'a>(&mut self, r: usize, op: &Op2, v1: &Val, v2: &Val, rest: &'a Instr) -> (next:
        Status<'a>)
        requires
            old(self).wf(),
        ensures
            final(self).wf(),
            (final(self)@, next@) == crate::semantics::step_op2(
                old(self)@,
                r,
                *op,
                *v1,
                *v2,
                *rest,
            ),
    {
        let a = match eval_val(self.registers.as_slice(), v1) {
            Ok(a) => a,
            Err(f) => {
                return Status::Faulted(f);
            },
        };
        let b = match eval_val(self.registers.as_slice(), v2) {
            Ok(b) => b,
            Err(f) => {
                return Status::Faulted(f);
            },
        };
        match eval_op2(op, a, b) {
            Ok(x) => self.assign(r, x, rest),
            Err(f) => Status::Faulted(f),
        }
    }

    /// `r = *v`
    fn step_load<'a>(&mut self, r: usize, v: &Val, rest: &'a Instr) -> (next: Status<'a>)
        requires
            old(self).wf(),
        ensures
            final(self).wf(),
            (final(self)@, next@) == crate::semantics::step_load(old(self)@, r, *v, *rest),
    {
        let a = match eval_val(self.registers.as_slice(), v) {
            Ok(a) => a,
            Err(f) => {
                return Status::Faulted(f);
            },
        };
        if a < 0 || a as usize >= self.heap.len() {
            return Status::Faulted(Fault::InvalidLoad { reg: r, addr: a });
        }
        let x = self.heap[a as usize];
        self.assign(r, x, rest)
    }

    /// `*r = v`
    fn step_store<'a>(&mut self, r: usize, v: &Val, rest: &'a Instr) -> (next: Status<'a>)
        requires
            old(self).wf(),
        ensures
            final(self).wf(),
            (final(self)@, next@) == crate::semantics::step_store(old(self)@, r, *v, *rest),
    {
        if r >= self.registers.len() {
            return Status::Faulted(Fault::InvalidRegister { reg: r });
        }
        let a = self.registers[r];
        if a < 0 || a as usize >= self.heap.len() {
            return Status::Faulted(Fault::InvalidStore { reg: r, addr: a });
        }
        match eval_val(self.registers.as_slice(), v) {
            Ok(x) => {
                self.heap.set(a as usize, x);
                Status::Running(rest)
            },
            Err(f) => Status::Faulted(f),
        }
    }

    /// `goto(v)`
    fn step_goto<'a>(&self, env: &'a HashMap<i32, Instr>, v: &Val) -> (next: Status<'a>)
        ensures
            (self@, next@) == crate::semantics::step_goto(env@, self@, *v),
    {
        let target = match eval_val(self.registers.as_slice(), v) {
            Ok(target) => target,
            Err(f) => {
                return Status::Faulted(f);
            },
        };
        match env.get(&target) {
            Some(instr) => Status::Running(instr),
            None => Status::Faulted(Fault::InvalidJump { target }),
        }
    }

    /// `ifz v { on_zero } else { otherwise }`
    fn step_ifz<'a>(&self, v: &Val, on_zero: &'a Instr, otherwise: &'a Instr) -> (next: Status<
        'a,
    >)
        ensures
            (self@, next@) == crate::semantics::step_ifz(self@, *v, *on_zero, *otherwise),
    {
        match eval_val(self.registers.as_slice(), v) {
            Ok(x) => if x == 0 {
                Status::Running(on_zero)
            } else {
                Status::Running(otherwise)
            },
            Err(f) => Status::Faulted(f),
        }
    }

    /// `exit(v)`
    fn step_exit<'a>(&self, v: &Val) -> (next: Status<'a>)
        ensures
            (self@, next@) == crate::semantics::step_exit(self@, *v),
    {
        match eval_val(self.registers.as_slice(), v) {
            Ok(x) => Status::Exited(x),
            Err(f) => Status::Faulted(f),
        }
    }

    /// `r = malloc(v)`
    fn step_malloc<'a>(&mut self, r: usize, v: &Val, rest: &'a Instr) -> (next: Status<'a>)
        requires
            old(self).wf(),
        ensures
            final(self).wf(),
            (final(self)@, next@) == crate::semantics::step_malloc(old(self)@, r, *v, *rest),
    {
        let n = match eval_val(self.registers.as_slice(), v) {
            Ok(n) => n,
            Err(f) => {
                return Status::Faulted(f);
            },
        };
        if r >= self.registers.len() {
            return Status::Faulted(Fault::InvalidRegister { reg: r });
        }
        if n == 0 {
            self.registers.set(r, 0);
            return Status::Running(rest);
        }
        if n < 0 {
            return Status::Faulted(Fault::OutOfMemory);
        }
        let size = n as usize;
        proof {
            let m = self@;
            if first_fit(m.free_list, size as int) is Some {
                let k = first_fit(m.free_list, size as int)->0;
                lemma_malloc_wf(m, size as int, k);
            }
        }
        match malloc(&mut self.free_list, size) {
            Some(ptr) => {
                self.registers.set(r, ptr as i32);
                self.alloc_blocks.insert(ptr, size);
                proof {
                    let m = old(self)@;
                    let k = first_fit(m.free_list, size as int)->0;
                    lemma_wf_frame(
                        Model {
                            free_list: carved(m.free_list, k, size as int),
                            allocated: m.allocated.insert(ptr, size),
                            ..m
                        },
                        self@,
                    );
                }
                Status::Running(rest)
            },
            None => Status::Faulted(Fault::OutOfMemory),
        }
    }

    /// `free(r)`
    fn step_free<'a>(&mut self, r: usize, rest: &'a Instr) -> (next: Status<'a>)
        requires
            old(self).wf(),
        ensures
            final(self).wf(),
            (final(self)@, next@) == crate::semantics::step_free(old(self)@, r, *rest),
    {
        if r >= self.registers.len() {
            return Status::Faulted(Fault::InvalidRegister { reg: r });
        }
        let p = self.registers[r];
        if p < 0 {
            return Status::Faulted(Fault::InvalidFree { addr: p });
        }
        let ptr = p as usize;
        let size = match self.alloc_blocks.get(&ptr) {
            Some(size) => *size,
            None => {
                return Status::Faulted(Fault::InvalidFree { addr: p });
            },
        };
        proof {
            lemma_free_wf(self@, ptr);
        }
        let released = free(&mut self.free_list, ptr, size);
        assert(released);
        self.alloc_blocks.remove(&ptr);
        Status::Running(rest)
    }

    /// Resolves a printable item against the registers and the heap.
    fn resolve(&self, p: &Printable) -> (item: Result<Output, Fault>)
        ensures
            match item {
                Ok(out) => emitted(self@, *p) == Ok::<Emitted, Fault>(out@),
                Err(f) => emitted(self@, *p) == Err::<Emitted, Fault>(f),
            },
    {
        match p {
            Printable::Id(s) => Ok(Output::Label(s.clone())),
            Printable::Val(v) => match eval_val(self.registers.as_slice(), v) {
                Ok(x) => Ok(Output::Word(x)),
                Err(f) => Err(f),
            },
            Printable::Array(start, count) => {
                let a = match eval_val(self.registers.as_slice(), start) {
                    Ok(a) => a,
                    Err(f) => {
                        return Err(f);
                    },
                };
                let n = match eval_val(self.registers.as_slice(), count) {
                    Ok(n) => n,
                    Err(f) => {
                        return Err(f);
                    },
                };
                if a < 0 || n < 0 || a as usize > self.heap.len() || n as usize > self.heap.len()
                    - a as usize {
                    return Err(Fault::InvalidPrint { addr: a, count: n });
                }
                let first = a as usize;
                let len = n as usize;
                let mut words: Vec<i32> = Vec::new();
                let mut i: usize = 0;
                while i < len
                    invariant
                        i <= len,
                        first + len <= self.heap.len(),
                        words@ == self.heap@.subrange(first as int, first + i),
                    decreases len - i,
                {
                    words.push(self.heap[first + i]);
                    i += 1;
                    assert(words@ =~= self.heap@.subrange(first as int, first + i));
                }
                Ok(Output::Words(words))
            },
        }
    }

    /// `print(p)`
    fn step_print<'a>(&mut self, p: &Printable, rest: &'a Instr) -> (next: Status<'a>)
        requires
            old(self).wf(),
        ensures
            final(self).wf(),
            (final(self)@, next@) == crate::semantics::step_print(old(self)@, *p, *rest),
    {
        match self.resolve(p) {
            Ok(item) => {
                self.output.push(item);
                assert(views(self.output@) =~= views(old(self).output@).push(item@));
                Status::Running(rest)
            },
            Err(f) => Status::Faulted(f),
        }
    }

    /// Evaluates one instruction: changes the machine as the instruction
    /// says and tells what comes next. A fault leaves the machine as it was.
    pub fn step<'a>(&mut self, env: &'a HashMap<i32, Instr>, instr: &'a Instr) -> (next: Status<
        'a,
    >)
        requires
            old(self).wf(),
        ensures
            final(self).wf(),
            (final(self)@, next@) == step(env@, old(self)@, *instr),
    {
        match instr {
            Instr::Copy(r, v, rest) => self.step_copy(*r, v, rest),
            Instr::Op2(r, op, v1, v2, rest) => self.step_op2(*r, op, v1, v2, rest),
            Instr::Load(r, v, rest) => self.step_load(*r, v, rest),
            Instr::Store(r, v, rest) => self.step_store(*r, v, rest),
            Instr::Goto(v) => self.step_goto(env, v),
            Instr::IfZ(v, on_zero, otherwise) => self.step_ifz(v, on_zero, otherwise),
            Instr::Malloc(r, v, rest) => self.step_malloc(*r, v, rest),
            Instr::Free(r, rest) => self.step_free(*r, rest),
            Instr::Print(p, rest) => self.step_print(p, rest),
            Instr::Exit(v) => self.step_exit(v),
            Instr::Abort() => Status::Faulted(Fault::Abort),
        }
    }

    /// Evaluates instructions from `start` on until the program exits or
    /// faults, but no more than `fuel` of them. The result `Running` names
    /// the instruction at which a run that is not yet over goes on.
    pub fn run<'a>(&mut self, env: &'a HashMap<i32, Instr>, start: &'a Instr, fuel: u64) -> (end:
        Status<'a>)
        requires
            old(self).wf(),
        ensures
            final(self).wf(),
            (final(self)@, end@) == run(env@, old(self)@, Control::Next(*start), fuel as nat),
    {
        let ghost begin = self@;
        let mut cursor: &'a Instr = start;
        let mut left: u64 = fuel;
        while left > 0
            invariant
                self.wf(),
                begin == old(self)@,
                run(env@, begin, Control::Next(*start), fuel as nat) == run(
                    env@,
                    self@,
                    Control::Next(*cursor),
                    left as nat,
                ),
            decreases left,
        {
            let ghost before = self@;
            let next = self.step(env, cursor);
            assert(run(env@, before, Control::Next(*cursor), left as nat) == run(
                env@,
                self@,
                next@,
                (left - 1) as nat,
            ));
            match next {
                Status::Running(instr) => {
                    cursor = instr;
                    left -= 1;
                },
                Status::Exited(x) => {
                    assert(run(env@, self@, Control::Exit(x), (left - 1) as nat) == (
                        self@,
                        Control::Exit(x),
                    ));
                    return Status::Exited(x);
                },
                Status::Faulted(f) => {
                    assert(run(env@, self@, Control::Fault(f), (left - 1) as nat) == (
                        self@,
                        Control::Fault(f),
                    ));
                    return Status::Faulted(f);
                },
            }
        }
        Status::Running(cursor)
    }
}

/// The number of instructions after which `eval` gives a run up.
pub const STEP_LIMIT: u64 = 0xffff_ffff_ffff_ffff;

/// Whether `r` is the result that is owed for a run that ended in, or was
/// cut off at, control `c`: the exit value, or a run-time error with the
/// message of the fault, or a run-time error that tells of the step limit.
pub open spec fn reports(r: Result<i32, Error>, c: Control) -> bool {
    match c {
        Control::Exit(x) => r matches Ok(v) && v == x,
        Control::Fault(f) => r matches Err(Error::Runtime(msg)) && msg@ == f.text(),
        Control::Next(_) => r matches Err(Error::Runtime(msg)) && msg@ == "step limit reached"@,
    }
}

/// Whether `r` is the result that is owed for the program `blocks` on a
/// fresh machine of the given size: a usage error where no block begins at
/// address 0, and otherwise what the run from that block reports.
pub open spec fn evaluates(
    blocks: Map<i32, Instr>,
    heap_size: nat,
    num_registers: nat,
    r: Result<i32, Error>,
) -> bool {
    if blocks.contains_key(0) {
        reports(
            r,
            run(
                blocks,
                Model::initial(heap_size, num_registers),
                Control::Next(blocks[0]),
                STEP_LIMIT as nat,
            ).1,
        )
    } else {
        r matches Err(Error::Usage(msg)) && msg@ == "Expected block 0"@
    }
}

/// Runs the program `blocks` from the block at address 0 on a fresh machine
/// with `heap_size` heap words and `num_registers` registers.
///
/// The result is the value of the `exit` that ends the run, or a run-time
/// error for the fault that stops it. A program without a block at address
/// 0 is not run at all. What the program prints is dropped; a run that has
/// not ended after `STEP_LIMIT` instructions is given up.
pub fn eval(heap_size: usize, num_registers: usize, blocks: HashMap<i32, Instr>) -> (r: Result<
    i32,
    Error,
>)
    ensures
        evaluates(blocks@, heap_size as nat, num_registers as nat, r),
{
    let mut st = State::new(heap_size, num_registers);
    let zero: i32 = 0;
    match blocks.get(&zero) {
        None => Err(Error::Usage(String::from_str("Expected block 0"))),
        Some(instr) => match st.run(&blocks, instr, STEP_LIMIT) {
            Status::Exited(x) => Ok(x),
            Status::Faulted(f) => Err(Error::Runtime(f.message())),
            Status::Running(_) => Err(Error::Runtime(String::from_str("step limit reached"))),
        },
    }
}

/// The machine before the first instruction satisfies the invariant.
pub proof fn lemma_initial_wf(heap_size: nat, num_registers: nat)
    requires
        heap_size <= usize::MAX,
    ensures
        Model::initial(heap_size, num_registers).wf(),
{
    let m = Model::initial(heap_size, num_registers);
    assert forall|a: int| 1 <= a < m.limit implies (crate::freelist::covered(m.free_list, a)
        != live(m.allocated, a)) by {
        assert(m.free_list[0].covers(a));
    }
}

} // verus!
