//! What holds of every machine and every program: the memory invariant and
//! the behaviour of the instructions, proved from the semantics.

use crate::error::Error;
use crate::eval::{evaluates, STEP_LIMIT};
use crate::freelist::{
    can_release, carved, covered, first_fit, free_set, is_first_fit, lemma_canonical,
    lemma_carved, lemma_released, released, span, Extent,
};
use crate::semantics::{
    apply, live, owns, read, run, step, step_free, step_malloc, Control, Fault, Model,
};
use crate::syntax::{Instr, Op2, Val};
use vstd::prelude::*;

verus! {

/// The memory invariant speaks of the free list, the table of allocations
/// and the size of the heap alone: machines that agree in these satisfy it
/// together.
pub proof fn lemma_wf_frame(m: Model, other: Model)
    requires
        m.wf(),
        other.free_list == m.free_list,
        other.limit == m.limit,
        other.allocated == m.allocated,
        other.heap.len() == m.heap.len(),
    ensures
        other.wf(),
{
}

/// An allocation keeps the memory invariant: when extent `k` is the first
/// fit for `n` words, the words it gives up lie inside the managed range,
/// no live allocation begins at its base, and the machine with the extent
/// carved and the new allocation recorded satisfies the invariant.
pub proof fn lemma_malloc_wf(m: Model, n: int, k: int)
    requires
        m.wf(),
        0 < n,
        is_first_fit(m.free_list, n, k),
    ensures
        first_fit(m.free_list, n) == Some(k),
        1 <= m.free_list[k].base,
        m.free_list[k].base + n <= m.limit,
        !m.allocated.contains_key(m.free_list[k].base),
        (Model {
            free_list: carved(m.free_list, k, n),
            allocated: m.allocated.insert(m.free_list[k].base, n as usize),
            ..m
        }).wf(),
{
    let s = m.free_list;
    let base = s[k].base;
    let t = carved(s, k, n);
    let old_table = m.allocated;
    let table = old_table.insert(base, n as usize);
    let c = choose|c: int| is_first_fit(s, n, c);
    if c < k {
        assert(s[c].len < n);
    }
    if k < c {
        assert(s[k].len < n);
    }
    lemma_carved(s, m.limit, k, n);
    assert(s[k].end() <= m.limit);
    assert forall|a: int| covered(t, a) == (covered(s, a) && !(base <= a < base + n)) by {
        assert(free_set(t).contains(a) == covered(t, a));
        assert(free_set(s).contains(a) == covered(s, a));
        assert(span(base as int, n).contains(a) == (base <= a < base + n));
    }
    assert forall|a: int| base <= a < base + n implies covered(s, a) && !live(old_table, a) by {
        assert(s[k].covers(a));
    }
    if old_table.contains_key(base) {
        assert(owns(old_table, base, base as int));
        assert(live(old_table, base as int));
    }
    assert forall|p: usize, a: int| owns(table, p, a) == (owns(old_table, p, a) || (p == base
        && base <= a < base + n)) by {}
    assert forall|a: int| live(table, a) == (live(old_table, a) || base <= a < base + n) by {
        if live(table, a) {
            let p = choose|p: usize| owns(table, p, a);
            if p != base {
                assert(owns(old_table, p, a));
            }
        }
        if live(old_table, a) {
            let p = choose|p: usize| owns(old_table, p, a);
            assert(owns(table, p, a));
        }
        if base <= a < base + n {
            assert(owns(table, base, a));
        }
    }
    assert forall|p: usize, q: usize, a: int| owns(table, p, a) && owns(table, q, a) implies p
        == q by {
        if p == base && q != base {
            assert(owns(old_table, q, a));
            assert(live(old_table, a));
        }
        if q == base && p != base {
            assert(owns(old_table, p, a));
            assert(live(old_table, a));
        }
    }
}

/// A release keeps the memory invariant: the run of a live allocation may
/// be handed back to the free list, and the machine with the run released
/// and the allocation forgotten satisfies the invariant.
pub proof fn lemma_free_wf(m: Model, p: usize)
    requires
        m.wf(),
        m.allocated.contains_key(p),
    ensures
        can_release(m.free_list, m.limit, p as int, m.allocated[p] as int),
        (Model {
            free_list: released(m.free_list, m.limit, p as int, m.allocated[p] as int),
            allocated: m.allocated.remove(p),
            ..m
        }).wf(),
{
    let s = m.free_list;
    let old_table = m.allocated;
    let size = old_table[p] as int;
    let table = old_table.remove(p);
    assert forall|a: int| p <= a < p + size implies !covered(s, a) by {
        assert(owns(old_table, p, a));
        assert(live(old_table, a));
    }
    lemma_released(s, m.limit, p as int, size);
    let t = released(s, m.limit, p as int, size);
    assert forall|a: int| covered(t, a) == (covered(s, a) || p <= a < p + size) by {
        assert(free_set(t).contains(a) == covered(t, a));
        assert(free_set(s).contains(a) == covered(s, a));
        assert(span(p as int, size).contains(a) == (p <= a < p + size));
    }
    assert forall|q: usize, a: int| owns(table, q, a) == (owns(old_table, q, a) && q != p) by {}
    assert forall|a: int| live(table, a) == (live(old_table, a) && !(p <= a < p + size)) by {
        if live(table, a) {
            let q = choose|q: usize| owns(table, q, a);
            assert(owns(old_table, q, a));
            if p <= a < p + size {
                assert(owns(old_table, p, a));
            }
        }
        if live(old_table, a) && !(p <= a < p + size) {
            let q = choose|q: usize| owns(old_table, q, a);
            assert(owns(table, q, a));
        }
    }
    assert forall|q: usize, r: usize, a: int| owns(table, q, a) && owns(table, r, a) implies q
        == r by {
        assert(owns(old_table, q, a) && owns(old_table, r, a));
    }
}

/// Every instruction keeps the memory invariant.
pub proof fn law_step_keeps_wf(env: Map<i32, Instr>, m: Model, instr: Instr)
    requires
        m.wf(),
    ensures
        step(env, m, instr).0.wf(),
{
    let after = step(env, m, instr).0;
    match instr {
        Instr::Malloc(r, v, rest) => {
            if let Ok(n) = read(m.registers, v) {
                if r < m.registers.len() && n > 0 && first_fit(m.free_list, n as int) is Some {
                    let k = first_fit(m.free_list, n as int)->0;
                    lemma_malloc_wf(m, n as int, k);
                    lemma_wf_frame(
                        Model {
                            free_list: carved(m.free_list, k, n as int),
                            allocated: m.allocated.insert(m.free_list[k].base, n as usize),
                            ..m
                        },
                        after,
                    );
                } else {
                    lemma_wf_frame(m, after);
                }
            }
        },
        Instr::Free(r, rest) => {
            if let Ok(p) = read(m.registers, Val::Reg(r)) {
                if p >= 0 && m.allocated.contains_key(p as usize) {
                    lemma_free_wf(m, p as usize);
                }
            }
        },
        _ => {
            lemma_wf_frame(m, after);
        },
    }
}

/// A run keeps the memory invariant, however long it is and however it
/// ends.
pub proof fn law_run_keeps_wf(env: Map<i32, Instr>, m: Model, c: Control, fuel: nat)
    requires
        m.wf(),
    ensures
        run(env, m, c, fuel).0.wf(),
    decreases fuel,
{
    if let Control::Next(instr) = c {
        if fuel > 0 {
            law_step_keeps_wf(env, m, instr);
            let (m1, c1) = step(env, m, instr);
            law_run_keeps_wf(env, m1, c1, (fuel - 1) as nat);
        }
    }
}

/// A program that is a single `exit(k)` ends with the value `k` and leaves
/// the machine untouched.
pub proof fn law_exit(env: Map<i32, Instr>, m: Model, k: i32, fuel: nat)
    requires
        fuel > 0,
    ensures
        run(env, m, Control::Next(Instr::Exit(Val::Imm(k))), fuel) == (m, Control::Exit(k)),
{
    assert(run(env, m, Control::Exit(k), (fuel - 1) as nat) == (m, Control::Exit(k)));
}

/// The evaluation of a program whose entry block is a single `exit(k)`
/// gives `k`, whatever the size of the machine and whatever else the
/// program holds.
pub proof fn law_exit_program(
    blocks: Map<i32, Instr>,
    heap_size: nat,
    num_registers: nat,
    k: i32,
    r: Result<i32, Error>,
)
    requires
        blocks.contains_key(0),
        blocks[0] == Instr::Exit(Val::Imm(k)),
        evaluates(blocks, heap_size, num_registers, r),
    ensures
        r == Ok::<i32, Error>(k),
{
    law_exit(blocks, Model::initial(heap_size, num_registers), k, STEP_LIMIT as nat);
}

/// The program `r0 = a; r1 = b; r2 = r0 op r1; exit(r2)`.
pub open spec fn arithmetic_program(op: Op2, a: i32, b: i32) -> Instr {
    Instr::Copy(
        0,
        Val::Imm(a),
        Box::new(
            Instr::Copy(
                1,
                Val::Imm(b),
                Box::new(
                    Instr::Op2(
                        2,
                        op,
                        Val::Reg(0),
                        Val::Reg(1),
                        Box::new(Instr::Exit(Val::Reg(2))),
                    ),
                ),
            ),
        ),
    )
}

/// On a machine with at least three registers, the program
/// `r0 = a; r1 = b; r2 = r0 op r1; exit(r2)` ends with `a op b` in wrapping
/// two's-complement arithmetic, for every operator; a division or remainder
/// by zero stops it with a fault and gives no value.
pub proof fn law_arithmetic(env: Map<i32, Instr>, m: Model, op: Op2, a: i32, b: i32, fuel: nat)
    requires
        m.registers.len() >= 3,
        fuel >= 4,
    ensures
        run(env, m, Control::Next(arithmetic_program(op, a, b)), fuel).1 == (match apply(
            op,
            a,
            b,
        ) {
            Ok(x) => Control::Exit(x),
            Err(f) => Control::Fault(f),
        }),
        (op is Div || op is Mod) && b == 0 ==> apply(op, a, b) == Err::<i32, Fault>(
            Fault::DivisionByZero,
        ),
        !((op is Div || op is Mod) && b == 0) ==> apply(op, a, b) is Ok,
{
    let p0 = arithmetic_program(op, a, b);
    let exit = Instr::Exit(Val::Reg(2));
    let p2 = Instr::Op2(2, op, Val::Reg(0), Val::Reg(1), Box::new(exit));
    let p1 = Instr::Copy(1, Val::Imm(b), Box::new(p2));
    let m1 = m.with_register(0, a);
    let m2 = m1.with_register(1, b);
    assert(step(env, m, p0) == (m1, Control::Next(p1)));
    assert(step(env, m1, p1) == (m2, Control::Next(p2)));
    assert(run(env, m, Control::Next(p0), fuel) == run(
        env,
        m1,
        Control::Next(p1),
        (fuel - 1) as nat,
    ));
    assert(run(env, m1, Control::Next(p1), (fuel - 1) as nat) == run(
        env,
        m2,
        Control::Next(p2),
        (fuel - 2) as nat,
    ));
    match apply(op, a, b) {
        Ok(x) => {
            let m3 = m2.with_register(2, x);
            assert(step(env, m2, p2) == (m3, Control::Next(exit)));
            assert(step(env, m3, exit) == (m3, Control::Exit(x)));
            assert(run(env, m2, Control::Next(p2), (fuel - 2) as nat) == run(
                env,
                m3,
                Control::Next(exit),
                (fuel - 3) as nat,
            ));
            assert(run(env, m3, Control::Next(exit), (fuel - 3) as nat) == run(
                env,
                m3,
                Control::Exit(x),
                (fuel - 4) as nat,
            ));
            assert(run(env, m3, Control::Exit(x), (fuel - 4) as nat) == (m3, Control::Exit(x)));
        },
        Err(f) => {
            assert(step(env, m2, p2) == (m2, Control::Fault(f)));
            assert(run(env, m2, Control::Next(p2), (fuel - 2) as nat) == run(
                env,
                m2,
                Control::Fault(f),
                (fuel - 3) as nat,
            ));
            assert(run(env, m2, Control::Fault(f), (fuel - 3) as nat) == (
                m2,
                Control::Fault(f),
            ));
        },
    }
}

/// The evaluation of the program whose entry block is
/// `r0 = a; r1 = b; r2 = r0 op r1; exit(r2)`, on a machine with at least
/// three registers, gives `a op b`, and for a division or remainder by zero
/// the run-time error of that fault.
pub proof fn law_arithmetic_program(
    blocks: Map<i32, Instr>,
    heap_size: nat,
    num_registers: nat,
    op: Op2,
    a: i32,
    b: i32,
    r: Result<i32, Error>,
)
    requires
        blocks.contains_key(0),
        blocks[0] == arithmetic_program(op, a, b),
        num_registers >= 3,
        evaluates(blocks, heap_size, num_registers, r),
    ensures
        match apply(op, a, b) {
            Ok(x) => r == Ok::<i32, Error>(x),
            Err(f) => f == Fault::DivisionByZero && (r matches Err(Error::Runtime(msg)) && msg@
                == f.text()),
        },
{
    law_arithmetic(
        blocks,
        Model::initial(heap_size, num_registers),
        op,
        a,
        b,
        STEP_LIMIT as nat,
    );
}

/// A store through register `r` followed at once by a load from the same
/// address puts the stored value into the loaded register.
pub proof fn law_store_then_load(
    env: Map<i32, Instr>,
    m: Model,
    r: usize,
    v: Val,
    target: usize,
    rest: Instr,
)
    requires
        r < m.registers.len(),
        target < m.registers.len(),
        0 <= m.registers[r as int] < m.heap.len(),
        read(m.registers, v) is Ok,
    ensures
        ({
            let load = Instr::Load(target, Val::Reg(r), Box::new(rest));
            let store = Instr::Store(r, v, Box::new(load));
            let (m1, c1) = step(env, m, store);
            let (m2, c2) = step(env, m1, load);
            &&& c1 == Control::Next(load)
            &&& c2 == Control::Next(rest)
            &&& m2.registers[target as int] == read(m.registers, v)->Ok_0
            &&& m2.heap[m.registers[r as int] as int] == read(m.registers, v)->Ok_0
        }),
{
}

/// A load from, or a store to, an address below zero or at or beyond the
/// size of the heap faults and changes nothing.
pub proof fn law_address_out_of_bounds(
    env: Map<i32, Instr>,
    m: Model,
    r: usize,
    v: Val,
    target: usize,
    rest: Instr,
)
    requires
        r < m.registers.len(),
        !(0 <= m.registers[r as int] < m.heap.len()),
    ensures
        step(env, m, Instr::Store(r, v, Box::new(rest))) == (
            m,
            Control::Fault(Fault::InvalidStore { reg: r, addr: m.registers[r as int] }),
        ),
        step(env, m, Instr::Load(target, Val::Reg(r), Box::new(rest))) == (
            m,
            Control::Fault(Fault::InvalidLoad { reg: target, addr: m.registers[r as int] }),
        ),
{
}

/// A jump to a literal address and a jump through a register that holds
/// the same address do the same: they go on at the same block with the
/// same machine, and so do the runs that begin with them. Where no block
/// begins at the address, both fault.
pub proof fn law_goto(env: Map<i32, Instr>, m: Model, target: i32, r: usize, fuel: nat)
    requires
        r < m.registers.len(),
        m.registers[r as int] == target,
        fuel > 0,
    ensures
        step(env, m, Instr::Goto(Val::Imm(target))) == step(env, m, Instr::Goto(Val::Reg(r))),
        run(env, m, Control::Next(Instr::Goto(Val::Imm(target))), fuel) == run(
            env,
            m,
            Control::Next(Instr::Goto(Val::Reg(r))),
            fuel,
        ),
        env.contains_key(target) ==> step(env, m, Instr::Goto(Val::Imm(target))) == (
            m,
            Control::Next(env[target]),
        ),
        !env.contains_key(target) ==> step(env, m, Instr::Goto(Val::Imm(target))) == (
            m,
            Control::Fault(Fault::InvalidJump { target }),
        ),
{
    let direct = Instr::Goto(Val::Imm(target));
    let indirect = Instr::Goto(Val::Reg(r));
    let (m1, c1) = step(env, m, direct);
    assert(run(env, m, Control::Next(direct), fuel) == run(env, m1, c1, (fuel - 1) as nat));
    assert(run(env, m, Control::Next(indirect), fuel) == run(env, m1, c1, (fuel - 1) as nat));
}

/// A zero test goes on with exactly one of its two arms and leaves the
/// machine as it is: with the first arm if the tested value is 0, with the
/// second if it is anything else.
pub proof fn law_ifz(env: Map<i32, Instr>, m: Model, v: Val, on_zero: Instr, otherwise: Instr)
    requires
        read(m.registers, v) is Ok,
    ensures
        read(m.registers, v) == Ok::<i32, Fault>(0) ==> step(
            env,
            m,
            Instr::IfZ(v, Box::new(on_zero), Box::new(otherwise)),
        ) == (m, Control::Next(on_zero)),
        read(m.registers, v) != Ok::<i32, Fault>(0) ==> step(
            env,
            m,
            Instr::IfZ(v, Box::new(on_zero), Box::new(otherwise)),
        ) == (m, Control::Next(otherwise)),
{
}

/// An allocation of no words puts the null address into the register and
/// touches neither the free list nor the table of allocations.
pub proof fn law_malloc_zero(m: Model, r: usize, v: Val, rest: Instr)
    requires
        r < m.registers.len(),
        read(m.registers, v) == Ok::<i32, Fault>(0),
    ensures
        step_malloc(m, r, v, rest) == (m.with_register(r as int, 0), Control::Next(rest)),
        step_malloc(m, r, v, rest).0.free_list == m.free_list,
        step_malloc(m, r, v, rest).0.allocated == m.allocated,
{
}

/// An allocation that succeeds returns an address inside `[1, heap size)`
/// whose run lies inside the heap, was free before, and is recorded as a
/// live allocation of the requested size.
pub proof fn law_malloc_address(m: Model, r: usize, v: Val, rest: Instr)
    requires
        m.wf(),
        read(m.registers, v) is Ok,
        read(m.registers, v)->Ok_0 > 0,
        step_malloc(m, r, v, rest).1 is Next,
    ensures
        ({
            let n = read(m.registers, v)->Ok_0;
            let after = step_malloc(m, r, v, rest).0;
            let p = after.registers[r as int];
            &&& 1 <= p
            &&& p + n <= m.limit <= m.heap.len()
            &&& !m.allocated.contains_key(p as usize)
            &&& after.allocated == m.allocated.insert(p as usize, n as usize)
            &&& forall|a: int| p <= a < p + n ==> covered(m.free_list, a) && !covered(
                after.free_list,
                a,
            )
        }),
{
    let n = read(m.registers, v)->Ok_0;
    let k = first_fit(m.free_list, n as int)->0;
    lemma_malloc_wf(m, n as int, k);
    lemma_carved(m.free_list, m.limit, k, n as int);
    let after = step_malloc(m, r, v, rest).0;
    let p = after.registers[r as int];
    assert forall|a: int| p <= a < p + n implies covered(m.free_list, a) && !covered(
        after.free_list,
        a,
    ) by {
        assert(m.free_list[k].covers(a));
        assert(free_set(after.free_list).contains(a) == covered(after.free_list, a));
        assert(span(p as int, n as int).contains(a));
    }
}

/// Two live allocations never share an address.
pub proof fn law_allocations_disjoint(m: Model, p: usize, q: usize)
    requires
        m.wf(),
        m.allocated.contains_key(p),
        m.allocated.contains_key(q),
        p != q,
    ensures
        p + m.allocated[p] <= q || q + m.allocated[q] <= p,
{
    let a = if p < q {
        q as int
    } else {
        p as int
    };
    if !(p + m.allocated[p] <= q || q + m.allocated[q] <= p) {
        assert(owns(m.allocated, p, a));
        assert(owns(m.allocated, q, a));
    }
}

/// When no allocation is live, the free list is the single extent that
/// covers `[1, limit)`, however the machine got there.
pub proof fn law_all_released(m: Model)
    requires
        m.wf(),
        m.allocated.dom() == Set::<usize>::empty(),
    ensures
        m.free_list == (if m.limit > 1 {
            seq![Extent { base: 1, len: (m.limit - 1) as usize }]
        } else {
            Seq::<Extent>::empty()
        }),
{
    let whole = if m.limit > 1 {
        seq![Extent { base: 1, len: (m.limit - 1) as usize }]
    } else {
        Seq::<Extent>::empty()
    };
    assert forall|a: int| covered(m.free_list, a) == covered(whole, a) by {
        if covered(m.free_list, a) {
            let i = choose|i: int| 0 <= i < m.free_list.len() && (#[trigger] m.free_list[i]).covers(
                a,
            );
            assert(1 <= m.free_list[i].base && m.free_list[i].end() <= m.limit);
            assert(whole[0].covers(a));
        }
        if covered(whole, a) {
            assert(1 <= a < m.limit);
            if live(m.allocated, a) {
                let p = choose|p: usize| owns(m.allocated, p, a);
                assert(m.allocated.dom().contains(p));
            }
        }
    }
    assert(free_set(m.free_list) =~= free_set(whole));
    lemma_canonical(m.free_list, whole, m.limit);
}

/// A request that no single free extent can hold faults with
/// out-of-memory and changes nothing, whatever the free extents add up to.
pub proof fn law_out_of_memory(m: Model, r: usize, v: Val, rest: Instr)
    requires
        r < m.registers.len(),
        read(m.registers, v) is Ok,
        read(m.registers, v)->Ok_0 > 0,
        forall|i: int|
            0 <= i < m.free_list.len() ==> (#[trigger] m.free_list[i]).len < read(
                m.registers,
                v,
            )->Ok_0,
    ensures
        step_malloc(m, r, v, rest) == (m, Control::Fault(Fault::OutOfMemory)),
{
    let n = read(m.registers, v)->Ok_0 as int;
    assert forall|k: int| !is_first_fit(m.free_list, n, k) by {
        if 0 <= k < m.free_list.len() {
            assert(m.free_list[k].len < n);
        }
    }
}

/// A release of an address that is not the base of a live allocation
/// faults with invalid-free and changes nothing.
pub proof fn law_invalid_free(m: Model, r: usize, rest: Instr)
    requires
        r < m.registers.len(),
        m.registers[r as int] < 0 || !m.allocated.contains_key(m.registers[r as int] as usize),
    ensures
        step_free(m, r, rest) == (
            m,
            Control::Fault(Fault::InvalidFree { addr: m.registers[r as int] }),
        ),
{
}

/// After a release that succeeded, a second release of the same address
/// faults with invalid-free.
pub proof fn law_double_free(m: Model, r: usize, rest: Instr, again: Instr)
    requires
        step_free(m, r, rest).1 is Next,
    ensures
        step_free(step_free(m, r, rest).0, r, again) == (
            step_free(m, r, rest).0,
            Control::Fault(Fault::InvalidFree { addr: m.registers[r as int] }),
        ),
{
}

} // verus!
