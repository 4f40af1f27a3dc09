use ilvm::error::Error;
use ilvm::eval::{eval, State, Status};
use ilvm::freelist::{free, malloc, Extent, FreeList};
use ilvm::syntax::{Instr, Val};
use std::collections::HashMap;

fn next(i: Instr) -> Box<Instr> {
    Box::new(i)
}

fn program(entry: Instr) -> HashMap<i32, Instr> {
    let mut blocks = HashMap::new();
    blocks.insert(0, entry);
    blocks
}

fn extent(base: usize, len: usize) -> Extent {
    Extent { base, len }
}

fn runtime_message(r: Result<i32, Error>) -> String {
    match r {
        Err(Error::Runtime(msg)) => msg,
        other => panic!("expected a run-time error, got {:?}", other),
    }
}

/// Runs `r0 = malloc(size)` on the machine and returns the address.
fn allocate(st: &mut State, size: i32) -> Result<i32, String> {
    let blocks: HashMap<i32, Instr> = HashMap::new();
    let instr = Instr::Malloc(0, Val::Imm(size), next(Instr::Abort()));
    match st.step(&blocks, &instr) {
        Status::Running(_) => Ok(st.register(0).unwrap()),
        Status::Faulted(f) => Err(f.message()),
        Status::Exited(_) => panic!("malloc cannot exit"),
    }
}

/// Runs `r1 = ptr; free(r1)` on the machine.
fn release(st: &mut State, ptr: i32) -> Result<(), String> {
    let blocks: HashMap<i32, Instr> = HashMap::new();
    let instr = Instr::Copy(1, Val::Imm(ptr), next(Instr::Free(1, next(Instr::Abort()))));
    let rest = match st.step(&blocks, &instr) {
        Status::Running(rest) => rest,
        _ => panic!("copy cannot fail here"),
    };
    match st.step(&blocks, rest) {
        Status::Running(_) => Ok(()),
        Status::Faulted(f) => Err(f.message()),
        Status::Exited(_) => panic!("free cannot exit"),
    }
}

#[test]
fn fresh_free_list_is_one_extent() {
    assert_eq!(FreeList::new(500).extents(), vec![extent(1, 499)]);
    assert_eq!(FreeList::new(2).extents(), vec![extent(1, 1)]);
    assert_eq!(FreeList::new(1).extents(), vec![]);
    assert_eq!(FreeList::new(0).extents(), vec![]);
    assert_eq!(FreeList::new(500).end(), 500);
}

#[test]
fn malloc_zero_returns_null_and_keeps_the_list() {
    let mut list = FreeList::new(10);
    assert_eq!(malloc(&mut list, 0), Some(0));
    assert_eq!(list.extents(), vec![extent(1, 9)]);
    let mut empty = FreeList::new(1);
    assert_eq!(malloc(&mut empty, 0), Some(0));
    assert_eq!(empty.extents(), vec![]);
}

#[test]
fn malloc_splits_by_the_requested_size() {
    let mut list = FreeList::new(100);
    assert_eq!(malloc(&mut list, 10), Some(1));
    assert_eq!(list.extents(), vec![extent(11, 89)]);
    assert_eq!(malloc(&mut list, 30), Some(11));
    assert_eq!(list.extents(), vec![extent(41, 59)]);
}

#[test]
fn malloc_of_a_whole_extent_removes_it() {
    let mut list = FreeList::new(10);
    assert_eq!(malloc(&mut list, 9), Some(1));
    assert_eq!(list.extents(), vec![]);
    assert_eq!(malloc(&mut list, 1), None);
    assert_eq!(list.extents(), vec![]);
}

#[test]
fn malloc_takes_the_first_fit_not_the_best() {
    let mut list = FreeList::new(30);
    assert_eq!(malloc(&mut list, 5), Some(1));
    assert_eq!(malloc(&mut list, 5), Some(6));
    assert_eq!(malloc(&mut list, 3), Some(11));
    assert_eq!(malloc(&mut list, 5), Some(14));
    assert!(free(&mut list, 1, 5));
    assert!(free(&mut list, 11, 3));
    assert_eq!(
        list.extents(),
        vec![extent(1, 5), extent(11, 3), extent(19, 11)]
    );
    // the extent of three words would fit exactly, the one of five comes first
    assert_eq!(malloc(&mut list, 3), Some(1));
    assert_eq!(
        list.extents(),
        vec![extent(4, 2), extent(11, 3), extent(19, 11)]
    );
    assert_eq!(malloc(&mut list, 3), Some(11));
    assert_eq!(list.extents(), vec![extent(4, 2), extent(19, 11)]);
}

#[test]
fn malloc_fails_without_a_large_enough_extent() {
    let mut list = FreeList::new(10);
    assert_eq!(malloc(&mut list, 3), Some(1));
    assert_eq!(malloc(&mut list, 3), Some(4));
    assert_eq!(malloc(&mut list, 3), Some(7));
    assert!(free(&mut list, 1, 3));
    assert!(free(&mut list, 7, 3));
    assert_eq!(list.extents(), vec![extent(1, 3), extent(7, 3)]);
    // six words are free, no four of them in a row
    assert_eq!(malloc(&mut list, 4), None);
    assert_eq!(list.extents(), vec![extent(1, 3), extent(7, 3)]);
    assert_eq!(malloc(&mut list, 3), Some(1));
}

#[test]
fn free_merges_with_the_extent_before() {
    let mut list = FreeList::new(20);
    assert_eq!(malloc(&mut list, 4), Some(1));
    assert_eq!(malloc(&mut list, 4), Some(5));
    assert_eq!(malloc(&mut list, 4), Some(9));
    assert!(free(&mut list, 1, 4));
    assert!(free(&mut list, 5, 4));
    assert_eq!(list.extents(), vec![extent(1, 8), extent(13, 7)]);
}

#[test]
fn free_merges_with_the_extent_after() {
    let mut list = FreeList::new(20);
    assert_eq!(malloc(&mut list, 4), Some(1));
    assert_eq!(malloc(&mut list, 4), Some(5));
    assert_eq!(malloc(&mut list, 4), Some(9));
    assert!(free(&mut list, 5, 4));
    assert_eq!(list.extents(), vec![extent(5, 4), extent(13, 7)]);
    assert!(free(&mut list, 1, 4));
    assert_eq!(list.extents(), vec![extent(1, 8), extent(13, 7)]);
}

#[test]
fn free_merges_on_both_sides() {
    let mut list = FreeList::new(20);
    assert_eq!(malloc(&mut list, 4), Some(1));
    assert_eq!(malloc(&mut list, 4), Some(5));
    assert_eq!(malloc(&mut list, 4), Some(9));
    assert!(free(&mut list, 1, 4));
    assert!(free(&mut list, 9, 4));
    assert_eq!(list.extents(), vec![extent(1, 4), extent(9, 11)]);
    assert!(free(&mut list, 5, 4));
    assert_eq!(list.extents(), vec![extent(1, 19)]);
}

#[test]
fn free_inserts_in_address_order() {
    let mut list = FreeList::new(20);
    assert_eq!(malloc(&mut list, 19), Some(1));
    assert!(free(&mut list, 10, 2));
    assert!(free(&mut list, 2, 3));
    assert!(free(&mut list, 17, 1));
    assert!(free(&mut list, 6, 2));
    assert_eq!(
        list.extents(),
        vec![extent(2, 3), extent(6, 2), extent(10, 2), extent(17, 1)]
    );
}

#[test]
fn free_refuses_what_cannot_be_released() {
    let mut list = FreeList::new(20);
    assert_eq!(malloc(&mut list, 10), Some(1));
    let before = list.extents();
    assert_eq!(before, vec![extent(11, 9)]);
    assert!(!free(&mut list, 5, 0));
    assert!(!free(&mut list, 0, 3));
    assert!(!free(&mut list, 15, 6));
    assert!(!free(&mut list, 20, 1));
    assert!(!free(&mut list, 9, 3));
    assert!(!free(&mut list, 12, 2));
    assert!(!free(&mut list, 11, 1));
    assert!(!free(&mut list, 5, usize::MAX));
    assert_eq!(list.extents(), before);
    assert!(free(&mut list, 9, 2));
    assert_eq!(list.extents(), vec![extent(9, 11)]);
}

#[test]
fn machine_malloc_returns_first_address_after_null() {
    let mut st = State::new(500, 2);
    assert_eq!(allocate(&mut st, 10), Ok(1));
    assert_eq!(st.allocation(1), Some(10));
    assert_eq!(st.allocation(2), None);
    assert_eq!(st.free_extents(), vec![extent(11, 489)]);
}

#[test]
fn machine_malloc_zero_is_null_and_untracked() {
    let mut st = State::new(500, 2);
    assert_eq!(allocate(&mut st, 0), Ok(0));
    assert_eq!(st.allocation(0), None);
    assert_eq!(st.free_extents(), vec![extent(1, 499)]);
    assert_eq!(release(&mut st, 0), Err("free bad ptr 0".to_string()));
}

#[test]
fn machine_malloc_of_negative_size_is_out_of_memory() {
    let mut st = State::new(500, 2);
    assert_eq!(allocate(&mut st, -1), Err("malloc OOM".to_string()));
    assert_eq!(st.free_extents(), vec![extent(1, 499)]);
}

#[test]
fn live_allocations_do_not_overlap_and_lie_in_the_heap() {
    let mut st = State::new(64, 2);
    let sizes = [5, 1, 7, 3, 20, 2];
    let mut live: Vec<(i32, i32)> = Vec::new();
    for size in sizes {
        let ptr = allocate(&mut st, size).unwrap();
        assert!(1 <= ptr && ptr + size <= 64);
        for (other, len) in &live {
            assert!(ptr + size <= *other || *other + *len <= ptr);
        }
        live.push((ptr, size));
    }
    release(&mut st, live[1].0).unwrap();
    release(&mut st, live[3].0).unwrap();
    let ptr = allocate(&mut st, 3).unwrap();
    for (i, (other, len)) in live.iter().enumerate() {
        if i != 1 && i != 3 {
            assert!(ptr + 3 <= *other || *other + *len <= ptr);
        }
    }
}

#[test]
fn releasing_everything_restores_the_single_extent() {
    let mut st = State::new(100, 2);
    let a = allocate(&mut st, 10).unwrap();
    let b = allocate(&mut st, 20).unwrap();
    let c = allocate(&mut st, 30).unwrap();
    let d = allocate(&mut st, 39).unwrap();
    assert_eq!(st.free_extents(), vec![]);
    release(&mut st, c).unwrap();
    release(&mut st, a).unwrap();
    release(&mut st, d).unwrap();
    release(&mut st, b).unwrap();
    assert_eq!(st.free_extents(), vec![extent(1, 99)]);
    assert_eq!(st.allocation(a as usize), None);
}

#[test]
fn machine_out_of_memory_despite_free_capacity() {
    let mut st = State::new(10, 2);
    let a = allocate(&mut st, 3).unwrap();
    let _b = allocate(&mut st, 3).unwrap();
    let c = allocate(&mut st, 3).unwrap();
    release(&mut st, a).unwrap();
    release(&mut st, c).unwrap();
    assert_eq!(allocate(&mut st, 4), Err("malloc OOM".to_string()));
    assert_eq!(st.free_extents(), vec![extent(1, 3), extent(7, 3)]);
}

#[test]
fn free_of_unallocated_address_faults() {
    let mut st = State::new(100, 2);
    let a = allocate(&mut st, 10).unwrap();
    assert_eq!(a, 1);
    assert_eq!(release(&mut st, 5), Err("free bad ptr 5".to_string()));
    assert_eq!(release(&mut st, 50), Err("free bad ptr 50".to_string()));
    assert_eq!(release(&mut st, -4), Err("free bad ptr -4".to_string()));
    assert_eq!(release(&mut st, 1000), Err("free bad ptr 1000".to_string()));
    assert_eq!(st.allocation(1), Some(10));
    assert_eq!(st.free_extents(), vec![extent(11, 89)]);
}

#[test]
fn double_free_faults() {
    let mut st = State::new(100, 2);
    let a = allocate(&mut st, 10).unwrap();
    assert_eq!(release(&mut st, a), Ok(()));
    assert_eq!(release(&mut st, a), Err("free bad ptr 1".to_string()));
    assert_eq!(st.free_extents(), vec![extent(1, 99)]);
}

#[test]
fn program_with_malloc_and_free() {
    let entry = Instr::Malloc(
        0,
        Val::Imm(10),
        next(Instr::Malloc(
            1,
            Val::Imm(5),
            next(Instr::Free(
                0,
                next(Instr::Malloc(2, Val::Imm(4), next(Instr::Exit(Val::Reg(2))))),
            )),
        )),
    );
    assert_eq!(eval(100, 3, program(entry)).unwrap(), 1);
    let entry = Instr::Malloc(
        0,
        Val::Imm(10),
        next(Instr::Free(0, next(Instr::Free(0, next(Instr::Exit(Val::Imm(0))))))),
    );
    assert_eq!(runtime_message(eval(100, 3, program(entry))), "free bad ptr 1");
    let entry = Instr::Malloc(0, Val::Imm(100), next(Instr::Exit(Val::Reg(0))));
    assert_eq!(runtime_message(eval(100, 3, program(entry))), "malloc OOM");
    let entry = Instr::Malloc(0, Val::Imm(99), next(Instr::Exit(Val::Reg(0))));
    assert_eq!(eval(100, 3, program(entry)).unwrap(), 1);
}
