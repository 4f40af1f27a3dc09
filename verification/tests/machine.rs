use ilvm::error::Error;
use ilvm::eval::{eval, eval_op2, eval_val, Output, State, Status};
use ilvm::semantics::Fault;
use ilvm::syntax::{Instr, Op2, Printable, Val};
use std::collections::HashMap;

fn next(i: Instr) -> Box<Instr> {
    Box::new(i)
}

fn program(entry: Instr) -> HashMap<i32, Instr> {
    let mut blocks = HashMap::new();
    blocks.insert(0, entry);
    blocks
}

fn runtime_message(r: Result<i32, Error>) -> String {
    match r {
        Err(Error::Runtime(msg)) => msg,
        other => panic!("expected a run-time error, got {:?}", other),
    }
}

fn arithmetic(op: Op2, a: i32, b: i32) -> Result<i32, Error> {
    let entry = Instr::Copy(
        0,
        Val::Imm(a),
        next(Instr::Copy(
            1,
            Val::Imm(b),
            next(Instr::Op2(
                2,
                op,
                Val::Reg(0),
                Val::Reg(1),
                next(Instr::Exit(Val::Reg(2))),
            )),
        )),
    );
    eval(16, 3, program(entry))
}

#[test]
fn exit_only_program_returns_its_value() {
    for k in [0, 1, -1, 200, i32::MAX, i32::MIN] {
        let r = eval(0, 0, program(Instr::Exit(Val::Imm(k))));
        assert_eq!(r.unwrap(), k);
    }
}

#[test]
fn arithmetic_program_computes_every_operator() {
    assert_eq!(arithmetic(Op2::Add, 200, 11).unwrap(), 211);
    assert_eq!(arithmetic(Op2::Sub, 5, 12).unwrap(), -7);
    assert_eq!(arithmetic(Op2::Mul, -6, 7).unwrap(), -42);
    assert_eq!(arithmetic(Op2::Div, 42, 5).unwrap(), 8);
    assert_eq!(arithmetic(Op2::Mod, 42, 5).unwrap(), 2);
    assert_eq!(arithmetic(Op2::LT, 3, 4).unwrap(), 1);
    assert_eq!(arithmetic(Op2::LT, 4, 3).unwrap(), 0);
    assert_eq!(arithmetic(Op2::LT, 4, 4).unwrap(), 0);
    assert_eq!(arithmetic(Op2::Eq, 4, 4).unwrap(), 1);
    assert_eq!(arithmetic(Op2::Eq, 4, -4).unwrap(), 0);
}

#[test]
fn arithmetic_wraps_around() {
    assert_eq!(eval_op2(&Op2::Add, i32::MAX, 1), Ok(i32::MIN));
    assert_eq!(eval_op2(&Op2::Sub, i32::MIN, 1), Ok(i32::MAX));
    assert_eq!(eval_op2(&Op2::Mul, 65536, 65536), Ok(0));
    assert_eq!(eval_op2(&Op2::Mul, i32::MAX, 2), Ok(-2));
    assert_eq!(eval_op2(&Op2::Div, i32::MIN, -1), Ok(i32::MIN));
    assert_eq!(eval_op2(&Op2::Mod, i32::MIN, -1), Ok(0));
}

#[test]
fn division_rounds_toward_zero() {
    assert_eq!(eval_op2(&Op2::Div, -7, 2), Ok(-3));
    assert_eq!(eval_op2(&Op2::Div, 7, -2), Ok(-3));
    assert_eq!(eval_op2(&Op2::Div, -7, -2), Ok(3));
    assert_eq!(eval_op2(&Op2::Mod, -7, 2), Ok(-1));
    assert_eq!(eval_op2(&Op2::Mod, 7, -2), Ok(1));
    assert_eq!(eval_op2(&Op2::Mod, -7, -2), Ok(-1));
    assert_eq!(eval_op2(&Op2::Div, 0, 5), Ok(0));
}

#[test]
fn division_by_zero_faults() {
    assert_eq!(eval_op2(&Op2::Div, 1, 0), Err(Fault::DivisionByZero));
    assert_eq!(eval_op2(&Op2::Mod, 1, 0), Err(Fault::DivisionByZero));
    assert_eq!(
        runtime_message(arithmetic(Op2::Div, 10, 0)),
        "division by zero"
    );
    assert_eq!(
        runtime_message(arithmetic(Op2::Mod, 10, 0)),
        "division by zero"
    );
}

#[test]
fn values_resolve_against_registers() {
    let regs = [7, 8, 9];
    assert_eq!(eval_val(&regs, &Val::Imm(-3)), Ok(-3));
    assert_eq!(eval_val(&regs, &Val::Reg(2)), Ok(9));
    assert_eq!(
        eval_val(&regs, &Val::Reg(3)),
        Err(Fault::InvalidRegister { reg: 3 })
    );
}

#[test]
fn store_then_load_round_trips() {
    let entry = Instr::Copy(
        0,
        Val::Imm(15),
        next(Instr::Store(
            0,
            Val::Imm(-77),
            next(Instr::Load(1, Val::Reg(0), next(Instr::Exit(Val::Reg(1))))),
        )),
    );
    assert_eq!(eval(16, 2, program(entry)).unwrap(), -77);
}

#[test]
fn load_beyond_the_heap_faults() {
    let entry = Instr::Load(1, Val::Imm(16), next(Instr::Exit(Val::Reg(1))));
    assert_eq!(
        runtime_message(eval(16, 2, program(entry))),
        "load to r1: invalid address 16"
    );
    let entry = Instr::Load(0, Val::Imm(-1), next(Instr::Exit(Val::Reg(0))));
    assert_eq!(
        runtime_message(eval(16, 2, program(entry))),
        "load to r0: invalid address -1"
    );
}

#[test]
fn store_beyond_the_heap_faults() {
    let entry = Instr::Copy(
        1,
        Val::Imm(600),
        next(Instr::Store(1, Val::Imm(1), next(Instr::Exit(Val::Imm(0))))),
    );
    assert_eq!(
        runtime_message(eval(500, 2, program(entry))),
        "store through r1: invalid address 600"
    );
}

#[test]
fn last_heap_word_can_be_used() {
    let entry = Instr::Copy(
        0,
        Val::Imm(15),
        next(Instr::Store(
            0,
            Val::Imm(5),
            next(Instr::Load(0, Val::Imm(15), next(Instr::Exit(Val::Reg(0))))),
        )),
    );
    assert_eq!(eval(16, 1, program(entry)).unwrap(), 5);
}

#[test]
fn direct_and_indirect_goto_agree() {
    let target = || Instr::Op2(2, Op2::Add, Val::Reg(2), Val::Imm(1), next(Instr::Exit(Val::Reg(2))));
    let mut direct = HashMap::new();
    direct.insert(
        0,
        Instr::Copy(3, Val::Imm(10), next(Instr::Goto(Val::Imm(10)))),
    );
    direct.insert(10, target());
    let mut indirect = HashMap::new();
    indirect.insert(
        0,
        Instr::Copy(3, Val::Imm(10), next(Instr::Goto(Val::Reg(3)))),
    );
    indirect.insert(10, target());
    assert_eq!(eval(8, 4, direct).unwrap(), 1);
    assert_eq!(eval(8, 4, indirect).unwrap(), 1);
}

#[test]
fn goto_without_block_faults() {
    let r = eval(8, 4, program(Instr::Goto(Val::Imm(7))));
    assert_eq!(runtime_message(r), "goto(7) invalid code address");
    let r = eval(8, 4, program(Instr::Goto(Val::Imm(-12))));
    assert_eq!(runtime_message(r), "goto(-12) invalid code address");
}

#[test]
fn ifz_takes_first_arm_only_on_zero() {
    let test = |x: i32| {
        eval(
            8,
            1,
            program(Instr::Copy(
                0,
                Val::Imm(x),
                next(Instr::IfZ(
                    Val::Reg(0),
                    next(Instr::Exit(Val::Imm(20))),
                    next(Instr::Exit(Val::Imm(30))),
                )),
            )),
        )
        .unwrap()
    };
    assert_eq!(test(0), 20);
    assert_eq!(test(1), 30);
    assert_eq!(test(-1), 30);
    assert_eq!(test(i32::MIN), 30);
}

#[test]
fn abort_faults() {
    let r = eval(8, 1, program(Instr::Abort()));
    assert_eq!(runtime_message(r), "called abort");
}

#[test]
fn missing_entry_block_is_a_usage_error() {
    let mut blocks = HashMap::new();
    blocks.insert(1, Instr::Exit(Val::Imm(0)));
    match eval(8, 1, blocks) {
        Err(Error::Usage(msg)) => assert_eq!(msg, "Expected block 0"),
        other => panic!("expected a usage error, got {:?}", other),
    }
}

#[test]
fn register_out_of_range_faults() {
    let r = eval(8, 2, program(Instr::Copy(2, Val::Imm(1), next(Instr::Exit(Val::Imm(0))))));
    assert_eq!(runtime_message(r), "invalid register r2");
    let r = eval(8, 2, program(Instr::Exit(Val::Reg(12))));
    assert_eq!(runtime_message(r), "invalid register r12");
}

#[test]
fn machine_without_heap_runs() {
    let r = eval(0, 1, program(Instr::Malloc(0, Val::Imm(0), next(Instr::Exit(Val::Reg(0))))));
    assert_eq!(r.unwrap(), 0);
    let r = eval(1, 1, program(Instr::Malloc(0, Val::Imm(1), next(Instr::Exit(Val::Reg(0))))));
    assert_eq!(runtime_message(r), "malloc OOM");
}

#[test]
fn bounded_run_stops_in_an_endless_loop() {
    let blocks = program(Instr::Op2(
        0,
        Op2::Add,
        Val::Reg(0),
        Val::Imm(1),
        next(Instr::Goto(Val::Imm(0))),
    ));
    let mut st = State::new(4, 1);
    let entry = blocks.get(&0).unwrap();
    let status = st.run(&blocks, entry, 10);
    // five rounds of increment and jump
    assert_eq!(st.register(0), Some(5));
    let cursor = match status {
        Status::Running(instr) => instr,
        other => panic!("expected a run under way, got {:?}", other),
    };
    assert_eq!(cursor, entry);
    let status = st.run(&blocks, cursor, 1);
    assert_eq!(st.register(0), Some(6));
    assert!(matches!(status, Status::Running(Instr::Goto(Val::Imm(0)))));
    let status = st.run(&blocks, cursor, 0);
    assert!(matches!(status, Status::Running(_)));
    assert_eq!(st.register(0), Some(6));
}

#[test]
fn step_evaluates_one_instruction() {
    let blocks: HashMap<i32, Instr> = HashMap::new();
    let instr = Instr::Copy(1, Val::Imm(9), next(Instr::Exit(Val::Reg(1))));
    let mut st = State::new(4, 2);
    match st.step(&blocks, &instr) {
        Status::Running(rest) => assert_eq!(*rest, Instr::Exit(Val::Reg(1))),
        other => panic!("expected the continuation, got {:?}", other),
    }
    assert_eq!(st.register(1), Some(9));
    assert_eq!(st.register(0), Some(0));
    assert_eq!(st.register(2), None);
    assert_eq!(st.word(3), Some(0));
    assert_eq!(st.word(4), None);
}

#[test]
fn print_emits_in_program_order() {
    let entry = Instr::Print(
        Printable::Id("start".to_string()),
        next(Instr::Copy(
            0,
            Val::Imm(2),
            next(Instr::Store(
                0,
                Val::Imm(41),
                next(Instr::Print(
                    Printable::Val(Val::Reg(0)),
                    next(Instr::Print(
                        Printable::Array(Val::Imm(1), Val::Imm(3)),
                        next(Instr::Exit(Val::Imm(0))),
                    )),
                )),
            )),
        )),
    );
    let blocks = program(entry);
    let mut st = State::new(8, 1);
    let status = st.run(&blocks, blocks.get(&0).unwrap(), 100);
    assert!(matches!(status, Status::Exited(0)));
    assert_eq!(
        st.take_output(),
        vec![
            Output::Label("start".to_string()),
            Output::Word(2),
            Output::Words(vec![0, 41, 0]),
        ]
    );
    assert_eq!(st.take_output(), Vec::<Output>::new());
}

#[test]
fn print_of_words_outside_the_heap_faults() {
    let r = eval(
        8,
        1,
        program(Instr::Print(
            Printable::Array(Val::Imm(6), Val::Imm(3)),
            next(Instr::Exit(Val::Imm(0))),
        )),
    );
    assert_eq!(runtime_message(r), "print: invalid heap range 6 + 3");
    let r = eval(
        8,
        1,
        program(Instr::Print(
            Printable::Array(Val::Imm(6), Val::Imm(2)),
            next(Instr::Exit(Val::Imm(7))),
        )),
    );
    assert_eq!(r.unwrap(), 7);
    let r = eval(
        8,
        1,
        program(Instr::Print(
            Printable::Array(Val::Imm(-1), Val::Imm(0)),
            next(Instr::Exit(Val::Imm(0))),
        )),
    );
    assert_eq!(runtime_message(r), "print: invalid heap range -1 + 0");
}

#[test]
fn fault_messages_name_the_operands() {
    assert_eq!(
        Fault::InvalidLoad { reg: 3, addr: 1024 }.message(),
        "load to r3: invalid address 1024"
    );
    assert_eq!(
        Fault::InvalidStore { reg: 10, addr: i32::MIN }.message(),
        "store through r10: invalid address -2147483648"
    );
    assert_eq!(
        Fault::InvalidJump { target: i32::MAX }.message(),
        "goto(2147483647) invalid code address"
    );
    assert_eq!(Fault::DivisionByZero.message(), "division by zero");
    assert_eq!(Fault::OutOfMemory.message(), "malloc OOM");
    assert_eq!(Fault::InvalidFree { addr: 0 }.message(), "free bad ptr 0");
    assert_eq!(Fault::Abort.message(), "called abort");
    assert_eq!(
        Fault::InvalidRegister { reg: 907 }.message(),
        "invalid register r907"
    );
    assert_eq!(
        Fault::InvalidPrint { addr: 5, count: -2 }.message(),
        "print: invalid heap range 5 + -2"
    );
}

#[test]
fn error_description_is_its_message() {
    assert_eq!(Error::Usage("u".to_string()).description(), "u");
    assert_eq!(Error::Parse("p".to_string()).description(), "p");
    assert_eq!(Error::Runtime("r".to_string()).description(), "r");
    let io = std::io::Error::new(std::io::ErrorKind::NotFound, "gone");
    let e = Error::from(io);
    assert!(matches!(e, Error::IO(_)));
    assert_eq!(e.description(), "gone");
}
