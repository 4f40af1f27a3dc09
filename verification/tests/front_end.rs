use ilvm::error::Error;
use ilvm::lexer::{lex, Tok};
use ilvm::parse_and_eval;
use ilvm::parser::parse;
use ilvm::syntax::{Instr, Op2, Printable, Val};
use ilvm::tc::{has_unique_elements, tc};

fn next(i: Instr) -> Box<Instr> {
    Box::new(i)
}

fn parse_message(r: Result<Vec<(i32, Instr)>, Error>) -> String {
    match r {
        Err(Error::Parse(msg)) => msg,
        other => panic!("expected a parse error, got {:?}", other),
    }
}

fn lex_message(r: Result<Vec<Tok>, Error>) -> String {
    match r {
        Err(Error::Parse(msg)) => msg,
        other => panic!("expected a parse error, got {:?}", other),
    }
}

#[test]
fn lex_punctuation_and_operators() {
    assert_eq!(
        lex("{}(),;=+-*/%<==").unwrap(),
        vec![
            Tok::LBrace,
            Tok::RBrace,
            Tok::LParen,
            Tok::RParen,
            Tok::Comma,
            Tok::Semi,
            Tok::Equal,
            Tok::Op2(Op2::Add),
            Tok::Op2(Op2::Sub),
            Tok::Op2(Op2::Mul),
            Tok::Op2(Op2::Div),
            Tok::Op2(Op2::Mod),
            Tok::Op2(Op2::LT),
            Tok::Op2(Op2::Eq),
            Tok::Eof,
        ]
    );
}

#[test]
fn lex_double_equal_before_single() {
    assert_eq!(
        lex("r2 = r0 == r1").unwrap(),
        vec![
            Tok::Reg(2),
            Tok::Equal,
            Tok::Reg(0),
            Tok::Op2(Op2::Eq),
            Tok::Reg(1),
            Tok::Eof,
        ]
    );
    assert_eq!(
        lex("===").unwrap(),
        vec![Tok::Op2(Op2::Eq), Tok::Equal, Tok::Eof]
    );
}

#[test]
fn lex_keywords() {
    assert_eq!(
        lex("ifz else goto abort exit malloc free block print array seq").unwrap(),
        vec![
            Tok::Ifz,
            Tok::Else,
            Tok::Goto,
            Tok::Abort,
            Tok::Exit,
            Tok::Malloc,
            Tok::Free,
            Tok::Block,
            Tok::Print,
            Tok::Array,
            Tok::Array,
            Tok::Eof,
        ]
    );
}

#[test]
fn lex_keywords_need_no_blank() {
    assert_eq!(
        lex("ifzr1{exit(r12);}").unwrap(),
        vec![
            Tok::Ifz,
            Tok::Reg(1),
            Tok::LBrace,
            Tok::Exit,
            Tok::LParen,
            Tok::Reg(12),
            Tok::RParen,
            Tok::Semi,
            Tok::RBrace,
            Tok::Eof,
        ]
    );
}

#[test]
fn lex_empty_text_is_the_end_marker() {
    assert_eq!(lex("").unwrap(), vec![Tok::Eof]);
    assert_eq!(lex(" \t\r\n ").unwrap(), vec![Tok::Eof]);
}

#[test]
fn lex_literals() {
    assert_eq!(
        lex("0 7 0042 2147483647").unwrap(),
        vec![
            Tok::Int32(0),
            Tok::Int32(7),
            Tok::Int32(42),
            Tok::Int32(2147483647),
            Tok::Eof,
        ]
    );
    assert_eq!(
        lex("00000000000000000000000000000000000001").unwrap(),
        vec![Tok::Int32(1), Tok::Eof]
    );
}

#[test]
fn lex_signed_literals() {
    assert_eq!(
        lex("(-5, +6)").unwrap(),
        vec![
            Tok::LParen,
            Tok::Int32(-5),
            Tok::Comma,
            Tok::Int32(6),
            Tok::RParen,
            Tok::Eof,
        ]
    );
    assert_eq!(
        lex("-2147483648").unwrap(),
        vec![Tok::Int32(i32::MIN), Tok::Eof]
    );
    assert_eq!(
        lex("- 5").unwrap(),
        vec![Tok::Op2(Op2::Sub), Tok::Int32(5), Tok::Eof]
    );
}

#[test]
fn lex_sign_after_a_value_is_an_operator() {
    assert_eq!(
        lex("r1 -1").unwrap(),
        vec![Tok::Reg(1), Tok::Op2(Op2::Sub), Tok::Int32(1), Tok::Eof]
    );
    assert_eq!(
        lex("3+4").unwrap(),
        vec![Tok::Int32(3), Tok::Op2(Op2::Add), Tok::Int32(4), Tok::Eof]
    );
    assert_eq!(
        lex("r1 - -1").unwrap(),
        vec![Tok::Reg(1), Tok::Op2(Op2::Sub), Tok::Int32(-1), Tok::Eof]
    );
}

#[test]
fn lex_literal_out_of_range_is_an_error() {
    assert_eq!(
        lex_message(lex("exit(2147483648);")),
        "Unexpected character at: 2147483648);"
    );
    assert_eq!(
        lex_message(lex("(-2147483649)")),
        "Unexpected character at: -2147483649)"
    );
    assert_eq!(
        lex_message(lex("99999999999999999999999999999999999999999")),
        "Unexpected character at: 99999999999999999999"
    );
}

#[test]
fn lex_registers() {
    assert_eq!(
        lex("r0 r007 r31").unwrap(),
        vec![Tok::Reg(0), Tok::Reg(7), Tok::Reg(31), Tok::Eof]
    );
    assert_eq!(lex_message(lex("r")), "Unexpected character at: r");
    assert_eq!(lex_message(lex(" rx")), "Unexpected character at: rx");
    assert_eq!(
        lex_message(lex("r99999999999999999999999999")),
        "Unexpected character at: r9999999999999999999"
    );
}

#[test]
fn lex_labels() {
    assert_eq!(
        lex("\"abc123\"").unwrap(),
        vec![Tok::Id("abc123".to_string()), Tok::Eof]
    );
    assert_eq!(
        lex("\"\u{e9}t\u{e9}\u{0663}\"").unwrap(),
        vec![Tok::Id("\u{e9}t\u{e9}\u{0663}".to_string()), Tok::Eof]
    );
    assert_eq!(lex_message(lex("\"\"")), "Unexpected character at: \"\"");
    assert_eq!(lex_message(lex("\"ab")), "Unexpected character at: \"ab");
    assert_eq!(
        lex_message(lex("\"a b\"")),
        "Unexpected character at: \"a b\""
    );
    assert_eq!(
        lex_message(lex("\"a-b\"")),
        "Unexpected character at: \"a-b\""
    );
}

#[test]
fn lex_skips_unicode_white_space_only_at_the_start() {
    assert_eq!(
        lex("\u{a0}\u{2003}\u{c} exit").unwrap(),
        vec![Tok::Exit, Tok::Eof]
    );
    assert_eq!(
        lex_message(lex("exit \u{a0}exit")),
        "Unexpected character at: \u{a0}exit"
    );
}

#[test]
fn lex_error_shows_at_most_twenty_characters() {
    assert_eq!(
        lex_message(lex("exit(1); ?0123456789012345678901234567890")),
        "Unexpected character at: ?0123456789012345678"
    );
    assert_eq!(lex_message(lex("  xxx")), "Unexpected character at: xxx");
    assert_eq!(
        lex_message(lex("\u{e9}\u{e9}\u{e9}\u{e9}\u{e9}\u{e9}\u{e9}\u{e9}\u{e9}\u{e9}\u{e9}\u{e9}\u{e9}\u{e9}\u{e9}\u{e9}\u{e9}\u{e9}\u{e9}\u{e9}\u{e9}\u{e9}")),
        "Unexpected character at: \u{e9}\u{e9}\u{e9}\u{e9}\u{e9}\u{e9}\u{e9}\u{e9}\u{e9}\u{e9}\u{e9}\u{e9}\u{e9}\u{e9}\u{e9}\u{e9}\u{e9}\u{e9}\u{e9}\u{e9}"
    );
}

#[test]
fn parse_every_instruction() {
    let code = r#"
        block 3 {
            r1 = 5;
            r2 = r1 % 3;
            r3 = *r2;
            *r3 = -1;
            r4 = malloc(r1);
            free(r4);
            print("label");
            print(7);
            print(array(r1, 2));
            ifz r2 {
                goto(r1);
            } else {
                abort;
            }
        }
        block -4 {
            exit(r0);
        }"#;
    let expected = vec![
        (
            3,
            Instr::Copy(
                1,
                Val::Imm(5),
                next(Instr::Op2(
                    2,
                    Op2::Mod,
                    Val::Reg(1),
                    Val::Imm(3),
                    next(Instr::Load(
                        3,
                        Val::Reg(2),
                        next(Instr::Store(
                            3,
                            Val::Imm(-1),
                            next(Instr::Malloc(
                                4,
                                Val::Reg(1),
                                next(Instr::Free(
                                    4,
                                    next(Instr::Print(
                                        Printable::Id("label".to_string()),
                                        next(Instr::Print(
                                            Printable::Val(Val::Imm(7)),
                                            next(Instr::Print(
                                                Printable::Array(Val::Reg(1), Val::Imm(2)),
                                                next(Instr::IfZ(
                                                    Val::Reg(2),
                                                    next(Instr::Goto(Val::Reg(1))),
                                                    next(Instr::Abort()),
                                                )),
                                            )),
                                        )),
                                    )),
                                )),
                            )),
                        )),
                    )),
                )),
            ),
        ),
        (-4, Instr::Exit(Val::Reg(0))),
    ];
    assert_eq!(parse(code).unwrap(), expected);
}

#[test]
fn parse_empty_program() {
    assert_eq!(parse("").unwrap(), vec![]);
    assert_eq!(parse("  \n ").unwrap(), vec![]);
}

#[test]
fn parse_nested_zero_tests() {
    let code = "block 0 { ifz r0 { ifz r1 { exit(1); } else { exit(2); } } else { r0 = 0; goto(0); } }";
    let expected = vec![(
        0,
        Instr::IfZ(
            Val::Reg(0),
            next(Instr::IfZ(
                Val::Reg(1),
                next(Instr::Exit(Val::Imm(1))),
                next(Instr::Exit(Val::Imm(2))),
            )),
            next(Instr::Copy(0, Val::Imm(0), next(Instr::Goto(Val::Imm(0))))),
        ),
    )];
    assert_eq!(parse(code).unwrap(), expected);
}

#[test]
fn parse_all_operators() {
    for (text, op) in [
        ("+", Op2::Add),
        ("-", Op2::Sub),
        ("*", Op2::Mul),
        ("/", Op2::Div),
        ("%", Op2::Mod),
        ("<", Op2::LT),
        ("==", Op2::Eq),
    ] {
        let code = format!("block 0 {{ r2 = r0 {} r1; exit(r2); }}", text);
        let expected = vec![(
            0,
            Instr::Op2(
                2,
                op,
                Val::Reg(0),
                Val::Reg(1),
                next(Instr::Exit(Val::Reg(2))),
            ),
        )];
        assert_eq!(parse(&code).unwrap(), expected);
    }
}

#[test]
fn parse_subtraction_without_blanks() {
    let expected = vec![(
        0,
        Instr::Op2(
            1,
            Op2::Sub,
            Val::Reg(1),
            Val::Imm(1),
            next(Instr::Exit(Val::Reg(1))),
        ),
    )];
    assert_eq!(parse("block 0{r1=r1-1;exit(r1);}").unwrap(), expected);
    assert_eq!(parse("block 0 { r1 = r1 -1; exit(r1); }").unwrap(), expected);
}

#[test]
fn parse_errors_name_the_block_that_fails() {
    assert_eq!(
        parse_message(parse("block 0 { exit(1) }")),
        "Parse error: no block at token 0"
    );
    assert_eq!(
        parse_message(parse("block 0 { exit(1); } block 1 { r0 = ; }")),
        "Parse error: no block at token 9"
    );
    assert_eq!(
        parse_message(parse("block 0 { r0 = 1; }")),
        "Parse error: no block at token 0"
    );
    assert_eq!(
        parse_message(parse("block 0 { exit(1); } }")),
        "Parse error: no block at token 9"
    );
    assert_eq!(
        parse_message(parse("block r0 { exit(1); }")),
        "Parse error: no block at token 0"
    );
    assert_eq!(
        parse_message(parse("exit(1);")),
        "Parse error: no block at token 0"
    );
    assert_eq!(
        parse_message(parse("block 0 { ifz r0 { exit(1); } }")),
        "Parse error: no block at token 0"
    );
    assert_eq!(
        parse_message(parse("block 0 { print(array(1)); exit(1); }")),
        "Parse error: no block at token 0"
    );
    assert_eq!(
        parse_message(parse("block 0 { r0 = - 5; exit(1); }")),
        "Parse error: no block at token 0"
    );
}

#[test]
fn parse_reports_lexical_errors() {
    assert_eq!(
        parse_message(parse("block 0 { exit(200); }  xxx")),
        "Unexpected character at: xxx"
    );
}

#[test]
fn unique_elements() {
    assert!(has_unique_elements(&vec![]));
    assert!(has_unique_elements(&vec![3]));
    assert!(has_unique_elements(&vec![3, -3, 0, 7]));
    assert!(!has_unique_elements(&vec![3, 3]));
    assert!(!has_unique_elements(&vec![1, 2, 3, 4, 1]));
    assert!(!has_unique_elements(&vec![0, 5, 5, 0]));
}

#[test]
fn tc_builds_the_table() {
    let table = tc(vec![
        (0, Instr::Exit(Val::Imm(1))),
        (10, Instr::Abort()),
        (-2, Instr::Goto(Val::Imm(0))),
    ])
    .unwrap();
    assert_eq!(table.len(), 3);
    assert_eq!(table.get(&0), Some(&Instr::Exit(Val::Imm(1))));
    assert_eq!(table.get(&10), Some(&Instr::Abort()));
    assert_eq!(table.get(&-2), Some(&Instr::Goto(Val::Imm(0))));
    assert!(tc(vec![]).unwrap().is_empty());
}

#[test]
fn tc_rejects_duplicate_addresses() {
    let r = tc(vec![
        (0, Instr::Exit(Val::Imm(1))),
        (1, Instr::Abort()),
        (0, Instr::Exit(Val::Imm(2))),
    ]);
    match r {
        Err(Error::Usage(msg)) => assert_eq!(msg, "duplicate block IDs"),
        other => panic!("expected a usage error, got {:?}", other),
    }
}

#[test]
fn parse_and_eval_reports_each_kind_of_error() {
    match parse_and_eval("block 0 { exit(1); } block 0 { exit(2); }", 10, 2) {
        Err(Error::Usage(msg)) => assert_eq!(msg, "duplicate block IDs"),
        other => panic!("expected a usage error, got {:?}", other),
    }
    match parse_and_eval("block 1 { exit(1); }", 10, 2) {
        Err(Error::Usage(msg)) => assert_eq!(msg, "Expected block 0"),
        other => panic!("expected a usage error, got {:?}", other),
    }
    match parse_and_eval("", 10, 2) {
        Err(Error::Usage(msg)) => assert_eq!(msg, "Expected block 0"),
        other => panic!("expected a usage error, got {:?}", other),
    }
    match parse_and_eval("block 0 { exit(1) }", 10, 2) {
        Err(Error::Parse(msg)) => assert_eq!(msg, "Parse error: no block at token 0"),
        other => panic!("expected a parse error, got {:?}", other),
    }
    match parse_and_eval("block 0 { exit(1); } ?", 10, 2) {
        Err(Error::Parse(msg)) => assert_eq!(msg, "Unexpected character at: ?"),
        other => panic!("expected a parse error, got {:?}", other),
    }
    match parse_and_eval("block 0 { r0 = 1 / 0; exit(r0); }", 10, 2) {
        Err(Error::Runtime(msg)) => assert_eq!(msg, "division by zero"),
        other => panic!("expected a run-time error, got {:?}", other),
    }
    match parse_and_eval("block 0 { abort; }", 10, 2) {
        Err(Error::Runtime(msg)) => assert_eq!(msg, "called abort"),
        other => panic!("expected a run-time error, got {:?}", other),
    }
}

#[test]
fn program_with_negative_literals() {
    assert_eq!(parse_and_eval("block 0 { exit(-1); }", 10, 2).unwrap(), -1);
    assert_eq!(
        parse_and_eval("block 0 { r0 = -5; r1 = r0 * -3; exit(r1); }", 10, 2).unwrap(),
        15
    );
    assert_eq!(
        parse_and_eval("block 0 { r0 = 7; r1 = r0 == 7; exit(r1); }", 10, 2).unwrap(),
        1
    );
}

#[test]
fn program_with_allocation_round_trip() {
    let code = r#"
        block 0 {
            r0 = malloc(4);
            r1 = malloc(4);
            *r1 = 99;
            free(r0);
            r2 = malloc(2);
            r3 = *r1;
            r4 = r3 + r2;
            exit(r4);
        }"#;
    assert_eq!(parse_and_eval(code, 32, 5).unwrap(), 100);
}
