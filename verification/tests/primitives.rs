use ilvm::lexer::{lex, Tok};
use nom::bytes::complete::{tag, take_while1};
use nom::character::complete::{digit1, multispace1};
use nom::error::Error as NomError;

fn first_token(text: &str) -> Tok {
    lex(text).unwrap().into_iter().next().unwrap()
}

#[test]
fn literals_agree_with_nom_digit1() {
    for text in ["0", "42;", "007)", "9 9", "2147483647)", "12,34", "5}"] {
        let (rest, digits) = digit1::<&str, NomError<&str>>(text).unwrap();
        assert_eq!(first_token(text), Tok::Int32(digits.parse::<i32>().unwrap()));
        let mut expected = vec![Tok::Int32(digits.parse::<i32>().unwrap())];
        expected.extend(lex(rest).unwrap());
        assert_eq!(lex(text).unwrap(), expected);
    }
}

#[test]
fn registers_agree_with_nom_digit1() {
    for text in ["r0", "r42;", "r007)", "r9 9", "r12,34"] {
        let (rest, digits) = digit1::<&str, NomError<&str>>(&text[1..]).unwrap();
        let mut expected = vec![Tok::Reg(digits.parse::<usize>().unwrap())];
        expected.extend(lex(rest).unwrap());
        assert_eq!(lex(text).unwrap(), expected);
    }
}

#[test]
fn blanks_agree_with_nom_multispace1() {
    for text in [" exit", "\t\texit", "\r\n exit", " \n\t\r (", "  "] {
        let (rest, _) = multispace1::<&str, NomError<&str>>(text).unwrap();
        assert_eq!(lex(&format!("({}", text)).unwrap()[1..], lex(rest).unwrap()[..]);
    }
    for text in ["\u{b}exit", "\u{a0}exit", "exit"] {
        assert!(multispace1::<&str, NomError<&str>>(text).is_err());
    }
    assert!(lex("(\u{b}exit").is_err());
    assert!(lex("(\u{a0}exit").is_err());
}

#[test]
fn keywords_agree_with_nom_tag() {
    for (word, tok) in [
        ("ifz", Tok::Ifz),
        ("else", Tok::Else),
        ("goto", Tok::Goto),
        ("abort", Tok::Abort),
        ("exit", Tok::Exit),
        ("malloc", Tok::Malloc),
        ("free", Tok::Free),
        ("block", Tok::Block),
        ("print", Tok::Print),
        ("array", Tok::Array),
    ] {
        let text = format!("{}r1", word);
        let (rest, found) = tag::<&str, &str, NomError<&str>>(word)(&text[..]).unwrap();
        assert_eq!(found, word);
        assert_eq!(rest, "r1");
        assert_eq!(lex(&text).unwrap(), vec![tok, Tok::Reg(1), Tok::Eof]);
        let cut = &word[..word.len() - 1];
        assert!(tag::<&str, &str, NomError<&str>>(word)(cut).is_err());
        assert!(lex(cut).is_err());
    }
}

#[test]
fn labels_agree_with_nom_take_while1() {
    for text in ["abc\"", "a1\u{e9}\"", "x\" 1", "\u{0663}\u{4e2d}\";"] {
        let (rest, name) =
            take_while1::<_, &str, NomError<&str>>(|c: char| c.is_alphanumeric())(text).unwrap();
        assert!(rest.starts_with('"'));
        let quoted = format!("\"{}", text);
        assert_eq!(first_token(&quoted), Tok::Id(name.to_string()));
    }
    for text in ["\"", "-a\"", " a\""] {
        assert!(
            take_while1::<_, &str, NomError<&str>>(|c: char| c.is_alphanumeric())(text).is_err()
        );
        assert!(lex(&format!("\"{}", text)).is_err());
    }
}
