//! The tokens of program text and the lexer that finds them.
//!
//! Text is cut into tokens from left to right. Blanks between tokens are
//! skipped. At each place the token is the first of these that fits: an
//! integer literal, `==`, a punctuation mark or one-character operator, a
//! keyword, a register name, a label in double quotes. A `+` or `-` that
//! stands directly before a digit is the sign of a literal unless the token
//! before it was a register or a literal, in which case it is an operator.

use crate::error::Error;
use crate::syntax::Op2;
use vstd::prelude::*;
use vstd::string::*;

verus! {

/// A token of program text.
#[derive(Debug, PartialEq)]
pub enum Tok {
    LBrace,
    RBrace,
    LParen,
    RParen,
    Ifz,
    Else,
    Semi,
    Equal,
    Goto,
    Abort,
    Exit,
    Malloc,
    Print,
    Array,
    Comma,
    Free,
    Block,
    Op2(Op2),
    Int32(i32),
    Reg(usize),
    Id(String),
    Eof,
}

/// A token as a mathematical value: a label is the sequence of its
/// characters.
pub enum Symbol {
    LBrace,
    RBrace,
    LParen,
    RParen,
    Ifz,
    Else,
    Semi,
    Equal,
    Goto,
    Abort,
    Exit,
    Malloc,
    Print,
    Array,
    Comma,
    Free,
    Block,
    Op2(Op2),
    Int32(i32),
    Reg(usize),
    Id(Seq<char>),
    Eof,
}

impl View for Tok {
    type V = Symbol;

    open spec fn view(&self) -> Symbol {
        match self {
            Tok::LBrace => Symbol::LBrace,
            Tok::RBrace => Symbol::RBrace,
            Tok::LParen => Symbol::LParen,
            Tok::RParen => Symbol::RParen,
            Tok::Ifz => Symbol::Ifz,
            Tok::Else => Symbol::Else,
            Tok::Semi => Symbol::Semi,
            Tok::Equal => Symbol::Equal,
            Tok::Goto => Symbol::Goto,
            Tok::Abort => Symbol::Abort,
            Tok::Exit => Symbol::Exit,
            Tok::Malloc => Symbol::Malloc,
            Tok::Print => Symbol::Print,
            Tok::Array => Symbol::Array,
            Tok::Comma => Symbol::Comma,
            Tok::Free => Symbol::Free,
            Tok::Block => Symbol::Block,
            Tok::Op2(op) => Symbol::Op2(*op),
            Tok::Int32(n) => Symbol::Int32(*n),
            Tok::Reg(r) => Symbol::Reg(*r),
            Tok::Id(s) => Symbol::Id(s@),
            Tok::Eof => Symbol::Eof,
        }
    }
}

/// The tokens of a sequence as mathematical values.
pub open spec fn symbols(toks: Seq<Tok>) -> Seq<Symbol> {
    Seq::new(toks.len(), |i: int| toks[i]@)
}

/// Whether `c` has the Unicode property `White_Space`, as
/// `char::is_whitespace` tells it.
pub uninterp spec fn unicode_whitespace(c: char) -> bool;

/// Whether `c` is a letter or a number in the sense of Unicode, as
/// `char::is_alphanumeric` tells it.
pub uninterp spec fn unicode_alphanumeric(c: char) -> bool;

/// `char::is_whitespace` of std: the answer is named, not stated, since it
/// is a table of Unicode.
#[verifier::external_body]
fn is_whitespace(c: char) -> (b: bool)
    ensures
        b == unicode_whitespace(c),
{
    c.is_whitespace()
}

/// `char::is_alphanumeric` of std: the answer is named, not stated, since
/// it is a table of Unicode.
#[verifier::external_body]
fn is_alphanumeric(c: char) -> (b: bool)
    ensures
        b == unicode_alphanumeric(c),
{
    c.is_alphanumeric()
}

/// A blank between tokens: space, tab, carriage return or line feed.
pub open spec fn is_space(c: char) -> bool {
    c == ' ' || c == '\t' || c == '\r' || c == '\n'
}

/// A decimal digit.
pub open spec fn is_digit(c: char) -> bool {
    '0' <= c <= '9'
}

/// Whether a digit stands at position `i` of `s`.
pub open spec fn digit_at(s: Seq<char>, i: int) -> bool {
    0 <= i < s.len() && is_digit(s[i])
}

/// Whether `word` stands at position `i` of `s`.
pub open spec fn starts(s: Seq<char>, i: int, word: Seq<char>) -> bool {
    0 <= i && i + word.len() <= s.len() && s.subrange(i, i + word.len()) == word
}

/// The end of the longest run of digits that begins at `i`.
pub open spec fn digits_end(s: Seq<char>, i: int) -> int
    decreases s.len() - i,
{
    if digit_at(s, i) {
        digits_end(s, i + 1)
    } else {
        i
    }
}

/// The end of the longest run of letters and numbers that begins at `i`.
pub open spec fn alnum_end(s: Seq<char>, i: int) -> int
    decreases s.len() - i,
{
    if 0 <= i < s.len() && unicode_alphanumeric(s[i]) {
        alnum_end(s, i + 1)
    } else {
        i
    }
}

/// The end of the longest run of Unicode white space that begins at `i`.
pub open spec fn whitespace_end(s: Seq<char>, i: int) -> int
    decreases s.len() - i,
{
    if 0 <= i < s.len() && unicode_whitespace(s[i]) {
        whitespace_end(s, i + 1)
    } else {
        i
    }
}

/// The number that the digits of `s` from `i` up to `j` write in decimal.
pub open spec fn number(s: Seq<char>, i: int, j: int) -> nat
    decreases j - i,
{
    if j <= i {
        0
    } else {
        number(s, i, j - 1) * 10 + (s[j - 1] as int - '0' as int) as nat
    }
}

/// The token that a punctuation mark or a one-character operator is.
pub open spec fn punctuation(c: char) -> Option<Symbol> {
    if c == '{' {
        Some(Symbol::LBrace)
    } else if c == '}' {
        Some(Symbol::RBrace)
    } else if c == '(' {
        Some(Symbol::LParen)
    } else if c == ')' {
        Some(Symbol::RParen)
    } else if c == ',' {
        Some(Symbol::Comma)
    } else if c == ';' {
        Some(Symbol::Semi)
    } else if c == '=' {
        Some(Symbol::Equal)
    } else if c == '+' {
        Some(Symbol::Op2(Op2::Add))
    } else if c == '-' {
        Some(Symbol::Op2(Op2::Sub))
    } else if c == '*' {
        Some(Symbol::Op2(Op2::Mul))
    } else if c == '/' {
        Some(Symbol::Op2(Op2::Div))
    } else if c == '%' {
        Some(Symbol::Op2(Op2::Mod))
    } else if c == '<' {
        Some(Symbol::Op2(Op2::LT))
    } else {
        None
    }
}

/// The keyword that stands at position `i` of `s`, with the position
/// behind it. A keyword needs no blank after it. A run of heap words is
/// written with `array` or with `seq`.
pub open spec fn keyword(s: Seq<char>, i: int) -> Option<(Symbol, int)> {
    if starts(s, i, "ifz"@) {
        Some((Symbol::Ifz, i + 3))
    } else if starts(s, i, "else"@) {
        Some((Symbol::Else, i + 4))
    } else if starts(s, i, "goto"@) {
        Some((Symbol::Goto, i + 4))
    } else if starts(s, i, "abort"@) {
        Some((Symbol::Abort, i + 5))
    } else if starts(s, i, "exit"@) {
        Some((Symbol::Exit, i + 4))
    } else if starts(s, i, "malloc"@) {
        Some((Symbol::Malloc, i + 6))
    } else if starts(s, i, "free"@) {
        Some((Symbol::Free, i + 4))
    } else if starts(s, i, "block"@) {
        Some((Symbol::Block, i + 5))
    } else if starts(s, i, "print"@) {
        Some((Symbol::Print, i + 5))
    } else if starts(s, i, "array"@) {
        Some((Symbol::Array, i + 5))
    } else if starts(s, i, "seq"@) {
        Some((Symbol::Array, i + 3))
    } else {
        None
    }
}

/// Where the digits of an integer literal begin that starts at position
/// `i`: at `i` itself, or behind a sign that stands there. A sign is read
/// as one only where no value stands before it.
pub open spec fn literal_digits(s: Seq<char>, i: int, after_value: bool) -> Option<int> {
    if digit_at(s, i) {
        Some(i)
    } else if !after_value && 0 <= i < s.len() && (s[i] == '-' || s[i] == '+') && digit_at(
        s,
        i + 1,
    ) {
        Some(i + 1)
    } else {
        None
    }
}

/// The token that begins at position `i` of `s`, which holds no blank, and
/// the position behind the token. `after_value` says whether the token
/// before it was a register or a literal. There is no token where the text
/// fits none, where a literal does not fit a 32-bit word, or where a
/// register index does not fit the machine's index type.
pub open spec fn scan(s: Seq<char>, i: int, after_value: bool) -> Option<(Symbol, int)>
    recommends
        0 <= i < s.len(),
{
    match literal_digits(s, i, after_value) {
        Some(d) => {
            let e = digits_end(s, d);
            let magnitude = number(s, d, e) as int;
            let value = if s[i] == '-' {
                -magnitude
            } else {
                magnitude
            };
            if i32::MIN <= value <= i32::MAX {
                Some((Symbol::Int32(value as i32), e))
            } else {
                None
            }
        },
        None => {
            if starts(s, i, "=="@) {
                Some((Symbol::Op2(Op2::Eq), i + 2))
            } else if punctuation(s[i]) is Some {
                Some((punctuation(s[i])->0, i + 1))
            } else if keyword(s, i) is Some {
                keyword(s, i)
            } else if s[i] == 'r' && digit_at(s, i + 1) {
                let e = digits_end(s, i + 1);
                let index = number(s, i + 1, e);
                if index <= usize::MAX {
                    Some((Symbol::Reg(index as usize), e))
                } else {
                    None
                }
            } else if s[i] == '"' {
                let e = alnum_end(s, i + 1);
                if e > i + 1 && e < s.len() && s[e] == '"' {
                    Some((Symbol::Id(s.subrange(i + 1, e)), e + 1))
                } else {
                    None
                }
            } else {
                None
            }
        },
    }
}

/// The tokens of `s` from position `i` on, with the end marker behind the
/// last, or the position at which no token fits.
pub open spec fn tokens(s: Seq<char>, i: int, after_value: bool) -> Result<Seq<Symbol>, int>
    decreases s.len() - i,
{
    if i < 0 || i >= s.len() {
        Ok(seq![Symbol::Eof])
    } else if is_space(s[i]) {
        tokens(s, i + 1, after_value)
    } else {
        match scan(s, i, after_value) {
            Some((sym, e)) => if i < e <= s.len() {
                match tokens(s, e, sym is Int32 || sym is Reg) {
                    Ok(rest) => Ok(seq![sym] + rest),
                    Err(at) => Err(at),
                }
            } else {
                Err(i)
            },
            None => Err(i),
        }
    }
}

/// The tokens of the text `s`: white space at its beginning is skipped,
/// blanks between tokens are skipped, and the end marker closes the
/// sequence. Where no token fits, the result is the position of the
/// character that fits none.
pub open spec fn lexed(s: Seq<char>) -> Result<Seq<Symbol>, int> {
    tokens(s, whitespace_end(s, 0), false)
}

/// The message for text in which no token fits at position `at`: it shows
/// up to twenty characters from there.
pub open spec fn lex_error_text(s: Seq<char>, at: int) -> Seq<char> {
    "Unexpected character at: "@ + s.subrange(
        at,
        if at + 20 <= s.len() {
            at + 20
        } else {
            s.len() as int
        },
    )
}

/// The characters of a string slice, in order.
pub fn chars_of(s: &str) -> (chars: Vec<char>)
    ensures
        chars@ == s@,
{
    let mut chars: Vec<char> = Vec::new();
    for c in it: s.chars()
        invariant
            it.seq() == s@,
            chars@ == it.seq().take(it.index()),
    {
        chars.push(c);
        assert(chars@ =~= it.seq().take(it.index() + 1));
    }
    assert(chars@ =~= s@);
    chars
}

/// Whether `word` stands at position `i`.
fn starts_with(chars: &Vec<char>, i: usize, word: &str) -> (found: bool)
    requires
        i <= chars.len(),
    ensures
        found == starts(chars@, i as int, word@),
{
    let n = word.unicode_len();
    if n > chars.len() - i {
        return false;
    }
    let mut k: usize = 0;
    while k < n
        invariant
            k <= n,
            n == word@.len(),
            i + n <= chars.len(),
            forall|j: int| 0 <= j < k ==> chars@[i + j] == word@[j],
        decreases n - k,
    {
        if chars[i + k] != word.get_char(k) {
            proof {
                let sub = chars@.subrange(i as int, i + n);
                assert(sub[k as int] == chars@[i + k]);
            }
            return false;
        }
        k += 1;
    }
    assert(chars@.subrange(i as int, i + n) =~= word@);
    true
}

/// Whether a digit stands at position `i`.
fn digit_here(chars: &Vec<char>, i: usize) -> (found: bool)
    ensures
        found == digit_at(chars@, i as int),
{
    i < chars.len() && chars[i] >= '0' && chars[i] <= '9'
}

/// Reads the run of digits that begins at `start`. The result is the end
/// of the run and the number it writes, unless that exceeds `limit`.
fn read_number(chars: &Vec<char>, start: usize, limit: u64) -> (r: (Option<u64>, usize))
    requires
        digit_at(chars@, start as int),
    ensures
        r.1 == digits_end(chars@, start as int),
        start < r.1 <= chars.len(),
        match r.0 {
            Some(n) => n == number(chars@, start as int, r.1 as int) && n <= limit,
            None => number(chars@, start as int, r.1 as int) > limit,
        },
{
    let mut j: usize = start;
    let mut acc: u128 = 0;
    let mut over: bool = false;
    while j < chars.len() && chars[j] >= '0' && chars[j] <= '9'
        invariant
            start <= j <= chars.len(),
            digits_end(chars@, start as int) == digits_end(chars@, j as int),
            !over ==> acc == number(chars@, start as int, j as int) && acc <= limit,
            over ==> number(chars@, start as int, j as int) > limit,
        decreases chars.len() - j,
    {
        let d: u128 = (chars[j] as u32 - '0' as u32) as u128;
        if !over {
            acc = acc * 10 + d;
            if acc > limit as u128 {
                over = true;
            }
        }
        j += 1;
    }
    if over {
        (None, j)
    } else {
        (Some(acc as u64), j)
    }
}

/// The token that a punctuation mark or a one-character operator is.
fn punct(c: char) -> (tok: Option<Tok>)
    ensures
        match punctuation(c) {
            Some(sym) => tok matches Some(t) && t@ == sym,
            None => tok is None,
        },
{
    if c == '{' {
        Some(Tok::LBrace)
    } else if c == '}' {
        Some(Tok::RBrace)
    } else if c == '(' {
        Some(Tok::LParen)
    } else if c == ')' {
        Some(Tok::RParen)
    } else if c == ',' {
        Some(Tok::Comma)
    } else if c == ';' {
        Some(Tok::Semi)
    } else if c == '=' {
        Some(Tok::Equal)
    } else if c == '+' {
        Some(Tok::Op2(Op2::Add))
    } else if c == '-' {
        Some(Tok::Op2(Op2::Sub))
    } else if c == '*' {
        Some(Tok::Op2(Op2::Mul))
    } else if c == '/' {
        Some(Tok::Op2(Op2::Div))
    } else if c == '%' {
        Some(Tok::Op2(Op2::Mod))
    } else if c == '<' {
        Some(Tok::Op2(Op2::LT))
    } else {
        None
    }
}

/// The keyword that stands at position `i`, with the position behind it.
fn word(chars: &Vec<char>, i: usize) -> (r: Option<(Tok, usize)>)
    requires
        i <= chars.len(),
    ensures
        match keyword(chars@, i as int) {
            Some((sym, e)) => r matches Some((t, end)) && t@ == sym && end == e && i < end
                <= chars.len(),
            None => r is None,
        },
{
    proof {
        reveal_strlit("ifz");
        reveal_strlit("else");
        reveal_strlit("goto");
        reveal_strlit("abort");
        reveal_strlit("exit");
        reveal_strlit("malloc");
        reveal_strlit("free");
        reveal_strlit("block");
        reveal_strlit("print");
        reveal_strlit("array");
        reveal_strlit("seq");
    }
    if starts_with(chars, i, "ifz") {
        Some((Tok::Ifz, i + 3))
    } else if starts_with(chars, i, "else") {
        Some((Tok::Else, i + 4))
    } else if starts_with(chars, i, "goto") {
        Some((Tok::Goto, i + 4))
    } else if starts_with(chars, i, "abort") {
        Some((Tok::Abort, i + 5))
    } else if starts_with(chars, i, "exit") {
        Some((Tok::Exit, i + 4))
    } else if starts_with(chars, i, "malloc") {
        Some((Tok::Malloc, i + 6))
    } else if starts_with(chars, i, "free") {
        Some((Tok::Free, i + 4))
    } else if starts_with(chars, i, "block") {
        Some((Tok::Block, i + 5))
    } else if starts_with(chars, i, "print") {
        Some((Tok::Print, i + 5))
    } else if starts_with(chars, i, "array") {
        Some((Tok::Array, i + 5))
    } else if starts_with(chars, i, "seq") {
        Some((Tok::Array, i + 3))
    } else {
        None
    }
}

/// Reads the label whose opening quote stands at position `i`: letters and
/// numbers, at least one, up to the closing quote.
fn parse_id(text: &str, chars: &Vec<char>, i: usize) -> (r: Option<(Tok, usize)>)
    requires
        chars@ == text@,
        i < chars.len(),
        chars@[i as int] == '"',
    ensures
        ({
            let e = alnum_end(chars@, i + 1);
            if e > i + 1 && e < chars.len() && chars@[e] == '"' {
                r matches Some((t, end)) && t@ == Symbol::Id(chars@.subrange(i + 1, e)) && end == e
                    + 1
            } else {
                r is None
            }
        }),
{
    let mut e: usize = i + 1;
    while e < chars.len() && is_alphanumeric(chars[e])
        invariant
            i < e <= chars.len(),
            alnum_end(chars@, i + 1) == alnum_end(chars@, e as int),
        decreases chars.len() - e,
    {
        e += 1;
    }
    if e > i + 1 && e < chars.len() && chars[e] == '"' {
        let name = String::from_str(text.substring_char(i + 1, e));
        Some((Tok::Id(name), e + 1))
    } else {
        None
    }
}

/// Reads the integer literal that begins at position `i` and whose digits
/// begin at `d`, behind its sign if it has one.
fn parse_int32(chars: &Vec<char>, i: usize, d: usize) -> (r: Option<(Tok, usize)>)
    requires
        i < chars.len(),
        digit_at(chars@, d as int),
        d == i || d == i + 1,
    ensures
        ({
            let e = digits_end(chars@, d as int);
            let magnitude = number(chars@, d as int, e) as int;
            let value = if chars@[i as int] == '-' {
                -magnitude
            } else {
                magnitude
            };
            if i32::MIN <= value <= i32::MAX {
                r matches Some((t, end)) && t@ == Symbol::Int32(value as i32) && end == e && d
                    < end <= chars.len()
            } else {
                r is None
            }
        }),
{
    let (magnitude, e) = read_number(chars, d, 0x8000_0000);
    match magnitude {
        None => None,
        Some(m) => {
            if chars[i] == '-' {
                Some((Tok::Int32((0 - m as i64) as i32), e))
            } else if m <= 0x7fff_ffff {
                Some((Tok::Int32(m as i32), e))
            } else {
                None
            }
        },
    }
}

/// Reads the register name whose `r` stands at position `i`.
fn parse_reg(chars: &Vec<char>, i: usize) -> (r: Option<(Tok, usize)>)
    requires
        i < chars.len(),
        digit_at(chars@, i + 1),
    ensures
        ({
            let e = digits_end(chars@, i + 1);
            let index = number(chars@, i + 1, e);
            if index <= usize::MAX {
                r matches Some((t, end)) && t@ == Symbol::Reg(index as usize) && end == e && i
                    < end <= chars.len()
            } else {
                r is None
            }
        }),
{
    let (index, e) = read_number(chars, i + 1, usize::MAX as u64);
    match index {
        None => None,
        Some(n) => Some((Tok::Reg(n as usize), e)),
    }
}

/// Finds the token that begins at position `i`, where no blank stands.
fn parse_token(text: &str, chars: &Vec<char>, i: usize, after_value: bool) -> (r: Option<
    (Tok, usize),
>)
    requires
        chars@ == text@,
        i < chars.len(),
    ensures
        match scan(chars@, i as int, after_value) {
            Some((sym, e)) => r matches Some((t, end)) && t@ == sym && end == e,
            None => r is None,
        },
        r matches Some((t, end)) ==> i < end <= chars.len(),
{
    let c = chars[i];
    if digit_here(chars, i) {
        return parse_int32(chars, i, i);
    }
    if !after_value && (c == '-' || c == '+') && digit_here(chars, i + 1) {
        return parse_int32(chars, i, i + 1);
    }
    proof {
        reveal_strlit("==");
    }
    if starts_with(chars, i, "==") {
        return Some((Tok::Op2(Op2::Eq), i + 2));
    }
    match punct(c) {
        Some(t) => {
            return Some((t, i + 1));
        },
        None => {},
    }
    match word(chars, i) {
        Some(found) => {
            return Some(found);
        },
        None => {},
    }
    if c == 'r' && digit_here(chars, i + 1) {
        return parse_reg(chars, i);
    }
    if c == '"' {
        return parse_id(text, chars, i);
    }
    None
}

/// Joins the tokens found so far with what the rest of the text gives.
pub open spec fn glue(found: Seq<Symbol>, rest: Result<Seq<Symbol>, int>) -> Result<
    Seq<Symbol>,
    int,
> {
    match rest {
        Ok(more) => Ok(found + more),
        Err(at) => Err(at),
    }
}

/// Cuts program text into tokens and closes them with the end marker.
///
/// Where no token fits, the result is a parse error whose message shows
/// the text from that place on.
pub fn lex(s: &str) -> (r: Result<Vec<Tok>, Error>)
    ensures
        match lexed(s@) {
            Ok(syms) => r matches Ok(toks) && symbols(toks@) == syms,
            Err(at) => r matches Err(Error::Parse(msg)) && msg@ == lex_error_text(s@, at),
        },
{
    let chars = chars_of(s);
    let n = chars.len();
    let mut i: usize = 0;
    while i < n && is_whitespace(chars[i])
        invariant
            i <= n,
            n == chars.len(),
            whitespace_end(chars@, 0) == whitespace_end(chars@, i as int),
        decreases n - i,
    {
        i += 1;
    }
    let mut toks: Vec<Tok> = Vec::new();
    let mut after_value = false;
    assert(symbols(toks@) + seq![Symbol::Eof] =~= seq![Symbol::Eof]);
    while i < n
        invariant
            i <= n,
            n == chars.len(),
            chars@ == s@,
            lexed(s@) == glue(symbols(toks@), tokens(chars@, i as int, after_value)),
        decreases n - i,
    {
        let c = chars[i];
        if c == ' ' || c == '\t' || c == '\r' || c == '\n' {
            i += 1;
        } else {
            match parse_token(s, &chars, i, after_value) {
                Some((tok, end)) => {
                    let ghost found = symbols(toks@);
                    let ghost sym = tok@;
                    after_value = match tok {
                        Tok::Int32(_) => true,
                        Tok::Reg(_) => true,
                        _ => false,
                    };
                    toks.push(tok);
                    proof {
                        assert(symbols(toks@) =~= found + seq![sym]);
                        match tokens(chars@, end as int, after_value) {
                            Ok(rest) => {
                                assert((found + seq![sym]) + rest =~= found + (seq![sym] + rest));
                            },
                            Err(_) => {},
                        }
                    }
                    i = end;
                },
                None => {
                    let stop = if n - i > 20 {
                        i + 20
                    } else {
                        n
                    };
                    let mut msg = String::from_str("Unexpected character at: ");
                    msg.append(s.substring_char(i, stop));
                    return Err(Error::Parse(msg));
                },
            }
        }
    }
    let ghost found = symbols(toks@);
    toks.push(Tok::Eof);
    assert(symbols(toks@) =~= found + seq![Symbol::Eof]);
    Ok(toks)
}

} // verus!
