use vstd::prelude::*;
use crate::number::Number;
use crate::tokens::{BinOp, Token, Lexeme, lexemes};

verus! {

/// A character that no token can hold, or a number with two decimal points.
#[derive(Clone, Copy, Debug, PartialEq, Eq, Structural)]
pub struct LexError;

impl LexError {
    /// The error's message.
    pub fn to_string(&self) -> (r: String)
        ensures
            r@ == "rip"@,
    {
        String::from_str("rip")
    }
}

pub open spec fn is_digit(c: char) -> bool {
    '0' <= c <= '9'
}

pub open spec fn is_letter(c: char) -> bool {
    ('a' <= c <= 'z') || ('A' <= c <= 'Z')
}

/// The end of the run of digits and points that starts at `i`.
pub open spec fn number_end(cs: Seq<char>, i: int) -> int
    decreases cs.len() - i,
{
    if 0 <= i < cs.len() && (is_digit(cs[i]) || cs[i] == '.') {
        number_end(cs, i + 1)
    } else {
        i
    }
}

/// The end of the run of letters that starts at `i`.
pub open spec fn ident_end(cs: Seq<char>, i: int) -> int
    decreases cs.len() - i,
{
    if 0 <= i < cs.len() && is_letter(cs[i]) {
        ident_end(cs, i + 1)
    } else {
        i
    }
}

pub open spec fn two_points(cs: Seq<char>, i: int, j: int) -> bool {
    exists|a: int, b: int| i <= a < b < j && cs[a] == '.' && cs[b] == '.'
}

/// The token of an identifier: a function name when `(` follows it at once,
/// `e` and `pi` as constants, any other as a variable.
pub open spec fn identifier(cs: Seq<char>, j: int, name: Seq<char>) -> Lexeme {
    if 0 <= j < cs.len() && cs[j] == '(' {
        Lexeme::Function(name)
    } else if name == "e"@ || name == "pi"@ {
        Lexeme::SymbolicConstant(name)
    } else {
        Lexeme::Variable(name)
    }
}

pub open spec fn single(c: char) -> Option<Lexeme> {
    if c == '(' {
        Some(Lexeme::OpenParen)
    } else if c == ')' {
        Some(Lexeme::CloseParen)
    } else if c == '-' {
        Some(Lexeme::BinOp(BinOp::Sub))
    } else if c == '+' {
        Some(Lexeme::BinOp(BinOp::Add))
    } else if c == '*' {
        Some(Lexeme::BinOp(BinOp::Mul))
    } else if c == '/' {
        Some(Lexeme::BinOp(BinOp::Div))
    } else if c == '^' {
        Some(Lexeme::BinOp(BinOp::Pow))
    } else if c == ',' {
        Some(Lexeme::Comma)
    } else {
        None
    }
}

pub open spec fn prefixed(s: Seq<Lexeme>, r: Result<Seq<Lexeme>, LexError>) -> Result<Seq<Lexeme>, LexError> {
    match r {
        Ok(x) => Ok(s + x),
        Err(e) => Err(e),
    }
}

/// The tokens of `cs` from position `i` on, with `nf` giving the value of a
/// number's text.
pub open spec fn lexed(cs: Seq<char>, i: int, nf: spec_fn(Seq<char>) -> Number) -> Result<Seq<Lexeme>, LexError>
    decreases cs.len() - i,
{
    if i < 0 || i >= cs.len() {
        Ok(Seq::empty())
    } else if cs[i] == ' ' {
        lexed(cs, i + 1, nf)
    } else if single(cs[i]) is Some {
        prefixed(seq![single(cs[i])->0], lexed(cs, i + 1, nf))
    } else if is_digit(cs[i]) {
        let j = number_end(cs, i);
        if two_points(cs, i, j) {
            Err(LexError)
        } else if i < j <= cs.len() {
            prefixed(seq![Lexeme::Literal(nf(cs.subrange(i, j)))], lexed(cs, j, nf))
        } else {
            Err(LexError)
        }
    } else if is_letter(cs[i]) {
        let j = ident_end(cs, i);
        if i < j <= cs.len() {
            prefixed(seq![identifier(cs, j, cs.subrange(i, j))], lexed(cs, j, nf))
        } else {
            Err(LexError)
        }
    } else {
        Err(LexError)
    }
}

/// The caller's number reader accepts every text and gives one value for each.
pub open spec fn is_number_reader<N: Fn(String) -> Number>(f: N) -> bool {
    &&& forall|s: String| f.requires((s,))
    &&& forall|s1: String, s2: String, r1: Number, r2: Number|
        s1@ == s2@ && f.ensures((s1,), r1) && f.ensures((s2,), r2) ==> r1 == r2
}

/// The function of texts that a number reader computes.
pub open spec fn reader_of<N: Fn(String) -> Number>(f: N) -> spec_fn(Seq<char>) -> Number {
    |text: Seq<char>| (choose|r: Number, s: String| #[trigger] f.ensures((s,), r) && s@ == text).0
}

proof fn lemma_number_end(cs: Seq<char>, i: int)
    requires
        0 <= i <= cs.len(),
    ensures
        i <= number_end(cs, i) <= cs.len(),
        forall|k: int| i <= k < number_end(cs, i) ==> is_digit(#[trigger] cs[k]) || cs[k] == '.',
    decreases cs.len() - i,
{
    if i < cs.len() && (is_digit(cs[i]) || cs[i] == '.') {
        lemma_number_end(cs, i + 1);
    }
}

proof fn lemma_ident_end(cs: Seq<char>, i: int)
    requires
        0 <= i <= cs.len(),
    ensures
        i <= ident_end(cs, i) <= cs.len(),
    decreases cs.len() - i,
{
    if i < cs.len() && is_letter(cs[i]) {
        lemma_ident_end(cs, i + 1);
    }
}

fn single_token(c: char) -> (r: Option<Token>)
    ensures
        match single(c) {
            Some(l) => r matches Some(t) && t.lexeme() == l,
            None => r is None,
        },
{
    if c == '(' {
        Some(Token::OpenParen)
    } else if c == ')' {
        Some(Token::CloseParen)
    } else if c == '-' {
        Some(Token::BinOp(BinOp::Sub))
    } else if c == '+' {
        Some(Token::BinOp(BinOp::Add))
    } else if c == '*' {
        Some(Token::BinOp(BinOp::Mul))
    } else if c == '/' {
        Some(Token::BinOp(BinOp::Div))
    } else if c == '^' {
        Some(Token::BinOp(BinOp::Pow))
    } else if c == ',' {
        Some(Token::Comma)
    } else {
        None
    }
}

/// The identifier that starts at the position, and the token it makes;
/// the position moves past it.
fn get_const_variable_or_function_token_at(src: &str, n: usize, index: &mut usize) -> (t: Token)
    requires
        n == src@.len(),
        *old(index) < n,
        is_letter(src@[*old(index) as int]),
    ensures
        *final(index) == ident_end(src@, *old(index) as int),
        *old(index) < *final(index) <= n,
        t.lexeme() == identifier(src@, *final(index) as int, src@.subrange(*old(index) as int, *final(index) as int)),
{
    let ghost cs = src@;
    let i = *index;
    proof {
        lemma_ident_end(cs, i as int);
        lemma_ident_end(cs, i + 1);
    }
    let mut j: usize = i;
    while j < n
        invariant
            i < n,
            n == cs.len(),
            cs == src@,
            i <= j <= n,
            ident_end(cs, i as int) == ident_end(cs, j as int),
        ensures
            ident_end(cs, i as int) == j,
        decreases n - j,
    {
        let d = src.get_char(j);
        if !(('a' <= d && d <= 'z') || ('A' <= d && d <= 'Z')) {
            break;
        }
        j = j + 1;
    }
    proof {
        assert(ident_end(cs, i as int) == ident_end(cs, i + 1));
    }
    *index = j;
    let name = String::from_str(src.substring_char(i, j));
    if j < n && src.get_char(j) == '(' {
        Token::Function(name)
    } else if crate::ast::str_eq(&name, "e") || crate::ast::str_eq(&name, "pi") {
        Token::SymbolicConstant(name)
    } else {
        Token::Variable(name)
    }
}

/// The number that starts at the position: a run of digits with at most
/// one decimal point, read by `number`; the position moves past it.
fn get_number_token_at<N: Fn(String) -> Number>(src: &str, n: usize, index: &mut usize, number: &N) -> (r: Result<Token, LexError>)
    requires
        n == src@.len(),
        *old(index) < n,
        is_digit(src@[*old(index) as int]),
        is_number_reader(*number),
    ensures
        two_points(src@, *old(index) as int, number_end(src@, *old(index) as int)) ==> r is Err,
        !two_points(src@, *old(index) as int, number_end(src@, *old(index) as int)) ==> {
            &&& r matches Ok(t)
            &&& *final(index) == number_end(src@, *old(index) as int)
            &&& *old(index) < *final(index) <= n
            &&& t.lexeme() == Lexeme::Literal(
                reader_of(*number)(src@.subrange(*old(index) as int, *final(index) as int)),
            )
        },
{
    let ghost cs = src@;
    let ghost nf = reader_of(*number);
    let i = *index;
    proof {
        lemma_number_end(cs, i as int);
        lemma_number_end(cs, i + 1);
    }
    let mut j: usize = i;
    let mut seen_point = false;
    while j < n
        invariant
            i < n,
            n == cs.len(),
            cs == src@,
            i <= j <= n,
            number_end(cs, i as int) == number_end(cs, j as int),
            seen_point == (exists|a: int| i <= a < j && cs[a] == '.'),
            !two_points(cs, i as int, j as int),
            i == *old(index),
        ensures
            number_end(cs, i as int) == j,
            !two_points(cs, i as int, j as int),
        decreases n - j,
    {
        let d = src.get_char(j);
        proof {
            lemma_number_end(cs, j + 1);
        }
        if d == '.' {
            if seen_point {
                proof {
                    let a = choose|a: int| i <= a < j && cs[a] == '.';
                    assert(number_end(cs, j as int) == number_end(cs, j + 1));
                    assert(i <= a < j < number_end(cs, i as int) && cs[a] == '.' && cs[j as int] == '.');
                    assert(two_points(cs, i as int, number_end(cs, i as int)));
                }
                return Err(LexError);
            }
            seen_point = true;
        } else if !('0' <= d && d <= '9') {
            break;
        }
        j = j + 1;
    }
    proof {
        assert(number_end(cs, i as int) == number_end(cs, i + 1));
    }
    *index = j;
    let text = String::from_str(src.substring_char(i, j));
    let value = number(text);
    proof {
        assert(number.ensures((text,), value) && text@ == cs.subrange(i as int, j as int));
        let (r, s) = choose|r: Number, s: String| #[trigger] number.ensures((s,), r) && s@ == cs.subrange(i as int, j as int);
        assert(nf(cs.subrange(i as int, j as int)) == r);
    }
    Ok(Token::Literal(value))
}

/// Splits an expression into tokens. `number` gives the value of the text of
/// each number (digits with at most one decimal point).
pub fn lex<N: Fn(String) -> Number>(src: &str, number: &N) -> (r: Result<Vec<Token>, LexError>)
    requires
        is_number_reader(*number),
    ensures
        match lexed(src@, 0, reader_of(*number)) {
            Ok(ls) => r matches Ok(ts) && lexemes(ts@) == ls,
            Err(e) => r == Err::<Vec<Token>, LexError>(e),
        },
{
    let ghost nf = reader_of(*number);
    let ghost cs = src@;
    let n = src.unicode_len();
    let mut tokens: Vec<Token> = Vec::new();
    let mut index: usize = 0;
    while index < n
        invariant
            is_number_reader(*number),
            nf == reader_of(*number),
            cs == src@,
            n == cs.len(),
            index <= n,
            lexed(cs, 0, nf) == prefixed(lexemes(tokens@), lexed(cs, index as int, nf)),
        decreases n - index,
    {
        let i = index;
        let c = src.get_char(i);
        let ghost before = tokens@;
        if c == ' ' {
            index = i + 1;
            continue;
        }
        let t = if let Some(t) = single_token(c) {
            index = i + 1;
            t
        } else if '0' <= c && c <= '9' {
            match get_number_token_at(src, n, &mut index, number) {
                Err(e) => return Err(e),
                Ok(t) => t,
            }
        } else if ('a' <= c && c <= 'z') || ('A' <= c && c <= 'Z') {
            get_const_variable_or_function_token_at(src, n, &mut index)
        } else {
            return Err(LexError);
        };
        tokens.push(t);
        proof {
            assert(lexed(cs, i as int, nf) == prefixed(seq![t.lexeme()], lexed(cs, index as int, nf)));
            assert(lexemes(tokens@) =~= lexemes(before) + seq![t.lexeme()]);
            assert(lexemes(tokens@) + lexed(cs, index as int, nf)->Ok_0 =~= lexemes(before) + (seq![t.lexeme()] + lexed(cs, index as int, nf)->Ok_0));
        }
    }
    proof {
        assert(lexemes(tokens@) + Seq::<Lexeme>::empty() =~= lexemes(tokens@));
    }
    Ok(tokens)
}

} // verus!
