use vstd::prelude::*;
use crate::ast::{AST, Term, bin, func1, terms, lemma_terms, lemma_terms_push};
use crate::number::Number;
use crate::tokens::{BinOp, Token};

verus! {

broadcast use vstd::std_specs::vec::group_vec_axioms, vstd::seq::group_seq_axioms;

/// A syntax error.
#[derive(Clone, Copy, Debug, PartialEq, Eq, Structural)]
pub enum ParseError {
    /// A token was needed past the end of the input.
    EndOfStream,
    /// A closing parenthesis stands where an operand is expected.
    UnclosedParen,
    /// An opening or closing parenthesis was expected and something else came.
    MissingParen,
    /// A binary operator stands where an operand is expected.
    UnexpectedOperator,
    /// Input is left after a complete expression, or a comma stands where an
    /// operand is expected.
    UnexpectedTokens,
}

impl ParseError {
    /// The error's message.
    pub fn to_string(&self) -> (r: String)
        ensures
            r@ == "died parsing lol"@,
    {
        String::from_str("died parsing lol")
    }
}

/// A parse of a prefix: the tree and the position after it.
pub type Parsed = Result<(Term, int), ParseError>;

pub open spec fn is_op(ts: Seq<Token>, j: int, op: BinOp) -> bool {
    0 <= j < ts.len() && ts[j] == Token::BinOp(op)
}

pub open spec fn is_additive(ts: Seq<Token>, j: int) -> bool {
    is_op(ts, j, BinOp::Add) || is_op(ts, j, BinOp::Sub)
}

pub open spec fn is_multiplicative(ts: Seq<Token>, j: int) -> bool {
    is_op(ts, j, BinOp::Mul) || is_op(ts, j, BinOp::Div)
}

pub open spec fn op_at(ts: Seq<Token>, j: int) -> BinOp {
    match ts[j] {
        Token::BinOp(op) => op,
        _ => BinOp::Add,
    }
}

/// `term := factor ((Add | Sub) factor)*`, grouping to the left.
pub open spec fn p_term(ts: Seq<Token>, i: int) -> Parsed
    decreases ts.len() - i, 4nat,
{
    match p_factor(ts, i) {
        Err(e) => Err(e),
        Ok((l, k)) => if i < k <= ts.len() { term_rest(ts, l, k) } else { Ok((l, k)) },
    }
}

pub open spec fn term_rest(ts: Seq<Token>, left: Term, j: int) -> Parsed
    decreases ts.len() - j, 5nat,
{
    if is_additive(ts, j) {
        match p_factor(ts, j + 1) {
            Err(e) => Err(e),
            Ok((r, k)) => if j < k <= ts.len() { term_rest(ts, bin(op_at(ts, j), left, r), k) } else { Ok((left, k)) },
        }
    } else {
        Ok((left, j))
    }
}

/// `factor := power ((Mul | Div) power)*`, grouping to the left.
pub open spec fn p_factor(ts: Seq<Token>, i: int) -> Parsed
    decreases ts.len() - i, 3nat,
{
    match p_power(ts, i) {
        Err(e) => Err(e),
        Ok((l, k)) => if i < k <= ts.len() { factor_rest(ts, l, k) } else { Ok((l, k)) },
    }
}

pub open spec fn factor_rest(ts: Seq<Token>, left: Term, j: int) -> Parsed
    decreases ts.len() - j, 5nat,
{
    if is_multiplicative(ts, j) {
        match p_power(ts, j + 1) {
            Err(e) => Err(e),
            Ok((r, k)) => if j < k <= ts.len() { factor_rest(ts, bin(op_at(ts, j), left, r), k) } else { Ok((left, k)) },
        }
    } else {
        Ok((left, j))
    }
}

/// `power := unary (Pow unary)*`, grouping to the right.
pub open spec fn p_power(ts: Seq<Token>, i: int) -> Parsed
    decreases ts.len() - i, 2nat,
{
    match p_unary(ts, i) {
        Err(e) => Err(e),
        Ok((u, k)) => if i < k <= ts.len() && is_op(ts, k, BinOp::Pow) {
            match p_power(ts, k + 1) {
                Err(e) => Err(e),
                Ok((r, m)) => Ok((bin(BinOp::Pow, u, r), m)),
            }
        } else {
            Ok((u, k))
        },
    }
}

/// `unary := Sub unary | primary`; a negation is the function `-` of one argument.
pub open spec fn p_unary(ts: Seq<Token>, i: int) -> Parsed
    decreases ts.len() - i, 1nat,
{
    if is_op(ts, i, BinOp::Sub) {
        match p_unary(ts, i + 1) {
            Err(e) => Err(e),
            Ok((u, k)) => Ok((func1("-"@, u), k)),
        }
    } else {
        p_primary(ts, i)
    }
}

/// `primary := Literal | SymbolicConstant | Variable
///            | Function '(' term (',' term)* ')' | '(' term ')'`.
pub open spec fn p_primary(ts: Seq<Token>, i: int) -> Parsed
    decreases ts.len() - i, 0nat,
{
    if i < 0 || i >= ts.len() {
        Err(ParseError::EndOfStream)
    } else {
        match ts[i] {
            Token::Literal(v) => Ok((Term::Lit(v), i + 1)),
            Token::SymbolicConstant(name) => Ok((Term::Const(name@), i + 1)),
            Token::Variable(name) => Ok((Term::Var(name@), i + 1)),
            Token::CloseParen => Err(ParseError::UnclosedParen),
            Token::Comma => Err(ParseError::UnexpectedTokens),
            Token::BinOp(_) => Err(ParseError::UnexpectedOperator),
            Token::OpenParen => match p_term(ts, i + 1) {
                Err(e) => Err(e),
                Ok((t, k)) => close_paren(ts, t, k),
            },
            Token::Function(name) => if i + 1 >= ts.len() {
                Err(ParseError::EndOfStream)
            } else if ts[i + 1] != Token::OpenParen {
                Err(ParseError::MissingParen)
            } else {
                match p_term(ts, i + 2) {
                    Err(e) => Err(e),
                    Ok((a, k)) => if i + 2 < k <= ts.len() {
                        match args_rest(ts, seq![a], k) {
                            Err(e) => Err(e),
                            Ok((args, m)) => close_paren(ts, Term::Func(name@, args), m),
                        }
                    } else {
                        Ok((a, k))
                    },
                }
            },
        }
    }
}

/// The closing parenthesis expected at `k` after `t`.
pub open spec fn close_paren(ts: Seq<Token>, t: Term, k: int) -> Parsed {
    if k < 0 || k >= ts.len() {
        Err(ParseError::EndOfStream)
    } else if ts[k] == Token::CloseParen {
        Ok((t, k + 1))
    } else {
        Err(ParseError::MissingParen)
    }
}

/// Further arguments of a call, each after a comma.
pub open spec fn args_rest(ts: Seq<Token>, acc: Seq<Term>, j: int) -> Result<(Seq<Term>, int), ParseError>
    decreases ts.len() - j, 5nat,
{
    if 0 <= j < ts.len() && ts[j] == Token::Comma {
        match p_term(ts, j + 1) {
            Err(e) => Err(e),
            Ok((a, k)) => if j < k <= ts.len() { args_rest(ts, acc.push(a), k) } else { Ok((acc, k)) },
        }
    } else {
        Ok((acc, j))
    }
}

/// A whole token sequence as one expression: a term that uses every token.
pub open spec fn parsed(ts: Seq<Token>) -> Result<Term, ParseError> {
    match p_term(ts, 0) {
        Err(e) => Err(e),
        Ok((t, k)) => if k == ts.len() { Ok(t) } else { Err(ParseError::UnexpectedTokens) },
    }
}


pub open spec fn advances(r: Parsed, i: int, n: int) -> bool {
    r matches Ok((_, k)) ==> i < k <= n
}

pub open spec fn keeps(r: Parsed, j: int, n: int) -> bool {
    r matches Ok((_, k)) ==> j <= k <= n
}

/// Every successful parse of a level uses at least one token and stays
/// inside the input.
pub proof fn lemma_term_advances(ts: Seq<Token>, i: int)
    requires
        0 <= i <= ts.len(),
    ensures
        advances(p_term(ts, i), i, ts.len() as int),
    decreases ts.len() - i, 4nat,
{
    lemma_factor_advances(ts, i);
    if let Ok((l, k)) = p_factor(ts, i) {
        lemma_term_rest_keeps(ts, l, k);
    }
}

pub proof fn lemma_term_rest_keeps(ts: Seq<Token>, left: Term, j: int)
    requires
        0 <= j <= ts.len(),
    ensures
        keeps(term_rest(ts, left, j), j, ts.len() as int),
    decreases ts.len() - j, 5nat,
{
    if is_additive(ts, j) {
        lemma_factor_advances(ts, j + 1);
        if let Ok((r, k)) = p_factor(ts, j + 1) {
            lemma_term_rest_keeps(ts, bin(op_at(ts, j), left, r), k);
        }
    }
}

pub proof fn lemma_factor_advances(ts: Seq<Token>, i: int)
    requires
        0 <= i <= ts.len(),
    ensures
        advances(p_factor(ts, i), i, ts.len() as int),
    decreases ts.len() - i, 3nat,
{
    lemma_power_advances(ts, i);
    if let Ok((l, k)) = p_power(ts, i) {
        lemma_factor_rest_keeps(ts, l, k);
    }
}

pub proof fn lemma_factor_rest_keeps(ts: Seq<Token>, left: Term, j: int)
    requires
        0 <= j <= ts.len(),
    ensures
        keeps(factor_rest(ts, left, j), j, ts.len() as int),
    decreases ts.len() - j, 5nat,
{
    if is_multiplicative(ts, j) {
        lemma_power_advances(ts, j + 1);
        if let Ok((r, k)) = p_power(ts, j + 1) {
            lemma_factor_rest_keeps(ts, bin(op_at(ts, j), left, r), k);
        }
    }
}

pub proof fn lemma_power_advances(ts: Seq<Token>, i: int)
    requires
        0 <= i <= ts.len(),
    ensures
        advances(p_power(ts, i), i, ts.len() as int),
    decreases ts.len() - i, 2nat,
{
    lemma_unary_advances(ts, i);
    if let Ok((u, k)) = p_unary(ts, i) {
        if is_op(ts, k, BinOp::Pow) {
            lemma_power_advances(ts, k + 1);
        }
    }
}

pub proof fn lemma_unary_advances(ts: Seq<Token>, i: int)
    requires
        0 <= i <= ts.len(),
    ensures
        advances(p_unary(ts, i), i, ts.len() as int),
    decreases ts.len() - i, 1nat,
{
    if is_op(ts, i, BinOp::Sub) {
        lemma_unary_advances(ts, i + 1);
    } else {
        lemma_primary_advances(ts, i);
    }
}

pub proof fn lemma_primary_advances(ts: Seq<Token>, i: int)
    requires
        0 <= i <= ts.len(),
    ensures
        advances(p_primary(ts, i), i, ts.len() as int),
    decreases ts.len() - i, 0nat,
{
    if i < ts.len() {
        match ts[i] {
            Token::OpenParen => {
                lemma_term_advances(ts, i + 1);
            },
            Token::Function(name) => {
                if i + 1 < ts.len() && ts[i + 1] == Token::OpenParen {
                    lemma_term_advances(ts, i + 2);
                    if let Ok((a, k)) = p_term(ts, i + 2) {
                        lemma_args_rest_keeps(ts, seq![a], k);
                    }
                }
            },
            _ => {},
        }
    }
}

pub proof fn lemma_args_rest_keeps(ts: Seq<Token>, acc: Seq<Term>, j: int)
    requires
        0 <= j <= ts.len(),
    ensures
        args_rest(ts, acc, j) matches Ok((_, k)) ==> j <= k <= ts.len(),
    decreases ts.len() - j, 5nat,
{
    if 0 <= j < ts.len() && ts[j] == Token::Comma {
        lemma_term_advances(ts, j + 1);
        if let Ok((a, k)) = p_term(ts, j + 1) {
            lemma_args_rest_keeps(ts, acc.push(a), k);
        }
    }
}


/// A chain of powers groups to the right: `a ^ b ^ c` is `a ^ (b ^ c)`.
pub proof fn law_power_groups_right(a: Number, b: Number, c: Number)
    ensures
        parsed(
            seq![
                Token::Literal(a),
                Token::BinOp(BinOp::Pow),
                Token::Literal(b),
                Token::BinOp(BinOp::Pow),
                Token::Literal(c),
            ],
        ) == Ok::<Term, ParseError>(
            bin(BinOp::Pow, Term::Lit(a), bin(BinOp::Pow, Term::Lit(b), Term::Lit(c))),
        ),
{
    let ts = seq![
        Token::Literal(a),
        Token::BinOp(BinOp::Pow),
        Token::Literal(b),
        Token::BinOp(BinOp::Pow),
        Token::Literal(c),
    ];
    let bc = bin(BinOp::Pow, Term::Lit(b), Term::Lit(c));
    let abc = bin(BinOp::Pow, Term::Lit(a), bc);
    assert(p_primary(ts, 4) == Ok::<(Term, int), ParseError>((Term::Lit(c), 5)));
    assert(p_unary(ts, 4) == Ok::<(Term, int), ParseError>((Term::Lit(c), 5)));
    assert(p_power(ts, 4) == Ok::<(Term, int), ParseError>((Term::Lit(c), 5)));
    assert(p_unary(ts, 2) == Ok::<(Term, int), ParseError>((Term::Lit(b), 3)));
    assert(p_power(ts, 2) == Ok::<(Term, int), ParseError>((bc, 5)));
    assert(p_unary(ts, 0) == Ok::<(Term, int), ParseError>((Term::Lit(a), 1)));
    assert(p_power(ts, 0) == Ok::<(Term, int), ParseError>((abc, 5)));
    assert(factor_rest(ts, abc, 5) == Ok::<(Term, int), ParseError>((abc, 5)));
    assert(p_factor(ts, 0) == Ok::<(Term, int), ParseError>((abc, 5)));
    assert(term_rest(ts, abc, 5) == Ok::<(Term, int), ParseError>((abc, 5)));
    assert(p_term(ts, 0) == Ok::<(Term, int), ParseError>((abc, 5)));
}

/// How an executable parse reports its model: the tree and the new position
/// on success, the error otherwise.
pub open spec fn delivers(r: Result<AST, ParseError>, at: int, s: Parsed) -> bool {
    match s {
        Ok((t, k)) => r matches Ok(x) && x.term() == t && at == k,
        Err(e) => r == Err::<AST, ParseError>(e),
    }
}

pub open spec fn finish_call(ts: Seq<Token>, name: Seq<char>, r: Result<(Seq<Term>, int), ParseError>) -> Parsed {
    match r {
        Err(e) => Err(e),
        Ok((args, m)) => close_paren(ts, Term::Func(name, args), m),
    }
}

/// Parses a whole token sequence into one expression tree.
pub fn parse(tokens: &Vec<Token>) -> (r: Result<AST, ParseError>)
    ensures
        match parsed(tokens@) {
            Ok(t) => r matches Ok(x) && x.term() == t,
            Err(e) => r == Err::<AST, ParseError>(e),
        },
{
    let mut index: usize = 0;
    let res = parse_term(tokens, &mut index);
    match res {
        Err(e) => Err(e),
        Ok(t) => if index != tokens.len() {
            Err(ParseError::UnexpectedTokens)
        } else {
            Ok(t)
        },
    }
}

/// The additive operator at position `j`, if one stands there.
fn additive_at(tokens: &Vec<Token>, j: usize) -> (r: Option<BinOp>)
    ensures
        r matches Some(op) ==> is_additive(tokens@, j as int) && op == op_at(tokens@, j as int),
        r is None ==> !is_additive(tokens@, j as int),
{
    if j < tokens.len() {
        match &tokens[j] {
            Token::BinOp(BinOp::Add) => Some(BinOp::Add),
            Token::BinOp(BinOp::Sub) => Some(BinOp::Sub),
            _ => None,
        }
    } else {
        None
    }
}

/// The multiplicative operator at position `j`, if one stands there.
fn multiplicative_at(tokens: &Vec<Token>, j: usize) -> (r: Option<BinOp>)
    ensures
        r matches Some(op) ==> is_multiplicative(tokens@, j as int) && op == op_at(tokens@, j as int),
        r is None ==> !is_multiplicative(tokens@, j as int),
{
    if j < tokens.len() {
        match &tokens[j] {
            Token::BinOp(BinOp::Mul) => Some(BinOp::Mul),
            Token::BinOp(BinOp::Div) => Some(BinOp::Div),
            _ => None,
        }
    } else {
        None
    }
}

fn op_is(tokens: &Vec<Token>, j: usize, op: BinOp) -> (r: bool)
    ensures
        r == is_op(tokens@, j as int, op),
{
    if j < tokens.len() {
        match &tokens[j] {
            Token::BinOp(o) => *o == op,
            _ => false,
        }
    } else {
        false
    }
}

fn parse_term(tokens: &Vec<Token>, index: &mut usize) -> (r: Result<AST, ParseError>)
    requires
        *old(index) <= tokens.len(),
    ensures
        delivers(r, *final(index) as int, p_term(tokens@, *old(index) as int)),
        r is Ok ==> *final(index) <= tokens.len(),
    decreases tokens.len() - *old(index), 5nat,
{
    let ghost i0 = *index as int;
    proof {
        lemma_factor_advances(tokens@, i0);
    }
    let mut left = match parse_factor(tokens, index) {
        Err(e) => return Err(e),
        Ok(l) => l,
    };
    loop
        invariant
            i0 == *old(index),
            i0 < *index <= tokens.len(),
            p_term(tokens@, i0) == term_rest(tokens@, left.term(), *index as int),
        decreases tokens.len() - *index,
    {
        let j = *index;
        match additive_at(tokens, j) {
            None => return Ok(left),
            Some(op) => {
                *index = j + 1;
                proof {
                    lemma_factor_advances(tokens@, j + 1);
                }
                let right = match parse_factor(tokens, index) {
                    Err(e) => return Err(e),
                    Ok(r) => r,
                };
                left = left.binary(op, right);
            },
        }
    }
}

fn parse_factor(tokens: &Vec<Token>, index: &mut usize) -> (r: Result<AST, ParseError>)
    requires
        *old(index) <= tokens.len(),
    ensures
        delivers(r, *final(index) as int, p_factor(tokens@, *old(index) as int)),
        r is Ok ==> *final(index) <= tokens.len(),
    decreases tokens.len() - *old(index), 4nat,
{
    let ghost i0 = *index as int;
    proof {
        lemma_power_advances(tokens@, i0);
    }
    let mut left = match parse_pow(tokens, index) {
        Err(e) => return Err(e),
        Ok(l) => l,
    };
    loop
        invariant
            i0 == *old(index),
            i0 < *index <= tokens.len(),
            p_factor(tokens@, i0) == factor_rest(tokens@, left.term(), *index as int),
        decreases tokens.len() - *index,
    {
        let j = *index;
        match multiplicative_at(tokens, j) {
            None => return Ok(left),
            Some(op) => {
                *index = j + 1;
                proof {
                    lemma_power_advances(tokens@, j + 1);
                }
                let right = match parse_pow(tokens, index) {
                    Err(e) => return Err(e),
                    Ok(r) => r,
                };
                left = left.binary(op, right);
            },
        }
    }
}

fn parse_pow(tokens: &Vec<Token>, index: &mut usize) -> (r: Result<AST, ParseError>)
    requires
        *old(index) <= tokens.len(),
    ensures
        delivers(r, *final(index) as int, p_power(tokens@, *old(index) as int)),
        r is Ok ==> *final(index) <= tokens.len(),
    decreases tokens.len() - *old(index), 3nat,
{
    let ghost i0 = *index as int;
    proof {
        lemma_unary_advances(tokens@, i0);
    }
    let base = match parse_unary(tokens, index) {
        Err(e) => return Err(e),
        Ok(u) => u,
    };
    let k = *index;
    if op_is(tokens, k, BinOp::Pow) {
        *index = k + 1;
        proof {
            lemma_power_advances(tokens@, k + 1);
        }
        let exponent = match parse_pow(tokens, index) {
            Err(e) => return Err(e),
            Ok(e) => e,
        };
        Ok(base.pow(exponent))
    } else {
        Ok(base)
    }
}

fn parse_unary(tokens: &Vec<Token>, index: &mut usize) -> (r: Result<AST, ParseError>)
    requires
        *old(index) <= tokens.len(),
    ensures
        delivers(r, *final(index) as int, p_unary(tokens@, *old(index) as int)),
        r is Ok ==> *final(index) <= tokens.len(),
    decreases tokens.len() - *old(index), 2nat,
{
    let ghost i0 = *index as int;
    proof {
        lemma_unary_advances(tokens@, i0);
        lemma_primary_advances(tokens@, i0);
    }
    if op_is(tokens, *index, BinOp::Sub) {
        *index = *index + 1;
        let operand = match parse_unary(tokens, index) {
            Err(e) => return Err(e),
            Ok(u) => u,
        };
        Ok(AST::unary(String::from_str("-"), operand))
    } else {
        parse_primary(tokens, index)
    }
}

fn parse_primary(tokens: &Vec<Token>, index: &mut usize) -> (r: Result<AST, ParseError>)
    requires
        *old(index) <= tokens.len(),
    ensures
        delivers(r, *final(index) as int, p_primary(tokens@, *old(index) as int)),
        r is Ok ==> *final(index) <= tokens.len(),
    decreases tokens.len() - *old(index), 1nat,
{
    let i = *index;
    if i >= tokens.len() {
        return Err(ParseError::EndOfStream);
    }
    match &tokens[i] {
        Token::Literal(v) => {
            *index = i + 1;
            Ok(AST::Literal { value: *v })
        },
        Token::SymbolicConstant(name) => {
            *index = i + 1;
            Ok(AST::SymbolicConstant { name: name.clone() })
        },
        Token::Variable(name) => {
            *index = i + 1;
            Ok(AST::Variable { name: name.clone() })
        },
        Token::CloseParen => Err(ParseError::UnclosedParen),
        Token::Comma => Err(ParseError::UnexpectedTokens),
        Token::BinOp(_) => Err(ParseError::UnexpectedOperator),
        Token::OpenParen => {
            *index = i + 1;
            proof {
                lemma_term_advances(tokens@, i + 1);
            }
            let inner = match parse_term(tokens, index) {
                Err(e) => return Err(e),
                Ok(t) => t,
            };
            expect_close(tokens, index, inner)
        },
        Token::Function(name) => parse_call(tokens, index, name),
    }
}

/// A call `name(term, ...)`, whose name token stands at the position.
fn parse_call(tokens: &Vec<Token>, index: &mut usize, name: &String) -> (r: Result<AST, ParseError>)
    requires
        *old(index) < tokens.len(),
        tokens@[*old(index) as int] == Token::Function(*name),
    ensures
        delivers(r, *final(index) as int, p_primary(tokens@, *old(index) as int)),
        r is Ok ==> *final(index) <= tokens.len(),
    decreases tokens.len() - *old(index), 0nat,
{
    let i = *index;
    if i + 1 >= tokens.len() {
        return Err(ParseError::EndOfStream);
    }
    match &tokens[i + 1] {
        Token::OpenParen => {},
        _ => return Err(ParseError::MissingParen),
    }
    *index = i + 2;
    proof {
        lemma_term_advances(tokens@, i + 2);
    }
    let first = match parse_term(tokens, index) {
        Err(e) => return Err(e),
        Ok(t) => t,
    };
    let ghost a0 = first.term();
    let mut args: Vec<AST> = Vec::new();
    args.push(first);
    proof {
        lemma_terms(args@);
        assert(terms(args@) =~= seq![a0]);
    }
    loop
        invariant
            i == *old(index),
            i + 2 < *index <= tokens.len(),
            i < tokens.len(),
            tokens@[i as int] == Token::Function(*name),
            p_primary(tokens@, i as int) == finish_call(tokens@, name@, args_rest(tokens@, terms(args@), *index as int)),
        ensures
            i + 2 < *index <= tokens.len(),
            p_primary(tokens@, i as int) == finish_call(tokens@, name@, args_rest(tokens@, terms(args@), *index as int)),
            !(*index < tokens.len() && tokens@[*index as int] == Token::Comma),
        decreases tokens.len() - *index,
    {
        let j = *index;
        let comma = j < tokens.len() && match &tokens[j] {
            Token::Comma => true,
            _ => false,
        };
        if !comma {
            break;
        }
        *index = j + 1;
        proof {
            lemma_term_advances(tokens@, j + 1);
        }
        let next = match parse_term(tokens, index) {
            Err(e) => return Err(e),
            Ok(t) => t,
        };
        proof {
            lemma_terms_push(args@, next);
        }
        args.push(next);
    }
    proof {
        let jj = *index as int;
        assert(args_rest(tokens@, terms(args@), jj) == Ok::<(Seq<Term>, int), ParseError>((terms(args@), jj)));
    }
    let call = AST::Function { name: name.clone(), args };
    expect_close(tokens, index, call)
}

/// The closing parenthesis that must follow `t`.
fn expect_close(tokens: &Vec<Token>, index: &mut usize, t: AST) -> (r: Result<AST, ParseError>)
    requires
        *old(index) <= tokens.len(),
    ensures
        delivers(r, *final(index) as int, close_paren(tokens@, t.term(), *old(index) as int)),
        r is Ok ==> *final(index) <= tokens.len(),
{
    let k = *index;
    if k >= tokens.len() {
        return Err(ParseError::EndOfStream);
    }
    match &tokens[k] {
        Token::CloseParen => {
            *index = k + 1;
            Ok(t)
        },
        _ => Err(ParseError::MissingParen),
    }
}

} // verus!
