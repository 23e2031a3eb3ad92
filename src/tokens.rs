use vstd::prelude::*;
use crate::number::Number;

verus! {

/// The five binary operators. Their declaration order is the rank used when
/// rendering: `Sub < Add < Mul < Div < Pow`.
#[derive(Clone, Copy, Debug, PartialEq, Eq, Structural, PartialOrd, Ord, Hash)]
pub enum BinOp {
    Sub,
    Add,
    Mul,
    Div,
    Pow,
}

pub open spec fn spec_rank(op: BinOp) -> nat {
    match op {
        BinOp::Sub => 0,
        BinOp::Add => 1,
        BinOp::Mul => 2,
        BinOp::Div => 3,
        BinOp::Pow => 4,
    }
}

/// The symbol of each operator as written in an expression.
pub open spec fn spec_symbol(op: BinOp) -> char {
    match op {
        BinOp::Sub => '-',
        BinOp::Add => '+',
        BinOp::Mul => '*',
        BinOp::Div => '/',
        BinOp::Pow => '^',
    }
}

impl BinOp {
    /// The operator's rank in the fixed order `Sub < Add < Mul < Div < Pow`.
    pub fn rank(&self) -> (r: u8)
        ensures
            r as nat == spec_rank(*self),
    {
        match self {
            BinOp::Sub => 0,
            BinOp::Add => 1,
            BinOp::Mul => 2,
            BinOp::Div => 3,
            BinOp::Pow => 4,
        }
    }

    pub fn symbol(&self) -> (r: char)
        ensures
            r == spec_symbol(*self),
    {
        match self {
            BinOp::Sub => '-',
            BinOp::Add => '+',
            BinOp::Mul => '*',
            BinOp::Div => '/',
            BinOp::Pow => '^',
        }
    }

    /// The operator's symbol as a string.
    pub fn to_string(&self) -> (r: String)
        ensures
            r@ == seq![spec_symbol(*self)],
    {
        let r = match self {
            BinOp::Sub => String::from_str("-"),
            BinOp::Add => String::from_str("+"),
            BinOp::Mul => String::from_str("*"),
            BinOp::Div => String::from_str("/"),
            BinOp::Pow => String::from_str("^"),
        };
        proof {
            reveal_strlit("-");
            reveal_strlit("+");
            reveal_strlit("*");
            reveal_strlit("/");
            reveal_strlit("^");
        }
        assert(r@ =~= seq![spec_symbol(*self)]);
        r
    }
}

/// One lexical unit of an expression.
#[derive(Clone, Debug)]
pub enum Token {
    OpenParen,
    CloseParen,
    Literal(Number),
    SymbolicConstant(String),
    Variable(String),
    Function(String),
    BinOp(BinOp),
    Comma,
}


/// The model of a token: names are character sequences.
pub enum Lexeme {
    OpenParen,
    CloseParen,
    Literal(Number),
    SymbolicConstant(Seq<char>),
    Variable(Seq<char>),
    Function(Seq<char>),
    BinOp(BinOp),
    Comma,
}

impl Token {
    pub open spec fn lexeme(&self) -> Lexeme {
        match self {
            Token::OpenParen => Lexeme::OpenParen,
            Token::CloseParen => Lexeme::CloseParen,
            Token::Literal(v) => Lexeme::Literal(*v),
            Token::SymbolicConstant(n) => Lexeme::SymbolicConstant(n@),
            Token::Variable(n) => Lexeme::Variable(n@),
            Token::Function(n) => Lexeme::Function(n@),
            Token::BinOp(op) => Lexeme::BinOp(*op),
            Token::Comma => Lexeme::Comma,
        }
    }
}

pub open spec fn lexemes(ts: Seq<Token>) -> Seq<Lexeme> {
    ts.map_values(|t: Token| t.lexeme())
}

} // verus!
