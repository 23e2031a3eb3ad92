use vstd::prelude::*;
use crate::ast::{AST, Term, bin, func1, lit, terms, lemma_terms, size, sizes, str_eq};
use crate::number::{ZERO_BITS, ONE_BITS, MINUS_ONE_BITS, TWO_BITS};
use crate::tokens::BinOp;

verus! {

/// Every function application in the term has exactly one argument.
pub open spec fn unary_only(t: Term) -> bool
    decreases t,
{
    match t {
        Term::Func(_, args) => args.len() == 1 && unary_only(args[0]),
        Term::Bin(_, l, r) => unary_only(*l) && unary_only(*r),
        _ => true,
    }
}

/// The derivative of the outer function `name` at `a`, by name; an unknown
/// name `f` gives the placeholder `f'(a)`.
pub open spec fn outer_derivative(name: Seq<char>, a: Term) -> Term {
    if name == "-"@ {
        lit(MINUS_ONE_BITS)
    } else if name == "sin"@ {
        func1("cos"@, a)
    } else if name == "cos"@ {
        bin(BinOp::Mul, lit(MINUS_ONE_BITS), func1("sin"@, a))
    } else if name == "tan"@ {
        bin(BinOp::Pow, func1("sec"@, a), lit(TWO_BITS))
    } else if name == "ln"@ {
        bin(BinOp::Div, lit(ONE_BITS), a)
    } else {
        func1(name + "'"@, a)
    }
}

/// The derivative of a term by the rules of sum, difference, product,
/// quotient, generalised power and chain; every variable is the variable of
/// differentiation.
pub open spec fn derivative(t: Term) -> Term
    decreases t,
{
    match t {
        Term::Lit(_) => lit(ZERO_BITS),
        Term::Const(_) => lit(ZERO_BITS),
        Term::Var(_) => lit(ONE_BITS),
        Term::Func(name, args) => if args.len() == 1 {
            bin(BinOp::Mul, derivative(args[0]), outer_derivative(name, args[0]))
        } else {
            t
        },
        Term::Bin(op, l, r) => match op {
            BinOp::Add => bin(BinOp::Add, derivative(*l), derivative(*r)),
            BinOp::Sub => bin(BinOp::Sub, derivative(*l), derivative(*r)),
            BinOp::Mul => bin(
                BinOp::Add,
                bin(BinOp::Mul, *l, derivative(*r)),
                bin(BinOp::Mul, *r, derivative(*l)),
            ),
            BinOp::Div => bin(
                BinOp::Div,
                bin(
                    BinOp::Sub,
                    bin(BinOp::Mul, *r, derivative(*l)),
                    bin(BinOp::Mul, *l, derivative(*r)),
                ),
                bin(BinOp::Pow, *r, lit(TWO_BITS)),
            ),
            BinOp::Pow => bin(
                BinOp::Mul,
                bin(BinOp::Pow, *l, *r),
                bin(
                    BinOp::Add,
                    bin(BinOp::Mul, derivative(*r), func1("ln"@, *l)),
                    bin(BinOp::Div, bin(BinOp::Mul, *r, derivative(*l)), *l),
                ),
            ),
        },
    }
}

impl AST {
    /// Whether every function node of the tree has exactly one argument, so
    /// that the tree can be differentiated.
    pub fn has_unary_calls_only(&self) -> (r: bool)
        ensures
            r == unary_only(self.term()),
        decreases self,
    {
        match self {
            AST::Function { name, args } => {
                proof {
                    lemma_terms(args@);
                }
                if args.len() != 1 {
                    return false;
                }
                args[0].has_unary_calls_only()
            },
            AST::BinOp { op, left, right } => left.has_unary_calls_only() && right.has_unary_calls_only(),
            _ => true,
        }
    }

    /// A new tree: the derivative of this one. Every function node must have
    /// exactly one argument.
    pub fn differentiate(&self) -> (r: AST)
        requires
            unary_only(self.term()),
        ensures
            r.term() == derivative(self.term()),
        decreases size(self.term()), 1nat,
    {
        match self {
            AST::Literal { .. } => AST::literal(ZERO_BITS),
            AST::SymbolicConstant { .. } => AST::literal(ZERO_BITS),
            AST::Variable { .. } => AST::literal(ONE_BITS),
            AST::BinOp { op, left, right } => get_binop_derivative(*op, left, right),
            AST::Function { name, args } => {
                proof {
                    lemma_terms(args@);
                    let s = terms(args@);
                    assert(s.drop_last().len() == 0);
                    assert(sizes(s.drop_last()) == 0);
                    assert(sizes(s) == size(args[0].term()));
                }
                get_function_derivative(name, args)
            },
        }
    }
}

fn get_function_derivative(name: &String, args: &Vec<AST>) -> (r: AST)
    requires
        args.len() == 1,
        unary_only(args[0].term()),
    ensures
        r.term() == bin(BinOp::Mul, derivative(args[0].term()), outer_derivative(name@, args[0].term())),
    decreases size(args[0].term()) + 1, 0nat,
{
    let inner = args[0].differentiate();
    let arg = args[0].deep_copy();
    let outer = if str_eq(name, "-") {
        AST::literal(MINUS_ONE_BITS)
    } else if str_eq(name, "sin") {
        AST::unary(String::from_str("cos"), arg)
    } else if str_eq(name, "cos") {
        AST::literal(MINUS_ONE_BITS) * AST::unary(String::from_str("sin"), arg)
    } else if str_eq(name, "tan") {
        AST::unary(String::from_str("sec"), arg).pow(AST::literal(TWO_BITS))
    } else if str_eq(name, "ln") {
        AST::literal(ONE_BITS) / arg
    } else {
        AST::unary(name.clone().concat("'"), arg)
    };
    inner * outer
}

fn get_binop_derivative(op: BinOp, left: &AST, right: &AST) -> (r: AST)
    requires
        unary_only(left.term()),
        unary_only(right.term()),
    ensures
        r.term() == derivative(bin(op, left.term(), right.term())),
    decreases size(left.term()) + size(right.term()) + 1, 0nat,
{
    match op {
        BinOp::Add => {
            let r = left.differentiate() + right.differentiate();
            assert(r.term() == derivative(bin(op, left.term(), right.term())));
            r
        },
        BinOp::Sub => left.differentiate() - right.differentiate(),
        BinOp::Mul => {
            let dl = left.differentiate();
            let dr = right.differentiate();
            let a = left.deep_copy() * dr;
            assert(a.term() == bin(BinOp::Mul, left.term(), dr.term()));
            let b = right.deep_copy() * dl;
            assert(b.term() == bin(BinOp::Mul, right.term(), dl.term()));
            let r = a + b;
            assert(r.term() == bin(BinOp::Add, a.term(), b.term()));
            r
        },
        BinOp::Div => {
            let dl = left.differentiate();
            let dr = right.differentiate();
            let a = right.deep_copy() * dl;
            assert(a.term() == bin(BinOp::Mul, right.term(), dl.term()));
            let b = left.deep_copy() * dr;
            assert(b.term() == bin(BinOp::Mul, left.term(), dr.term()));
            let num = a - b;
            assert(num.term() == bin(BinOp::Sub, a.term(), b.term()));
            let den = right.deep_copy().pow(AST::literal(TWO_BITS));
            let r = num / den;
            assert(r.term() == bin(BinOp::Div, num.term(), den.term()));
            r
        },
        BinOp::Pow => {
            let dl = left.differentiate();
            let dr = right.differentiate();
            let base = left.deep_copy().pow(right.deep_copy());
            let ln = AST::unary(String::from_str("ln"), left.deep_copy());
            let a = dr * ln;
            assert(a.term() == bin(BinOp::Mul, dr.term(), ln.term()));
            let c = right.deep_copy() * dl;
            assert(c.term() == bin(BinOp::Mul, right.term(), dl.term()));
            let b = c / left.deep_copy();
            assert(b.term() == bin(BinOp::Div, c.term(), left.term()));
            let s = a + b;
            assert(s.term() == bin(BinOp::Add, a.term(), b.term()));
            let r = base * s;
            assert(r.term() == bin(BinOp::Mul, base.term(), s.term()));
            r
        },
    }
}

} // verus!
