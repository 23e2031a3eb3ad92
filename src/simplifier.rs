use vstd::prelude::*;
use crate::ast::{AST, Term, bin, lit, terms, lemma_terms, size, sizes, str_eq};
use crate::number::{Number, spec_is_zero, spec_is_one, ZERO_BITS, ONE_BITS};
use crate::tokens::BinOp;

verus! {

broadcast use vstd::std_specs::vec::group_vec_axioms, vstd::seq::group_seq_axioms;

/// A failure of simplification.
#[derive(Clone, Copy, Debug, PartialEq, Eq, Structural)]
pub enum EvaluationError {
    /// A division whose divisor is the literal zero and whose dividend is
    /// not a literal.
    ZeroDivisionError,
    /// `sin` or `ln` applied to a number of arguments other than one.
    WrongArguments,
}

impl EvaluationError {
    /// The error's message.
    pub fn to_string(&self) -> (r: String)
        ensures
            r@ == "rip"@,
    {
        String::from_str("rip")
    }
}

/// Arithmetic on two literals, as a mathematical function.
pub type Arith = spec_fn(BinOp, Number, Number) -> Number;

/// The caller's arithmetic is callable on every pair of literals and gives one
/// answer for each.
pub open spec fn is_arithmetic<F: Fn(BinOp, Number, Number) -> Number>(f: F) -> bool {
    &&& forall|op: BinOp, a: Number, b: Number| f.requires((op, a, b))
    &&& forall|op: BinOp, a: Number, b: Number, r1: Number, r2: Number|
        f.ensures((op, a, b), r1) && f.ensures((op, a, b), r2) ==> r1 == r2
}

/// The function that an arithmetic closure computes.
pub open spec fn arith_of<F: Fn(BinOp, Number, Number) -> Number>(f: F) -> Arith {
    |op: BinOp, a: Number, b: Number| choose|r: Number| f.ensures((op, a, b), r)
}

pub open spec fn is_lit_zero(t: Term) -> bool {
    t matches Term::Lit(v) && spec_is_zero(v)
}

pub open spec fn is_lit_one(t: Term) -> bool {
    t matches Term::Lit(v) && spec_is_one(v)
}

/// The special values of `sin` and `ln`: `sin(0) = 0`, `sin(pi) = 0`,
/// `ln(0) = 0`, `ln(e) = 1`; `sin` or `ln` with other than one argument is an
/// error; anything else has no special value.
pub open spec fn standard_value(name: Seq<char>, args: Seq<Term>) -> Result<Option<Term>, EvaluationError> {
    if name == "sin"@ {
        if args.len() != 1 {
            Err(EvaluationError::WrongArguments)
        } else if is_lit_zero(args[0]) || args[0] == Term::Const("pi"@) {
            Ok(Some(lit(ZERO_BITS)))
        } else {
            Ok(None)
        }
    } else if name == "ln"@ {
        if args.len() != 1 {
            Err(EvaluationError::WrongArguments)
        } else if is_lit_zero(args[0]) {
            Ok(Some(lit(ZERO_BITS)))
        } else if args[0] == Term::Const("e"@) {
            Ok(Some(lit(ONE_BITS)))
        } else {
            Ok(None)
        }
    } else {
        Ok(None)
    }
}

/// The identity rules of each operator, in their order of priority.
pub open spec fn identity(op: BinOp, l: Term, r: Term) -> Result<Option<Term>, EvaluationError> {
    match op {
        BinOp::Add | BinOp::Sub => if is_lit_zero(l) {
            Ok(Some(r))
        } else if is_lit_zero(r) {
            Ok(Some(l))
        } else {
            Ok(None)
        },
        BinOp::Mul => if is_lit_one(l) {
            Ok(Some(r))
        } else if is_lit_zero(l) {
            Ok(Some(lit(ZERO_BITS)))
        } else if is_lit_one(r) {
            Ok(Some(l))
        } else if is_lit_zero(r) {
            Ok(Some(lit(ZERO_BITS)))
        } else {
            Ok(None)
        },
        BinOp::Div => if is_lit_zero(l) {
            Ok(Some(lit(ZERO_BITS)))
        } else if is_lit_one(r) {
            Ok(Some(l))
        } else if is_lit_zero(r) {
            Err(EvaluationError::ZeroDivisionError)
        } else {
            Ok(None)
        },
        BinOp::Pow => if is_lit_one(l) {
            Ok(Some(lit(ONE_BITS)))
        } else if is_lit_zero(r) {
            Ok(Some(lit(ONE_BITS)))
        } else if is_lit_one(r) {
            Ok(Some(l))
        } else {
            Ok(None)
        },
    }
}

/// Simplification to a fixed point: passes are repeated while a pass
/// reports a change. The result is the final term and whether any pass
/// reported a change.
pub open spec fn simplified(t: Term, g: Arith) -> Result<(Term, bool), EvaluationError>
    decreases size(t), 1nat, 0nat,
{
    match pass(t, g) {
        Err(e) => Err(e),
        Ok((t1, c)) => if c && size(t1) < size(t) {
            match simplified(t1, g) {
                Err(e) => Err(e),
                Ok((t2, _)) => Ok((t2, true)),
            }
        } else {
            Ok((t1, c))
        },
    }
}

/// One pass at the root of `t`. Children are simplified to their own fixed
/// points first; a change is reported when a child changed, a rule fired at
/// this node, or a special value replaced a call.
pub open spec fn pass(t: Term, g: Arith) -> Result<(Term, bool), EvaluationError>
    decreases size(t), 0nat, 0nat,
{
    match t {
        Term::Func(name, args) => match simplified_args(args, g) {
            Err(e) => Err(e),
            Ok((args2, c)) => match standard_value(name, args2) {
                Err(e) => Err(e),
                Ok(Some(v)) => Ok((v, true)),
                Ok(None) => Ok((Term::Func(name, args2), c)),
            },
        },
        Term::Bin(op, l, r) => match simplified(*l, g) {
            Err(e) => Err(e),
            Ok((l2, cl)) => match simplified(*r, g) {
                Err(e) => Err(e),
                Ok((r2, cr)) => match (l2, r2) {
                    (Term::Lit(a), Term::Lit(b)) => Ok((Term::Lit(g(op, a, b)), true)),
                    _ => match identity(op, l2, r2) {
                        Err(e) => Err(e),
                        Ok(Some(v)) => Ok((v, true)),
                        Ok(None) => Ok((bin(op, l2, r2), cl || cr)),
                    },
                },
            },
        },
        _ => Ok((t, false)),
    }
}

/// Each argument simplified to its fixed point, left to right, stopping at
/// the first error; the flag says whether any of them reported a change.
pub open spec fn simplified_args(args: Seq<Term>, g: Arith) -> Result<(Seq<Term>, bool), EvaluationError>
    decreases sizes(args), 2nat, args.len(),
{
    if args.len() == 0 {
        Ok((Seq::empty(), false))
    } else {
        match simplified_args(args.drop_last(), g) {
            Err(e) => Err(e),
            Ok((p, c)) => match simplified(args.last(), g) {
                Err(e) => Err(e),
                Ok((x, c2)) => Ok((p.push(x), c || c2)),
            },
        }
    }
}

pub proof fn lemma_size_positive(t: Term)
    ensures
        size(t) >= 1,
{
    match t {
        Term::Func(_, args) => {},
        Term::Bin(_, l, r) => {},
        _ => {},
    }
}


/// Simplification never grows a term, and a reported change shrinks it.
pub proof fn lemma_simplified_size(t: Term, g: Arith)
    ensures
        simplified(t, g) matches Ok((t2, c)) ==> size(t2) <= size(t) && (c ==> size(t2) < size(t)),
    decreases size(t), 1nat, 0nat,
{
    lemma_pass_size(t, g);
    if let Ok((t1, c)) = pass(t, g) {
        if c && size(t1) < size(t) {
            lemma_simplified_size(t1, g);
        }
    }
}

pub proof fn lemma_pass_size(t: Term, g: Arith)
    ensures
        pass(t, g) matches Ok((t2, c)) ==> size(t2) <= size(t) && (c ==> size(t2) < size(t)),
    decreases size(t), 0nat, 0nat,
{
    match t {
        Term::Func(name, args) => {
            lemma_simplified_args_size(args, g);
            if let Ok((args2, c)) = simplified_args(args, g) {
                if args2.len() == 1 {
                    lemma_size_positive(args2[0]);
                    assert(args2.drop_last().len() == 0);
                    assert(sizes(args2.drop_last()) == 0);
                    assert(sizes(args2) == size(args2[0]));
                }
            }
        },
        Term::Bin(op, l, r) => {
            lemma_simplified_size(*l, g);
            lemma_simplified_size(*r, g);
            lemma_size_positive(*l);
            lemma_size_positive(*r);
            if let Ok((l2, _)) = simplified(*l, g) {
                if let Ok((r2, _)) = simplified(*r, g) {
                    lemma_size_positive(l2);
                    lemma_size_positive(r2);
                }
            }
        },
        _ => {},
    }
}

pub proof fn lemma_simplified_args_size(args: Seq<Term>, g: Arith)
    ensures
        simplified_args(args, g) matches Ok((a2, c)) ==> sizes(a2) <= sizes(args) && (c ==> sizes(a2) < sizes(args)),
    decreases sizes(args), 2nat, args.len(),
{
    if args.len() > 0 {
        lemma_simplified_args_size(args.drop_last(), g);
        lemma_simplified_size(args.last(), g);
        if let Ok((p, c)) = simplified_args(args.drop_last(), g) {
            if let Ok((x, c2)) = simplified(args.last(), g) {
                assert(p.push(x).drop_last() =~= p);
            }
        }
    }
}


pub proof fn lemma_sizes_elem(s: Seq<Term>, i: int)
    requires
        0 <= i < s.len(),
    ensures
        size(s[i]) <= sizes(s),
    decreases s.len(),
{
    if i < s.len() - 1 {
        lemma_sizes_elem(s.drop_last(), i);
    }
}

/// An error in a prefix of the arguments is the error of all of them.
proof fn lemma_args_prefix_err(s: Seq<Term>, k: int, g: Arith)
    requires
        0 <= k <= s.len(),
        simplified_args(s.take(k), g) is Err,
    ensures
        simplified_args(s, g) == simplified_args(s.take(k), g),
    decreases s.len() - k,
{
    if k < s.len() {
        let t = s.take(k + 1);
        assert(t.drop_last() =~= s.take(k));
        lemma_args_prefix_err(s, k + 1, g);
    } else {
        assert(s.take(k) =~= s);
    }
}

/// How a call reports what its model says: the flag and the new tree on
/// success, the error otherwise.
pub open spec fn agrees(r: Result<bool, EvaluationError>, after: Term, s: Result<(Term, bool), EvaluationError>) -> bool {
    match s {
        Ok((t, c)) => r == Ok::<bool, EvaluationError>(c) && after == t,
        Err(e) => r == Err::<bool, EvaluationError>(e),
    }
}

pub open spec fn mark_changed(s: Result<(Term, bool), EvaluationError>) -> Result<(Term, bool), EvaluationError> {
    match s {
        Ok((t, _)) => Ok((t, true)),
        Err(e) => Err(e),
    }
}

fn lit_zero(t: &AST) -> (r: bool)
    ensures
        r == is_lit_zero(t.term()),
{
    match t {
        AST::Literal { value } => value.is_zero(),
        _ => false,
    }
}

fn lit_one(t: &AST) -> (r: bool)
    ensures
        r == is_lit_one(t.term()),
{
    match t {
        AST::Literal { value } => value.is_one(),
        _ => false,
    }
}

impl AST {
    /// Simplifies the tree in place to a fixed point, and says whether any
    /// pass changed it. `fold` is the arithmetic of two literals (for
    /// binary64 values: `+`, `-`, `*`, `/` and `powf`).
    pub fn simplify<F: Fn(BinOp, Number, Number) -> Number>(&mut self, fold: &F) -> (r: Result<bool, EvaluationError>)
        requires
            is_arithmetic(*fold),
        ensures
            agrees(r, final(self).term(), simplified(old(self).term(), arith_of(*fold))),
        decreases size(old(self).term()), 1nat, 0nat,
    {
        let ghost g = arith_of(*fold);
        let ghost t0 = self.term();
        let mut any = false;
        loop
            invariant
                is_arithmetic(*fold),
                g == arith_of(*fold),
                size(self.term()) <= size(t0),
                t0 == old(self).term(),
                simplified(t0, g) == (if any {
                    mark_changed(simplified(self.term(), g))
                } else {
                    simplified(self.term(), g)
                }),
            decreases size(self.term()),
        {
            let ghost before = self.term();
            proof {
                lemma_pass_size(before, g);
            }
            let res = self.simplify_once(fold);
            match res {
                Err(e) => {
                    return Err(e);
                },
                Ok(changed) => {
                    if !changed {
                        return Ok(any);
                    }
                    any = true;
                },
            }
        }
    }

    fn simplify_once<F: Fn(BinOp, Number, Number) -> Number>(&mut self, fold: &F) -> (r: Result<bool, EvaluationError>)
        requires
            is_arithmetic(*fold),
        ensures
            agrees(r, final(self).term(), pass(old(self).term(), arith_of(*fold))),
        decreases size(old(self).term()), 0nat, 0nat,
    {
        let ghost g = arith_of(*fold);
        let ghost t0 = self.term();
        let mut node = AST::Literal { value: Number { bits: ZERO_BITS } };
        std::mem::swap(self, &mut node);
        match node {
            AST::Function { name, mut args } => {
                let ghost ts = terms(args@);
                proof {
                    lemma_terms(args@);
                }
                let n = args.len();
                let mut changed = false;
                proof {
                    assert(ts.take(0) =~= Seq::<Term>::empty());
                    assert(terms(args@).take(0) =~= Seq::<Term>::empty());
                    assert(size(t0) == 1 + sizes(ts));
                }
                let mut i: usize = 0;
                while i < n
                    invariant
                        is_arithmetic(*fold),
                        g == arith_of(*fold),
                        t0 == Term::Func(name@, ts),
                        t0 == old(self).term(),
                        size(t0) == 1 + sizes(ts),
                        ts.len() == n,
                        args@.len() == n,
                        i <= n,
                        forall|j: int| i <= j < n ==> #[trigger] args@[j].term() == ts[j],
                        simplified_args(ts.take(i as int), g) == Ok::<(Seq<Term>, bool), EvaluationError>((terms(args@).take(i as int), changed)),
                    decreases n - i,
                {
                    proof {
                        lemma_sizes_elem(ts, i as int);
                    }
                    let ghost old_args = args@;
                    let mut a = args.remove(i);
                    let ghost a_old = a.term();
                    assert(a_old == ts[i as int]);
                    let res = a.simplify(fold);
                    args.insert(i, a);
                    proof {
                        lemma_terms(old_args);
                        lemma_terms(args@);
                        let t = ts.take(i + 1);
                        assert(t.drop_last() =~= ts.take(i as int));
                        assert(t.last() == ts[i as int]);
                        assert(simplified_args(ts.take(i as int), g) is Ok);
                        assert(simplified_args(t, g) == match simplified(a_old, g) {
                            Err(e) => Err(e),
                            Ok((x, c2)) => Ok((terms(old_args).take(i as int).push(x), changed || c2)),
                        });
                    }
                    match res {
                        Err(e) => {
                            proof {
                                lemma_args_prefix_err(ts, i + 1, g);
                            }
                            *self = AST::Function { name, args };
                            return Err(e);
                        },
                        Ok(c) => {
                            proof {
                                assert(terms(args@).take(i + 1) =~= terms(old_args).take(i as int).push(a.term()));
                            }
                            changed = changed || c;
                        },
                    }
                    i = i + 1;
                }
                proof {
                    assert(ts.take(n as int) =~= ts);
                    lemma_terms(args@);
                    assert(terms(args@).take(n as int) =~= terms(args@));
                }
                let sv = get_standard_value(&name, &args);
                match sv {
                    Err(e) => {
                        *self = AST::Function { name, args };
                        Err(e)
                    },
                    Ok(Some(v)) => {
                        *self = v;
                        Ok(true)
                    },
                    Ok(None) => {
                        *self = AST::Function { name, args };
                        Ok(changed)
                    },
                }
            },
            AST::BinOp { op, left, right } => {
                let mut l: AST = *left;
                let mut r: AST = *right;
                let cl = match l.simplify(fold) {
                    Err(e) => {
                        *self = AST::BinOp { op, left: Box::new(l), right: Box::new(r) };
                        return Err(e);
                    },
                    Ok(c) => c,
                };
                let cr = match r.simplify(fold) {
                    Err(e) => {
                        *self = AST::BinOp { op, left: Box::new(l), right: Box::new(r) };
                        return Err(e);
                    },
                    Ok(c) => c,
                };
                if let AST::Literal { value: a } = &l {
                    if let AST::Literal { value: b } = &r {
                        let v = fold(op, *a, *b);
                        *self = AST::Literal { value: v };
                        return Ok(true);
                    }
                }
                let (new_node, outcome) = apply_identity(op, l, r);
                *self = new_node;
                match outcome {
                    Ok(fired) => Ok(fired || cl || cr),
                    Err(e) => Err(e),
                }
            },
            leaf => {
                *self = leaf;
                Ok(false)
            },
        }
    }
}

/// The identity rules at a binary node whose children are already simplified:
/// the node that results, and whether a rule fired or failed.
fn apply_identity(op: BinOp, l: AST, r: AST) -> (res: (AST, Result<bool, EvaluationError>))
    ensures
        match identity(op, l.term(), r.term()) {
            Ok(Some(v)) => res.0.term() == v && res.1 == Ok::<bool, EvaluationError>(true),
            Ok(None) => res.0.term() == bin(op, l.term(), r.term()) && res.1 == Ok::<bool, EvaluationError>(false),
            Err(e) => res.1 == Err::<bool, EvaluationError>(e),
        },
{
    match op {
        BinOp::Add | BinOp::Sub => {
            if lit_zero(&l) {
                (r, Ok(true))
            } else if lit_zero(&r) {
                (l, Ok(true))
            } else {
                (l.binary(op, r), Ok(false))
            }
        },
        BinOp::Mul => {
            if lit_one(&l) {
                (r, Ok(true))
            } else if lit_zero(&l) {
                (AST::literal(ZERO_BITS), Ok(true))
            } else if lit_one(&r) {
                (l, Ok(true))
            } else if lit_zero(&r) {
                (AST::literal(ZERO_BITS), Ok(true))
            } else {
                (l.binary(op, r), Ok(false))
            }
        },
        BinOp::Div => {
            if lit_zero(&l) {
                (AST::literal(ZERO_BITS), Ok(true))
            } else if lit_one(&r) {
                (l, Ok(true))
            } else if lit_zero(&r) {
                (l.binary(op, r), Err(EvaluationError::ZeroDivisionError))
            } else {
                (l.binary(op, r), Ok(false))
            }
        },
        BinOp::Pow => {
            if lit_one(&l) {
                (AST::literal(ONE_BITS), Ok(true))
            } else if lit_zero(&r) {
                (AST::literal(ONE_BITS), Ok(true))
            } else if lit_one(&r) {
                (l, Ok(true))
            } else {
                (l.binary(op, r), Ok(false))
            }
        },
    }
}

/// The special value of a function application, if its name has one.
fn get_standard_value(name: &String, args: &Vec<AST>) -> (r: Result<Option<AST>, EvaluationError>)
    ensures
        match standard_value(name@, terms(args@)) {
            Ok(Some(v)) => r matches Ok(Some(x)) && x.term() == v,
            Ok(None) => r matches Ok(None),
            Err(e) => r == Err::<Option<AST>, EvaluationError>(e),
        },
{
    proof {
        lemma_terms(args@);
    }
    if str_eq(name, "sin") {
        if args.len() != 1 {
            return Err(EvaluationError::WrongArguments);
        }
        let special = match &args[0] {
            AST::Literal { value } => value.is_zero(),
            AST::SymbolicConstant { name: c } => str_eq(c, "pi"),
            _ => false,
        };
        if special {
            Ok(Some(AST::literal(ZERO_BITS)))
        } else {
            Ok(None)
        }
    } else if str_eq(name, "ln") {
        if args.len() != 1 {
            return Err(EvaluationError::WrongArguments);
        }
        match &args[0] {
            AST::Literal { value } => if value.is_zero() {
                Ok(Some(AST::literal(ZERO_BITS)))
            } else {
                Ok(None)
            },
            AST::SymbolicConstant { name: c } => if str_eq(c, "e") {
                Ok(Some(AST::literal(ONE_BITS)))
            } else {
                Ok(None)
            },
            _ => Ok(None),
        }
    } else {
        Ok(None)
    }
}


proof fn lemma_simplified_fixed_pass(x: Term, g: Arith)
    requires
        simplified(x, g) == Ok::<(Term, bool), EvaluationError>((x, false)),
    ensures
        pass(x, g) == Ok::<(Term, bool), EvaluationError>((x, false)),
{
}

proof fn lemma_pass_fixed(t: Term, g: Arith)
    ensures
        pass(t, g) matches Ok((t1, _)) ==> pass(t1, g) == Ok::<(Term, bool), EvaluationError>((t1, false)),
    decreases size(t), 0nat, 0nat,
{
    match t {
        Term::Func(name, args) => {
            lemma_args_fixed(args, g);
        },
        Term::Bin(op, l, r) => {
            law_simplify_idempotent(*l, g);
            law_simplify_idempotent(*r, g);
            if let Ok((l2, _)) = simplified(*l, g) {
                if let Ok((r2, _)) = simplified(*r, g) {
                    lemma_simplified_fixed_pass(l2, g);
                    lemma_simplified_fixed_pass(r2, g);
                }
            }
        },
        _ => {},
    }
}

proof fn lemma_args_fixed(args: Seq<Term>, g: Arith)
    ensures
        simplified_args(args, g) matches Ok((a2, _)) ==> simplified_args(a2, g) == Ok::<(Seq<Term>, bool), EvaluationError>((a2, false)),
    decreases sizes(args), 2nat, args.len(),
{
    if args.len() > 0 {
        lemma_args_fixed(args.drop_last(), g);
        law_simplify_idempotent(args.last(), g);
        if let Ok((p, c)) = simplified_args(args.drop_last(), g) {
            if let Ok((x, c2)) = simplified(args.last(), g) {
                assert(p.push(x).drop_last() =~= p);
            }
        }
    }
}

proof fn lemma_unchanged_pass(t: Term, g: Arith)
    ensures
        pass(t, g) matches Ok((t1, c)) ==> (!c ==> t1 == t),
    decreases size(t), 0nat, 0nat,
{
    match t {
        Term::Func(name, args) => {
            lemma_unchanged_args(args, g);
        },
        Term::Bin(op, l, r) => {
            lemma_unchanged_simplified(*l, g);
            lemma_unchanged_simplified(*r, g);
        },
        _ => {},
    }
}

proof fn lemma_unchanged_simplified(t: Term, g: Arith)
    ensures
        simplified(t, g) matches Ok((t2, c)) ==> (!c ==> t2 == t),
    decreases size(t), 1nat, 0nat,
{
    lemma_unchanged_pass(t, g);
}

proof fn lemma_unchanged_args(args: Seq<Term>, g: Arith)
    ensures
        simplified_args(args, g) matches Ok((a2, c)) ==> (!c ==> a2 == args),
    decreases sizes(args), 2nat, args.len(),
{
    if args.len() > 0 {
        lemma_unchanged_args(args.drop_last(), g);
        lemma_unchanged_simplified(args.last(), g);
        if let Ok((p, c)) = simplified_args(args.drop_last(), g) {
            if let Ok((x, c2)) = simplified(args.last(), g) {
                if !c && !c2 {
                    assert(p.push(x) =~= args);
                }
            }
        }
    }
}

/// The flag of a successful simplification says exactly whether the tree
/// changed.
pub proof fn law_change_reported(t: Term, g: Arith)
    ensures
        simplified(t, g) matches Ok((t2, c)) ==> (c <==> t2 != t),
{
    lemma_unchanged_simplified(t, g);
    lemma_simplified_size(t, g);
}

/// Simplification reaches a fixed point: simplifying its result again
/// succeeds, reports no change and leaves the tree as it is.
pub proof fn law_simplify_idempotent(t: Term, g: Arith)
    ensures
        simplified(t, g) matches Ok((t2, _)) ==> simplified(t2, g) == Ok::<(Term, bool), EvaluationError>((t2, false)),
    decreases size(t), 1nat, 0nat,
{
    lemma_pass_fixed(t, g);
    lemma_pass_size(t, g);
    if let Ok((t1, c)) = pass(t, g) {
        if c && size(t1) < size(t) {
            law_simplify_idempotent(t1, g);
        }
    }
}

/// A binary node of two literals folds into one literal, the result of the
/// arithmetic, with a change reported; for division this holds for a zero
/// divisor too.
pub proof fn law_constant_folding(op: BinOp, a: Number, b: Number, g: Arith)
    ensures
        simplified(bin(op, Term::Lit(a), Term::Lit(b)), g) == Ok::<(Term, bool), EvaluationError>((Term::Lit(g(op, a, b)), true)),
{
    let t = bin(op, Term::Lit(a), Term::Lit(b));
    assert(pass(Term::Lit(a), g) == Ok::<(Term, bool), EvaluationError>((Term::Lit(a), false)));
    assert(simplified(Term::Lit(a), g) == Ok::<(Term, bool), EvaluationError>((Term::Lit(a), false)));
    assert(pass(Term::Lit(b), g) == Ok::<(Term, bool), EvaluationError>((Term::Lit(b), false)));
    assert(simplified(Term::Lit(b), g) == Ok::<(Term, bool), EvaluationError>((Term::Lit(b), false)));
    assert(pass(t, g) == Ok::<(Term, bool), EvaluationError>((Term::Lit(g(op, a, b)), true)));
    assert(size(Term::Lit(g(op, a, b))) < size(t));
    assert(pass(Term::Lit(g(op, a, b)), g) == Ok::<(Term, bool), EvaluationError>((Term::Lit(g(op, a, b)), false)));
    assert(simplified(Term::Lit(g(op, a, b)), g) == Ok::<(Term, bool), EvaluationError>((Term::Lit(g(op, a, b)), false)));
}

/// A division whose operands simplify to `l2` and `r2` fails exactly when
/// `r2` is a literal zero and `l2` is not a literal, and then with a
/// division-by-zero error; two literals fold; a literal zero dividend by a
/// non-literal divisor gives zero.
pub proof fn law_division(l: Term, r: Term, g: Arith)
    requires
        simplified(l, g) is Ok,
        simplified(r, g) is Ok,
    ensures
        ({
            let l2 = simplified(l, g)->Ok_0.0;
            let r2 = simplified(r, g)->Ok_0.0;
            let t = bin(BinOp::Div, l, r);
            &&& simplified(t, g) is Err <==> (is_lit_zero(r2) && !(l2 is Lit))
            &&& simplified(t, g) is Err ==> simplified(t, g) == Err::<(Term, bool), EvaluationError>(EvaluationError::ZeroDivisionError)
            &&& (l2 is Lit && r2 is Lit) ==> simplified(t, g) == Ok::<(Term, bool), EvaluationError>(
                (Term::Lit(g(BinOp::Div, l2->Lit_0, r2->Lit_0)), true),
            )
            &&& (is_lit_zero(l2) && !(r2 is Lit)) ==> simplified(t, g) == Ok::<(Term, bool), EvaluationError>((lit(ZERO_BITS), true))
        }),
{
    let l2 = simplified(l, g)->Ok_0.0;
    let r2 = simplified(r, g)->Ok_0.0;
    let t = bin(BinOp::Div, l, r);
    lemma_pass_size(t, g);
    lemma_size_positive(l);
    lemma_size_positive(r);
    if l2 is Lit && r2 is Lit {
        let v = Term::Lit(g(BinOp::Div, l2->Lit_0, r2->Lit_0));
        assert(pass(t, g) == Ok::<(Term, bool), EvaluationError>((v, true)));
        assert(pass(v, g) == Ok::<(Term, bool), EvaluationError>((v, false)));
        assert(simplified(v, g) == Ok::<(Term, bool), EvaluationError>((v, false)));
    } else {
        if is_lit_zero(l2) {
            assert(pass(t, g) == Ok::<(Term, bool), EvaluationError>((lit(ZERO_BITS), true)));
            assert(pass(lit(ZERO_BITS), g) == Ok::<(Term, bool), EvaluationError>((lit(ZERO_BITS), false)));
            assert(simplified(lit(ZERO_BITS), g) == Ok::<(Term, bool), EvaluationError>((lit(ZERO_BITS), false)));
        } else if is_lit_one(r2) {
            assert(pass(t, g) is Ok);
        } else if is_lit_zero(r2) {
            assert(pass(t, g) == Err::<(Term, bool), EvaluationError>(EvaluationError::ZeroDivisionError));
        } else {
            assert(pass(t, g) is Ok);
        }
        lemma_pass_fixed(t, g);
        if let Ok((t1, c)) = pass(t, g) {
            assert(simplified(t1, g) == Ok::<(Term, bool), EvaluationError>((t1, false)));
        }
    }
}

/// Dividing a variable by a literal zero is a division-by-zero error.
pub proof fn law_division_by_zero(name: Seq<char>, z: Number, g: Arith)
    requires
        spec_is_zero(z),
    ensures
        simplified(bin(BinOp::Div, Term::Var(name), Term::Lit(z)), g) == Err::<(Term, bool), EvaluationError>(EvaluationError::ZeroDivisionError),
{
    assert(pass(Term::Var(name), g) == Ok::<(Term, bool), EvaluationError>((Term::Var(name), false)));
    assert(simplified(Term::Var(name), g) == Ok::<(Term, bool), EvaluationError>((Term::Var(name), false)));
    assert(pass(Term::Lit(z), g) == Ok::<(Term, bool), EvaluationError>((Term::Lit(z), false)));
    assert(simplified(Term::Lit(z), g) == Ok::<(Term, bool), EvaluationError>((Term::Lit(z), false)));
    assert(identity(BinOp::Div, Term::Var(name), Term::Lit(z)) == Err::<Option<Term>, EvaluationError>(EvaluationError::ZeroDivisionError));
    assert(pass(bin(BinOp::Div, Term::Var(name), Term::Lit(z)), g) == Err::<(Term, bool), EvaluationError>(EvaluationError::ZeroDivisionError));
}

} // verus!
