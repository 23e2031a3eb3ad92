use vstd::prelude::*;
use crate::number::Number;
use crate::tokens::{BinOp, spec_rank};

verus! {

broadcast use vstd::std_specs::vec::group_vec_axioms, vstd::seq::group_seq_axioms;

/// An expression tree. Each node owns its children.
#[derive(Debug)]
pub enum AST {
    Literal { value: Number },
    SymbolicConstant { name: String },
    Variable { name: String },
    Function { name: String, args: Vec<AST> },
    BinOp { op: BinOp, left: Box<AST>, right: Box<AST> },
}

/// The mathematical model of an expression tree: names are character
/// sequences and argument lists are sequences.
pub enum Term {
    Lit(Number),
    Const(Seq<char>),
    Var(Seq<char>),
    Func(Seq<char>, Seq<Term>),
    Bin(BinOp, Box<Term>, Box<Term>),
}

pub open spec fn lit(bits: u64) -> Term {
    Term::Lit(Number { bits })
}

pub open spec fn bin(op: BinOp, l: Term, r: Term) -> Term {
    Term::Bin(op, Box::new(l), Box::new(r))
}

pub open spec fn func1(name: Seq<char>, a: Term) -> Term {
    Term::Func(name, seq![a])
}

impl AST {
    pub open spec fn term(&self) -> Term
        decreases self,
    {
        match self {
            AST::Literal { value } => Term::Lit(*value),
            AST::SymbolicConstant { name } => Term::Const(name@),
            AST::Variable { name } => Term::Var(name@),
            AST::Function { name, args } => Term::Func(name@, terms(args@)),
            AST::BinOp { op, left, right } => Term::Bin(*op, Box::new(left.term()), Box::new(right.term())),
        }
    }
}

/// The models of a sequence of trees.
pub open spec fn terms(s: Seq<AST>) -> Seq<Term>
    decreases s,
{
    if s.len() == 0 {
        Seq::empty()
    } else {
        terms(s.drop_last()).push(s.last().term())
    }
}


/// The number of nodes of a term.
pub open spec fn size(t: Term) -> nat
    decreases t,
{
    match t {
        Term::Func(_, args) => 1 + sizes(args),
        Term::Bin(_, l, r) => 1 + size(*l) + size(*r),
        _ => 1,
    }
}

pub open spec fn sizes(s: Seq<Term>) -> nat
    decreases s,
{
    if s.len() == 0 {
        0
    } else {
        sizes(s.drop_last()) + size(s.last())
    }
}

pub proof fn lemma_terms(s: Seq<AST>)
    ensures
        terms(s).len() == s.len(),
        forall|i: int| 0 <= i < s.len() ==> #[trigger] terms(s)[i] == s[i].term(),
    decreases s.len(),
{
    if s.len() > 0 {
        lemma_terms(s.drop_last());
    }
}

pub proof fn lemma_terms_push(s: Seq<AST>, a: AST)
    ensures
        terms(s.push(a)) == terms(s).push(a.term()),
{
    assert(s.push(a).drop_last() =~= s);
}

/// Two sequences of trees with equal models element by element have equal models.
pub proof fn lemma_terms_ext(s: Seq<AST>, u: Seq<AST>)
    requires
        s.len() == u.len(),
        forall|i: int| 0 <= i < s.len() ==> #[trigger] s[i].term() == u[i].term(),
    ensures
        terms(s) == terms(u),
{
    lemma_terms(s);
    lemma_terms(u);
    assert(terms(s) =~= terms(u));
}

impl AST {
    /// A copy of the whole tree.
    pub fn deep_copy(&self) -> (r: AST)
        ensures
            r.term() == self.term(),
        decreases self,
    {
        match self {
            AST::Literal { value } => AST::Literal { value: *value },
            AST::SymbolicConstant { name } => AST::SymbolicConstant { name: name.clone() },
            AST::Variable { name } => AST::Variable { name: name.clone() },
            AST::Function { name, args } => {
                let copied = copy_args(args);
                AST::Function { name: name.clone(), args: copied }
            },
            AST::BinOp { op, left, right } => {
                let l = left.deep_copy();
                let r = right.deep_copy();
                AST::BinOp { op: *op, left: Box::new(l), right: Box::new(r) }
            },
        }
    }

    /// The binary node `self op rhs`.
    pub fn binary(self, op: BinOp, rhs: AST) -> (r: AST)
        ensures
            r.term() == bin(op, self.term(), rhs.term()),
    {
        AST::BinOp { op, left: Box::new(self), right: Box::new(rhs) }
    }

    /// The node `self ^ rhs`.
    pub fn pow(self, rhs: AST) -> (r: AST)
        ensures
            r.term() == bin(BinOp::Pow, self.term(), rhs.term()),
    {
        self.binary(BinOp::Pow, rhs)
    }

    /// A literal node.
    pub fn literal(bits: u64) -> (r: AST)
        ensures
            r.term() == lit(bits),
    {
        AST::Literal { value: Number { bits } }
    }

    /// The unary function node `name(arg)`.
    pub fn unary(name: String, arg: AST) -> (r: AST)
        ensures
            r.term() == func1(name@, arg.term()),
    {
        let args = vec![arg];
        proof {
            lemma_terms(args@);
            assert(terms(args@) =~= seq![arg.term()]);
        }
        AST::Function { name, args }
    }
}

/// `a + b` builds the binary node of the two trees.
impl core::ops::Add for AST {
    type Output = AST;

    fn add(self, rhs: AST) -> (r: AST) {
        AST::BinOp { op: BinOp::Add, left: Box::new(self), right: Box::new(rhs) }
    }
}

impl vstd::std_specs::ops::AddSpecImpl for AST {
    open spec fn obeys_add_spec() -> bool {
        true
    }

    open spec fn add_req(self, rhs: AST) -> bool {
        true
    }

    open spec fn add_spec(self, rhs: AST) -> AST {
        AST::BinOp { op: BinOp::Add, left: Box::new(self), right: Box::new(rhs) }
    }
}

/// `a - b` builds the binary node of the two trees.
impl core::ops::Sub for AST {
    type Output = AST;

    fn sub(self, rhs: AST) -> (r: AST) {
        AST::BinOp { op: BinOp::Sub, left: Box::new(self), right: Box::new(rhs) }
    }
}

impl vstd::std_specs::ops::SubSpecImpl for AST {
    open spec fn obeys_sub_spec() -> bool {
        true
    }

    open spec fn sub_req(self, rhs: AST) -> bool {
        true
    }

    open spec fn sub_spec(self, rhs: AST) -> AST {
        AST::BinOp { op: BinOp::Sub, left: Box::new(self), right: Box::new(rhs) }
    }
}

/// `a * b` builds the binary node of the two trees.
impl core::ops::Mul for AST {
    type Output = AST;

    fn mul(self, rhs: AST) -> (r: AST) {
        AST::BinOp { op: BinOp::Mul, left: Box::new(self), right: Box::new(rhs) }
    }
}

impl vstd::std_specs::ops::MulSpecImpl for AST {
    open spec fn obeys_mul_spec() -> bool {
        true
    }

    open spec fn mul_req(self, rhs: AST) -> bool {
        true
    }

    open spec fn mul_spec(self, rhs: AST) -> AST {
        AST::BinOp { op: BinOp::Mul, left: Box::new(self), right: Box::new(rhs) }
    }
}

/// `a / b` builds the binary node of the two trees.
impl core::ops::Div for AST {
    type Output = AST;

    fn div(self, rhs: AST) -> (r: AST) {
        AST::BinOp { op: BinOp::Div, left: Box::new(self), right: Box::new(rhs) }
    }
}

impl vstd::std_specs::ops::DivSpecImpl for AST {
    open spec fn obeys_div_spec() -> bool {
        true
    }

    open spec fn div_req(self, rhs: AST) -> bool {
        true
    }

    open spec fn div_spec(self, rhs: AST) -> AST {
        AST::BinOp { op: BinOp::Div, left: Box::new(self), right: Box::new(rhs) }
    }
}

/// A copy of the whole tree (see `deep_copy`).
impl Clone for AST {
    fn clone(&self) -> (r: AST)
        ensures
            r.term() == self.term(),
    {
        self.deep_copy()
    }
}

fn copy_args(args: &Vec<AST>) -> (r: Vec<AST>)
    ensures
        terms(r@) == terms(args@),
    decreases args,
{
    let mut r: Vec<AST> = Vec::new();
    let mut i: usize = 0;
    while i < args.len()
        invariant
            i <= args.len(),
            r@.len() == i,
            forall|j: int| 0 <= j < i ==> #[trigger] r@[j].term() == args@[j].term(),
        decreases args.len() - i,
    {
        let c = args[i].deep_copy();
        r.push(c);
        i = i + 1;
    }
    proof {
        lemma_terms_ext(r@, args@);
    }
    r
}

/// Whether a child node must be parenthesised below an operator when the
/// tree is written out flat: only a binary child of strictly lower rank is.
pub open spec fn spec_paren_required(root_op: BinOp, child: Term) -> bool {
    match child {
        Term::Bin(op, _, _) => spec_rank(root_op) > spec_rank(op),
        _ => false,
    }
}

pub fn is_paren_required(root_op: BinOp, child_tree: &AST) -> (r: bool)
    ensures
        r == spec_paren_required(root_op, child_tree.term()),
{
    match child_tree {
        AST::BinOp { op, .. } => root_op.rank() > op.rank(),
        _ => false,
    }
}


/// Whether a string holds exactly the characters of `lit`.
pub fn str_eq(s: &String, lit: &str) -> (r: bool)
    ensures
        r == (s@ == lit@),
{
    let a = s.as_str();
    let n = a.unicode_len();
    if n != lit.unicode_len() {
        return false;
    }
    let mut i: usize = 0;
    while i < n
        invariant
            n == a@.len(),
            n == lit@.len(),
            a@ == s@,
            i <= n,
            forall|j: int| 0 <= j < i ==> a@[j] == lit@[j],
        decreases n - i,
    {
        if a.get_char(i) != lit.get_char(i) {
            return false;
        }
        i = i + 1;
    }
    assert(s@ =~= lit@);
    true
}

} // verus!
