use vstd::prelude::*;
use crate::ast::{AST, Term, terms, lemma_terms, spec_paren_required, is_paren_required};
use crate::number::Number;
use crate::tokens::{BinOp, spec_symbol};

verus! {

broadcast use vstd::std_specs::vec::group_vec_axioms, vstd::seq::group_seq_axioms;

/// The caller's literal formatter accepts every value and gives one text for each.
pub open spec fn is_formatter<R: Fn(Number) -> String>(f: R) -> bool {
    &&& forall|n: Number| f.requires((n,))
    &&& forall|n: Number, r1: String, r2: String| f.ensures((n,), r1) && f.ensures((n,), r2) ==> r1@ == r2@
}

/// The function of values that a formatter computes.
pub open spec fn formatter_of<R: Fn(Number) -> String>(f: R) -> spec_fn(Number) -> Seq<char> {
    |n: Number| (choose|r: String| f.ensures((n,), r))@
}

pub open spec fn wrapped(paren: bool, s: Seq<char>) -> Seq<char> {
    if paren { seq!['('] + s + seq![')'] } else { s }
}

/// The flat infix text of a term. A binary child is parenthesised only when
/// its operator ranks strictly below its parent's; operators stand between
/// single spaces; arguments are separated by `", "`.
pub open spec fn flat(t: Term, show: spec_fn(Number) -> Seq<char>) -> Seq<char>
    decreases t,
{
    match t {
        Term::Lit(v) => show(v),
        Term::Const(n) => n,
        Term::Var(n) => n,
        Term::Func(name, args) => name + seq!['('] + joined(args, show) + seq![')'],
        Term::Bin(op, l, r) => wrapped(spec_paren_required(op, *l), flat(*l, show)) + seq![' ', spec_symbol(op), ' ']
            + wrapped(spec_paren_required(op, *r), flat(*r, show)),
    }
}

pub open spec fn joined(args: Seq<Term>, show: spec_fn(Number) -> Seq<char>) -> Seq<char>
    decreases args,
{
    if args.len() == 0 {
        Seq::empty()
    } else if args.len() == 1 {
        flat(args[0], show)
    } else {
        joined(args.drop_last(), show) + seq![',', ' '] + flat(args.last(), show)
    }
}

fn push_wrapped(out: &mut String, paren: bool, s: &String)
    ensures
        final(out)@ == old(out)@ + wrapped(paren, s@),
{
    if paren {
        out.append("(");
        out.append(s.as_str());
        out.append(")");
        proof {
            reveal_strlit("(");
            reveal_strlit(")");
        }
        assert(final(out)@ =~= old(out)@ + wrapped(paren, s@));
    } else {
        out.append(s.as_str());
    }
}

impl AST {
    /// The tree written out flat, with `show` giving the text of each literal.
    pub fn flat_str<R: Fn(Number) -> String>(&self, show: &R) -> (r: String)
        requires
            is_formatter(*show),
        ensures
            r@ == flat(self.term(), formatter_of(*show)),
        decreases self,
    {
        let ghost sf = formatter_of(*show);
        match self {
            AST::Literal { value } => {
                show(*value)
            },
            AST::SymbolicConstant { name } => name.clone(),
            AST::Variable { name } => name.clone(),
            AST::BinOp { op, left, right } => {
                let ls = left.flat_str(show);
                let rs = right.flat_str(show);
                let mut out = String::new();
                push_wrapped(&mut out, is_paren_required(*op, left), &ls);
                out.append(" ");
                let sym = op.to_string();
                out.append(sym.as_str());
                out.append(" ");
                push_wrapped(&mut out, is_paren_required(*op, right), &rs);
                proof {
                    reveal_strlit(" ");
                }
                assert(out@ =~= flat(self.term(), sf));
                out
            },
            AST::Function { name, args } => {
                let mut out = name.clone();
                out.append("(");
                let inner = join_args(args, show);
                out.append(inner.as_str());
                out.append(")");
                proof {
                    reveal_strlit("(");
                    reveal_strlit(")");
                }
                assert(out@ =~= flat(self.term(), sf));
                out
            },
        }
    }
}

fn join_args<R: Fn(Number) -> String>(args: &Vec<AST>, show: &R) -> (r: String)
    requires
        is_formatter(*show),
    ensures
        r@ == joined(terms(args@), formatter_of(*show)),
    decreases args,
{
    let ghost sf = formatter_of(*show);
    proof {
        lemma_terms(args@);
    }
    let mut out = String::new();
    let mut i: usize = 0;
    while i < args.len()
        invariant
            is_formatter(*show),
            sf == formatter_of(*show),
            i <= args.len(),
            terms(args@).len() == args.len(),
            forall|j: int| 0 <= j < args.len() ==> #[trigger] terms(args@)[j] == args@[j].term(),
            out@ == joined(terms(args@).take(i as int), sf),
        decreases args.len() - i,
    {
        let s = args[i].flat_str(show);
        let ghost ts = terms(args@).take(i + 1);
        proof {
            assert(ts.drop_last() =~= terms(args@).take(i as int));
            reveal_strlit(", ");
        }
        if i > 0 {
            out.append(", ");
        }
        out.append(s.as_str());
        proof {
            if i == 0 {
                assert(joined(terms(args@).take(0), sf) =~= Seq::<char>::empty());
                assert(out@ =~= joined(ts, sf));
            } else {
                assert(out@ =~= joined(ts, sf));
            }
        }
        i = i + 1;
    }
    proof {
        assert(terms(args@).take(args.len() as int) =~= terms(args@));
    }
    out
}


/// The name of an operator in a tree diagram.
pub open spec fn op_name(op: BinOp) -> Seq<char> {
    match op {
        BinOp::Sub => "Sub"@,
        BinOp::Add => "Add"@,
        BinOp::Mul => "Mul"@,
        BinOp::Div => "Div"@,
        BinOp::Pow => "Pow"@,
    }
}

/// Lines of a child diagram: the first after `first`, the others after `rest`.
pub open spec fn indented(lines: Seq<Seq<char>>, first: Seq<char>, rest: Seq<char>) -> Seq<Seq<char>> {
    Seq::new(lines.len(), |k: int| if k == 0 { first + lines[k] } else { rest + lines[k] })
}

/// The lines of the tree diagram of a term: a node's label, then each
/// child's diagram indented below it, the last child marked as such.
pub open spec fn diagram(t: Term, show: spec_fn(Number) -> Seq<char>) -> Seq<Seq<char>>
    decreases t,
{
    match t {
        Term::Lit(v) => seq![show(v)],
        Term::Const(n) => seq![n],
        Term::Var(n) => seq![n],
        Term::Bin(op, l, r) => seq![op_name(op)] + indented(diagram(*l, show), " ├─"@, " │  "@)
            + indented(diagram(*r, show), " ╰─"@, "    "@),
        Term::Func(name, args) => if args.len() == 0 {
            seq![name]
        } else {
            seq![name] + inner_args_diagram(args.drop_last(), show) + indented(diagram(args.last(), show), " ╰─"@, "    "@)
        },
    }
}

/// The diagrams of arguments that are not the last one.
pub open spec fn inner_args_diagram(args: Seq<Term>, show: spec_fn(Number) -> Seq<char>) -> Seq<Seq<char>>
    decreases args,
{
    if args.len() == 0 {
        Seq::empty()
    } else {
        inner_args_diagram(args.drop_last(), show) + indented(diagram(args.last(), show), " ├─"@, "    "@)
    }
}

/// The text of a tree diagram: a leaf's label alone, or every line followed
/// by a line break.
pub open spec fn diagram_text(t: Term, show: spec_fn(Number) -> Seq<char>) -> Seq<char> {
    match t {
        Term::Bin(..) | Term::Func(..) => line_text(diagram(t, show)),
        _ => diagram(t, show)[0],
    }
}

pub open spec fn line_text(lines: Seq<Seq<char>>) -> Seq<char>
    decreases lines.len(),
{
    if lines.len() == 0 {
        Seq::empty()
    } else {
        line_text(lines.drop_last()) + lines.last() + seq!['\n']
    }
}

pub open spec fn views(v: Seq<String>) -> Seq<Seq<char>> {
    v.map_values(|s: String| s@)
}

/// Appends the lines of a child diagram, indented.
fn push_indented(out: &mut Vec<String>, lines: &Vec<String>, first: &str, rest: &str)
    ensures
        views(final(out)@) == views(old(out)@) + indented(views(lines@), first@, rest@),
{
    let ghost start = views(out@);
    let mut k: usize = 0;
    while k < lines.len()
        invariant
            k <= lines.len(),
            views(out@) == start + indented(views(lines@), first@, rest@).take(k as int),
        decreases lines.len() - k,
    {
        let mut line = String::from_str(if k == 0 { first } else { rest });
        line.append(lines[k].as_str());
        let ghost before = out@;
        out.push(line);
        proof {
            assert(views(out@) =~= views(before).push(line@));
            assert(indented(views(lines@), first@, rest@).take(k + 1) =~= indented(views(lines@), first@, rest@).take(k as int).push(line@));
        }
        k = k + 1;
    }
    proof {
        assert(indented(views(lines@), first@, rest@).take(lines.len() as int) =~= indented(views(lines@), first@, rest@));
    }
}

fn op_label(op: BinOp) -> (r: String)
    ensures
        r@ == op_name(op),
{
    match op {
        BinOp::Sub => String::from_str("Sub"),
        BinOp::Add => String::from_str("Add"),
        BinOp::Mul => String::from_str("Mul"),
        BinOp::Div => String::from_str("Div"),
        BinOp::Pow => String::from_str("Pow"),
    }
}

impl AST {
    /// The lines of the tree's diagram.
    pub fn diagram_lines<R: Fn(Number) -> String>(&self, show: &R) -> (r: Vec<String>)
        requires
            is_formatter(*show),
        ensures
            views(r@) == diagram(self.term(), formatter_of(*show)),
        decreases self,
    {
        let ghost sf = formatter_of(*show);
        let mut out: Vec<String> = Vec::new();
        match self {
            AST::Literal { value } => {
                out.push(show(*value));
            },
            AST::SymbolicConstant { name } => {
                out.push(name.clone());
            },
            AST::Variable { name } => {
                out.push(name.clone());
            },
            AST::BinOp { op, left, right } => {
                out.push(op_label(*op));
                let ls = left.diagram_lines(show);
                let rs = right.diagram_lines(show);
                push_indented(&mut out, &ls, " ├─", " │  ");
                push_indented(&mut out, &rs, " ╰─", "    ");
            },
            AST::Function { name, args } => {
                return call_diagram(name, args, show);
            },
        }
        proof {
            assert(views(out@) =~= diagram(self.term(), sf));
        }
        out
    }
}


fn call_diagram<R: Fn(Number) -> String>(name: &String, args: &Vec<AST>, show: &R) -> (r: Vec<String>)
    requires
        is_formatter(*show),
    ensures
        views(r@) == diagram(Term::Func(name@, terms(args@)), formatter_of(*show)),
    decreases args,
{
    let ghost sf = formatter_of(*show);
    let mut out: Vec<String> = Vec::new();
    out.push(name.clone());
    proof {
        lemma_terms(args@);
    }
    let ghost ts = terms(args@);
    let n = args.len();
    if n == 0 {
        proof {
            assert(views(out@) =~= seq![name@]);
        }
        return out;
    }
    let mut i: usize = 0;
    while i + 1 < n
        invariant
            is_formatter(*show),
            sf == formatter_of(*show),
            n == args.len(),
            n > 0,
            i < n,
            ts == terms(args@),
            ts.len() == n,
            forall|j: int| 0 <= j < n ==> #[trigger] ts[j] == args@[j].term(),
            views(out@) == seq![name@] + inner_args_diagram(ts.take(i as int), sf),
        decreases n - i,
    {
        let sub = args[i].diagram_lines(show);
        let ghost before = views(out@);
        push_indented(&mut out, &sub, " ├─", "    ");
        proof {
            let t2 = ts.take(i + 1);
            assert(t2.drop_last() =~= ts.take(i as int));
            assert(views(out@) =~= seq![name@] + inner_args_diagram(t2, sf));
        }
        i = i + 1;
    }
    let last = args[n - 1].diagram_lines(show);
    push_indented(&mut out, &last, " ╰─", "    ");
    proof {
        assert(ts.take(n - 1) =~= ts.drop_last());
        assert(views(out@) =~= diagram(Term::Func(name@, ts), sf));
    }
    out
}


impl AST {
    /// The tree diagram of the tree, with `show` giving the text of each literal.
    pub fn tree_str<R: Fn(Number) -> String>(&self, show: &R) -> (r: String)
        requires
            is_formatter(*show),
        ensures
            r@ == diagram_text(self.term(), formatter_of(*show)),
    {
        let ghost sf = formatter_of(*show);
        let lines = self.diagram_lines(show);
        match self {
            AST::BinOp { .. } | AST::Function { .. } => {},
            _ => {
                proof {
                    assert(lines@.len() == 1);
                }
                let mut only = String::new();
                only.append(lines[0].as_str());
                return only;
            },
        }
        let mut out = String::new();
        let mut k: usize = 0;
        while k < lines.len()
            invariant
                k <= lines.len(),
                out@ == line_text(views(lines@).take(k as int)),
            decreases lines.len() - k,
        {
            out.append(lines[k].as_str());
            out.append("\n");
            proof {
                reveal_strlit("\n");
                let t = views(lines@).take(k + 1);
                assert(t.drop_last() =~= views(lines@).take(k as int));
            }
            k = k + 1;
        }
        proof {
            assert(views(lines@).take(lines.len() as int) =~= views(lines@));
        }
        out
    }
}

} // verus!
