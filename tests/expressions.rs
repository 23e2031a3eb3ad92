use symcalc::ast::AST;
use symcalc::lexer::{lex, LexError};
use symcalc::number::Number;
use symcalc::parser::{parse, ParseError};
use symcalc::simplifier::EvaluationError;
use symcalc::tokens::{BinOp, Token};

fn num(x: f64) -> Number {
    Number::from_bits(x.to_bits())
}

fn val(n: Number) -> f64 {
    f64::from_bits(n.to_bits())
}

fn fold(op: BinOp, a: Number, b: Number) -> Number {
    let (x, y) = (val(a), val(b));
    num(match op {
        BinOp::Add => x + y,
        BinOp::Sub => x - y,
        BinOp::Mul => x * y,
        BinOp::Div => x / y,
        BinOp::Pow => x.powf(y),
    })
}

fn read(text: String) -> Number {
    num(text.parse::<f64>().unwrap())
}

fn tokens(s: &str) -> Vec<Token> {
    lex(s, &read).unwrap()
}

fn tree(s: &str) -> AST {
    parse(&tokens(s)).unwrap()
}

fn parse_err(s: &str) -> ParseError {
    match parse(&tokens(s)) {
        Err(e) => e,
        Ok(t) => panic!("parsed: {}", sexp(&t)),
    }
}

fn sexp(t: &AST) -> String {
    match t {
        AST::Literal { value } => format!("{}", val(*value)),
        AST::SymbolicConstant { name } => format!("#{}", name),
        AST::Variable { name } => name.clone(),
        AST::Function { name, args } => {
            let parts: Vec<String> = args.iter().map(sexp).collect();
            format!("{}[{}]", name, parts.join(" "))
        }
        AST::BinOp { op, left, right } => {
            format!("({} {} {})", op.symbol(), sexp(left), sexp(right))
        }
    }
}

fn simplified(s: &str) -> (Result<bool, EvaluationError>, String) {
    let mut t = tree(s);
    let r = t.simplify(&fold);
    (r, sexp(&t))
}

fn derivative(s: &str) -> AST {
    tree(s).differentiate()
}

#[test]
fn parse_respects_precedence() {
    assert_eq!(sexp(&tree("1+2*3")), "(+ 1 (* 2 3))");
    assert_eq!(sexp(&tree("1*2+3")), "(+ (* 1 2) 3)");
    assert_eq!(sexp(&tree("2*3^2")), "(* 2 (^ 3 2))");
}

#[test]
fn parse_groups_left_for_additive_and_multiplicative() {
    assert_eq!(sexp(&tree("1-2-3")), "(- (- 1 2) 3)");
    assert_eq!(sexp(&tree("8/4/2")), "(/ (/ 8 4) 2)");
}

#[test]
fn power_groups_right() {
    assert_eq!(sexp(&tree("2^3^2")), "(^ 2 (^ 3 2))");
    assert_eq!(sexp(&tree("(2^3)^2")), "(^ (^ 2 3) 2)");
    assert_ne!(sexp(&tree("2^3^2")), sexp(&tree("(2^3)^2")));
}

#[test]
fn unary_minus_is_a_function() {
    assert_eq!(sexp(&tree("-x")), "-[x]");
    assert_eq!(sexp(&tree("--2")), "-[-[2]]");
    assert_eq!(sexp(&tree("2*-3")), "(* 2 -[3])");
    assert_eq!(sexp(&tree("-2^2")), "(^ -[2] 2)");
}

#[test]
fn parse_calls_constants_and_variables() {
    assert_eq!(sexp(&tree("f(x, 1)")), "f[x 1]");
    assert_eq!(sexp(&tree("sin(pi) + e")), "(+ sin[#pi] #e)");
    assert_eq!(sexp(&tree("g(h(y))")), "g[h[y]]");
}

#[test]
fn parse_errors() {
    assert_eq!(parse_err("(1+2"), ParseError::EndOfStream);
    assert_eq!(parse_err("1 2"), ParseError::UnexpectedTokens);
    assert_eq!(parse_err("+1"), ParseError::UnexpectedOperator);
    assert_eq!(parse_err(")"), ParseError::UnclosedParen);
    assert_eq!(parse_err("1+)"), ParseError::UnclosedParen);
    assert_eq!(parse_err("(1 2)"), ParseError::MissingParen);
    assert_eq!(parse_err("f(1 2)"), ParseError::MissingParen);
    assert_eq!(parse_err(","), ParseError::UnexpectedTokens);
    assert_eq!(parse_err("1,2"), ParseError::UnexpectedTokens);
    assert_eq!(parse_err(""), ParseError::EndOfStream);
    assert_eq!(parse_err("1+"), ParseError::EndOfStream);
    assert_eq!(parse_err("f(1"), ParseError::EndOfStream);
}

#[test]
fn function_token_without_open_paren() {
    let ts = vec![Token::Function("f".to_string()), Token::Literal(num(1.0))];
    assert_eq!(parse(&ts).err(), Some(ParseError::MissingParen));
    let ts = vec![Token::Function("f".to_string())];
    assert_eq!(parse(&ts).err(), Some(ParseError::EndOfStream));
}

#[test]
fn lex_classifies_tokens() {
    let ts = tokens("sin(x) + pi*e - 3.5^y, z");
    let shown: Vec<String> = ts
        .iter()
        .map(|t| match t {
            Token::OpenParen => "(".to_string(),
            Token::CloseParen => ")".to_string(),
            Token::Literal(v) => format!("{}", val(*v)),
            Token::SymbolicConstant(n) => format!("#{}", n),
            Token::Variable(n) => format!("v:{}", n),
            Token::Function(n) => format!("f:{}", n),
            Token::BinOp(op) => op.to_string(),
            Token::Comma => ",".to_string(),
        })
        .collect();
    assert_eq!(
        shown,
        vec!["f:sin", "(", "v:x", ")", "+", "#pi", "*", "#e", "-", "3.5", "^", "v:y", ",", "v:z"]
    );
}

#[test]
fn lex_errors() {
    assert_eq!(lex("1.2.3", &read).err(), Some(LexError));
    assert_eq!(lex("2 # 3", &read).err(), Some(LexError));
    assert_eq!(lex(".5", &read).err(), Some(LexError));
    assert_eq!(lex("1\t2", &read).err(), Some(LexError));
    assert!(lex("12.", &read).is_ok());
}

#[test]
fn lex_identifier_before_digits() {
    assert_eq!(tokens("x2").len(), 2);
    assert_eq!(parse_err("x2"), ParseError::UnexpectedTokens);
}

#[test]
fn constant_folding_all_operators() {
    assert_eq!(simplified("2+3"), (Ok(true), "5".to_string()));
    assert_eq!(simplified("2-3"), (Ok(true), "-1".to_string()));
    assert_eq!(simplified("2*3"), (Ok(true), "6".to_string()));
    assert_eq!(simplified("3/2"), (Ok(true), "1.5".to_string()));
    assert_eq!(simplified("2^10"), (Ok(true), "1024".to_string()));
}

#[test]
fn constant_folding_is_ieee() {
    let mut t = tree("0.1+0.2");
    assert_eq!(t.simplify(&fold), Ok(true));
    match t {
        AST::Literal { value } => assert_eq!(val(value), 0.1f64 + 0.2f64),
        _ => panic!("not folded"),
    }
}

#[test]
fn literal_division_by_zero_folds() {
    assert_eq!(simplified("1/0"), (Ok(true), "inf".to_string()));
    assert_eq!(simplified("0/0"), (Ok(true), "NaN".to_string()));
}

#[test]
fn division_of_variable_by_zero_fails() {
    assert_eq!(simplified("x/0").0, Err(EvaluationError::ZeroDivisionError));
    assert_eq!(simplified("y/(1-1)").0, Err(EvaluationError::ZeroDivisionError));
}

#[test]
fn identity_rules() {
    assert_eq!(simplified("0+x").1, "x");
    assert_eq!(simplified("x+0").1, "x");
    assert_eq!(simplified("x-0").1, "x");
    assert_eq!(simplified("0-x").1, "x");
    assert_eq!(simplified("1*x").1, "x");
    assert_eq!(simplified("0*x").1, "0");
    assert_eq!(simplified("x*1").1, "x");
    assert_eq!(simplified("x*0").1, "0");
    assert_eq!(simplified("0/x").1, "0");
    assert_eq!(simplified("x/1").1, "x");
    assert_eq!(simplified("1^x").1, "1");
    assert_eq!(simplified("x^0").1, "1");
    assert_eq!(simplified("x^1").1, "x");
    assert_eq!(simplified("x+y"), (Ok(false), "(+ x y)".to_string()));
}

#[test]
fn negative_zero_counts_as_zero() {
    let mut t = AST::Variable { name: "x".to_string() } + AST::Literal { value: num(-0.0) };
    assert_eq!(t.simplify(&fold), Ok(true));
    assert_eq!(sexp(&t), "x");
}

#[test]
fn special_function_values() {
    assert_eq!(simplified("sin(0)").1, "0");
    assert_eq!(simplified("sin(pi)").1, "0");
    assert_eq!(simplified("ln(0)").1, "0");
    assert_eq!(simplified("ln(e)").1, "1");
    assert_eq!(simplified("sin(e)"), (Ok(false), "sin[#e]".to_string()));
    assert_eq!(simplified("cos(0)"), (Ok(false), "cos[0]".to_string()));
    assert_eq!(simplified("sin(1-1)").1, "0");
    assert_eq!(simplified("sin(0) + x").1, "x");
}

#[test]
fn wrong_arguments() {
    assert_eq!(simplified("sin(x, y)").0, Err(EvaluationError::WrongArguments));
    assert_eq!(simplified("ln(1, 2)").0, Err(EvaluationError::WrongArguments));
    assert_eq!(simplified("f(x, y)"), (Ok(false), "f[x y]".to_string()));
    assert_eq!(simplified("f(1+1, y)"), (Ok(true), "f[2 y]".to_string()));
}

#[test]
fn simplify_reaches_fixed_point() {
    for s in ["(1-1)*x + y*1", "x^(2-1) / (3-2)", "f(0+x) * (1+1)", "sin(0) + ln(e) * x", "x*1 + x*1"] {
        let mut t = tree(s);
        assert!(t.simplify(&fold).is_ok());
        let first = sexp(&t);
        assert_eq!(t.simplify(&fold), Ok(false));
        assert_eq!(sexp(&t), first);
    }
}

#[test]
fn nested_simplification() {
    assert_eq!(simplified("(1-1)*x + y*1"), (Ok(true), "y".to_string()));
    assert_eq!(simplified("x^(2-1) / (3-2)"), (Ok(true), "x".to_string()));
}

#[test]
fn derivative_of_variable() {
    assert_eq!(sexp(&derivative("x")), "1");
    assert_eq!(sexp(&derivative("3")), "0");
    assert_eq!(sexp(&derivative("pi")), "0");
}

#[test]
fn derivative_of_square() {
    let mut d = derivative("x*x");
    assert_eq!(sexp(&d), "(+ (* x 1) (* x 1))");
    assert_eq!(d.simplify(&fold), Ok(true));
    assert_eq!(sexp(&d), "(+ x x)");
}

#[test]
fn derivative_of_sine() {
    let mut d = derivative("sin(x)");
    assert_eq!(sexp(&d), "(* 1 cos[x])");
    d.simplify(&fold).unwrap();
    assert_eq!(sexp(&d), "cos[x]");
}

#[test]
fn derivative_of_reciprocal() {
    let mut d = derivative("1/x");
    assert_eq!(sexp(&d), "(/ (- (* x 0) (* 1 1)) (^ x 2))");
    assert_eq!(d.simplify(&fold), Ok(true));
    assert_eq!(sexp(&d), "(/ -1 (^ x 2))");
}

#[test]
fn derivative_rules_for_functions() {
    assert_eq!(sexp(&derivative("cos(x)")), "(* 1 (* -1 sin[x]))");
    assert_eq!(sexp(&derivative("tan(x)")), "(* 1 (^ sec[x] 2))");
    assert_eq!(sexp(&derivative("ln(x)")), "(* 1 (/ 1 x))");
    assert_eq!(sexp(&derivative("-x")), "(* 1 -1)");
    assert_eq!(sexp(&derivative("f(x)")), "(* 1 f'[x])");
}

#[test]
fn derivative_rules_for_operators() {
    assert_eq!(sexp(&derivative("x+2")), "(+ 1 0)");
    assert_eq!(sexp(&derivative("x-y")), "(- 1 1)");
    assert_eq!(
        sexp(&derivative("x^2")),
        "(* (^ x 2) (+ (* 0 ln[x]) (/ (* 2 1) x)))"
    );
    let mut d = derivative("x^2");
    d.simplify(&fold).unwrap();
    assert_eq!(sexp(&d), "(* (^ x 2) (/ 2 x))");
}

#[test]
fn differentiate_leaves_input_unchanged() {
    let t = tree("x*sin(x)");
    let before = sexp(&t);
    let _ = t.differentiate();
    assert_eq!(sexp(&t), before);
}

#[test]
fn deep_copy_is_equal() {
    let t = tree("f(x, 2) ^ (y - e)");
    assert_eq!(sexp(&t.deep_copy()), sexp(&t));
}

#[test]
fn operator_builders() {
    let x = || AST::Variable { name: "x".to_string() };
    assert_eq!(sexp(&(x() + x())), "(+ x x)");
    assert_eq!(sexp(&(x() - x())), "(- x x)");
    assert_eq!(sexp(&(x() * x())), "(* x x)");
    assert_eq!(sexp(&(x() / x())), "(/ x x)");
    assert_eq!(sexp(&x().pow(x())), "(^ x x)");
}

#[test]
fn operator_rank_and_parentheses() {
    assert!(BinOp::Sub.rank() < BinOp::Add.rank());
    assert!(BinOp::Div.rank() < BinOp::Pow.rank());
    assert!(symcalc::ast::is_paren_required(BinOp::Mul, &tree("1+2")));
    assert!(!symcalc::ast::is_paren_required(BinOp::Add, &tree("1*2")));
    assert!(!symcalc::ast::is_paren_required(BinOp::Add, &tree("1+2")));
    assert!(!symcalc::ast::is_paren_required(BinOp::Pow, &tree("f(1+2)")));
}

#[test]
fn number_predicates() {
    assert!(num(0.0).is_zero());
    assert!(num(-0.0).is_zero());
    assert!(!num(1.0).is_zero());
    assert!(num(1.0).is_one());
    assert!(!num(f64::NAN).is_zero());
    assert_eq!(val(Number::two()), 2.0);
    assert_eq!(val(Number::minus_one()), -1.0);
}

fn show_number(n: Number) -> String {
    val(n).to_string()
}

fn flat(s: &str) -> String {
    tree(s).flat_str(&show_number)
}

#[test]
fn flat_rendering() {
    assert_eq!(flat("1+2*3"), "1 + 2 * 3");
    assert_eq!(flat("(1+2)*3"), "(1 + 2) * 3");
    assert_eq!(flat("f(x, 2.5, pi)"), "f(x, 2.5, pi)");
    assert_eq!(flat("-x"), "-(x)");
    assert_eq!(flat("(2^3)^2"), "2 ^ 3 ^ 2");
    assert_eq!(flat("2^3^2"), "2 ^ 3 ^ 2");
}

#[test]
fn flat_rendering_parenthesises_by_rank_only() {
    // a child of higher rank below Sub is not parenthesised
    assert_eq!(flat("a-(b+c)"), "a - b + c");
    assert_eq!(flat("(a-b)+c"), "(a - b) + c");
    assert_eq!(flat("a*(b/c)"), "a * b / c");
}

#[test]
fn flat_rendering_round_trip() {
    for s in ["1 + 2 * 3", "(1 + 2) * 3", "sin(x) ^ 2 - ln(e) / y", "f(x, 2.5, -(y))", "2 ^ 3 ^ 2", "(a - b) + c"] {
        let once = flat(s);
        assert_eq!(flat(&once), once);
    }
}

#[test]
fn tree_rendering() {
    let t = tree("1+f(x, 2)*y");
    assert_eq!(
        t.tree_str(&show_number),
        "Add\n ├─1\n ╰─Mul\n     ├─f\n     │   ├─x\n     │   ╰─2\n     ╰─y\n"
    );
    assert_eq!(tree("x").tree_str(&show_number), "x");
    assert_eq!(tree("2.5").tree_str(&show_number), "2.5");
    assert_eq!(tree("-(x-1)").tree_str(&show_number), "-\n ╰─Sub\n     ├─x\n     ╰─1\n");
}

#[test]
fn unary_calls_only() {
    assert!(tree("sin(x) * -y").has_unary_calls_only());
    assert!(!tree("f(x, y) + 1").has_unary_calls_only());
    assert!(!tree("1 + g(h(1, 2))").has_unary_calls_only());
}

#[test]
fn error_messages() {
    assert_eq!(LexError.to_string(), "rip");
    assert_eq!(ParseError::EndOfStream.to_string(), "died parsing lol");
    assert_eq!(EvaluationError::WrongArguments.to_string(), "rip");
    assert_eq!(BinOp::Pow.to_string(), "^");
    assert_eq!(BinOp::Sub.symbol(), '-');
}

#[test]
fn change_flag_counts_every_change() {
    assert_eq!(simplified("x*1 + y"), (Ok(true), "(+ x y)".to_string()));
    assert_eq!(simplified("sin(0)"), (Ok(true), "0".to_string()));
    assert_eq!(simplified("ln(e)"), (Ok(true), "1".to_string()));
    assert_eq!(simplified("f(sin(pi))"), (Ok(true), "f[0]".to_string()));
    assert_eq!(simplified("x*y + f(z)"), (Ok(false), "(+ (* x y) f[z])".to_string()));
}

#[test]
fn division_outcomes() {
    assert_eq!(simplified("0/x"), (Ok(true), "0".to_string()));
    assert_eq!(simplified("(1+1)/(2-1)"), (Ok(true), "2".to_string()));
    assert_eq!(simplified("(x*1)/(1-1)").0, Err(EvaluationError::ZeroDivisionError));
    assert_eq!(simplified("(x*1)/y"), (Ok(true), "(/ x y)".to_string()));
}

#[test]
fn clone_copies_the_tree() {
    let t = tree("f(x, 2) * -y");
    let c = t.clone();
    assert_eq!(sexp(&c), sexp(&t));
}
