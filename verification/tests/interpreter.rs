use schreme::env::Env;
use schreme::parser::{apply_builtin, eval, parse, parse_float_list, tokenize, Builtin, Error, Expr};
use schreme::{Expression, SchremeError};

fn toks(xs: &[&str]) -> Vec<String> {
    xs.iter().map(|s| s.to_string()).collect()
}

fn num(v: f64) -> Expr {
    Expr::Number(v.to_bits())
}

fn sym(s: &str) -> Expr {
    Expr::Symbol(s.to_string())
}

#[test]
fn tokenize_simple_form() {
    assert_eq!(tokenize("(+ 2 2)".to_string()), toks(&["(", "+", "2", "2", ")"]));
}

#[test]
fn tokenize_root_matches_core() {
    assert_eq!(schreme::tokenize("(+ 2 2)".to_string()), toks(&["(", "+", "2", "2", ")"]));
}

#[test]
fn tokenize_empty_input() {
    assert_eq!(tokenize(String::new()), Vec::<String>::new());
    assert_eq!(tokenize("   \t\n ".to_string()), Vec::<String>::new());
}

#[test]
fn tokenize_packed_parens() {
    assert_eq!(tokenize("(foo(bar))".to_string()), toks(&["(", "foo", "(", "bar", ")", ")"]));
}

#[test]
fn tokenize_idempotent_on_rejoined_tokens() {
    for text in ["(+ 2  2)", "a (b c)  (d (e f) )", "", "((()))", "x"] {
        let first = tokenize(text.to_string());
        let rejoined = first.join(" ");
        assert_eq!(tokenize(rejoined), first);
    }
}

#[test]
fn parse_deeply_nested_lists() {
    let ts = toks(&["(", "(", "(", ")", ")", ")"]);
    let (expr, rest) = parse(&ts).unwrap();
    assert_eq!(expr, Expr::List(vec![Expr::List(vec![Expr::List(vec![])])]));
    assert!(rest.is_empty());
}

#[test]
fn parse_list_leaves_remainder() {
    let ts = toks(&["(", ")", "x"]);
    let (expr, rest) = parse(&ts).unwrap();
    assert_eq!(expr, Expr::List(vec![]));
    assert_eq!(rest, &ts[2..]);
}

#[test]
fn parse_simple_form() {
    let ts = toks(&["(", "+", "2", "2", ")"]);
    let (expr, rest) = parse(&ts).unwrap();
    assert_eq!(expr, Expr::List(vec![sym("+"), num(2.0), num(2.0)]));
    assert!(rest.is_empty());
}

#[test]
fn parse_leaves_remainder() {
    let ts = toks(&["2", "3"]);
    let (expr, rest) = parse(&ts).unwrap();
    assert_eq!(expr, num(2.0));
    assert_eq!(rest, &ts[1..]);
}

#[test]
fn parse_empty_stream_fails() {
    let ts: Vec<String> = vec![];
    match parse(&ts) {
        Err(Error::ParseError(m)) => assert_eq!(m, "failed to parse token"),
        other => panic!("expected a parse error, got {:?}", other),
    }
}

#[test]
fn parse_stray_close_fails() {
    let ts = toks(&[")"]);
    match parse(&ts) {
        Err(Error::ParseError(m)) => assert_eq!(m, "unexpected `)`"),
        other => panic!("expected a parse error, got {:?}", other),
    }
}

#[test]
fn parse_unterminated_list_fails() {
    let ts = toks(&["(", "+", "2"]);
    match parse(&ts) {
        Err(Error::ParseError(m)) => assert_eq!(m, "could not find closing `)`"),
        other => panic!("expected a parse error, got {:?}", other),
    }
}

#[test]
fn parse_atom_classification() {
    for (text, expected) in [
        ("2", Some(2.0)),
        ("2.5", Some(2.5)),
        ("-3.0", Some(-3.0)),
        ("-", None),
        ("+", None),
        ("foo123abc", None),
    ] {
        let ts = toks(&[text]);
        let (expr, _) = parse(&ts).unwrap();
        match expected {
            Some(v) => assert_eq!(expr, num(v), "{} should be the number {}", text, v),
            None => assert_eq!(expr, sym(text), "{} should stay a symbol", text),
        }
    }
}

#[test]
fn atom_classification_matches_f64_from_str() {
    for text in [
        "2", "2.5", "-3.0", "+5", "5.", ".5", "5.e3", "1e3", "1e+3", "1E-3", "0", "-0", "00.00e-0",
        "1e999", "-1e-999", "inf", "Inf", "INF", "+inf", "-inf", "infinity", "Infinity",
        "INFINITY", "-Infinity", "-", "+", ".", "e5", "5e", "5e+", "0x1p3", "nan(1)", "snan",
        "foo123abc", "1.2.3", "--5", "1e2e3", "+.e3", "in", "infx",
    ] {
        let ts = toks(&[text]);
        let (expr, _) = parse(&ts).unwrap();
        match text.parse::<f64>() {
            Ok(v) => assert_eq!(
                expr,
                Expr::Number(v.to_bits()),
                "{} should be the number f64 reads it as",
                text
            ),
            Err(_) => assert_eq!(expr, sym(text), "{} should stay a symbol", text),
        }
    }
}

#[test]
fn nan_atoms_match_f64_from_str_bits() {
    for text in ["nan", "NaN", "NAN", "+nan", "-nan"] {
        let ts = toks(&[text]);
        let (expr, _) = parse(&ts).unwrap();
        let expected = text.parse::<f64>().unwrap().to_bits();
        assert_eq!(expr, Expr::Number(expected), "{} should carry f64's NaN bits", text);
    }
}

#[test]
fn root_parse_simple_form() {
    let ts = toks(&["(", "+", "2", "2", ")"]);
    let (expr, rest) = schreme::parse(&ts).unwrap();
    assert_eq!(
        expr,
        Expression::List(vec![
            Expression::Symbol("+".to_string()),
            Expression::Number(2.0f64.to_bits()),
            Expression::Number(2.0f64.to_bits()),
        ])
    );
    assert!(rest.is_empty());
}

#[test]
fn root_parse_empty_stream_fails() {
    let ts: Vec<String> = vec![];
    match schreme::parse(&ts) {
        Err(SchremeError::ParseError(m)) => assert_eq!(m, "failed to parse token"),
        other => panic!("expected a parse error, got {:?}", other),
    }
}

#[test]
fn eval_addition() {
    let mut env = Env::new();
    let form = Expr::List(vec![sym("+"), num(2.0), num(2.0)]);
    assert_eq!(eval(&mut env, &form).unwrap(), num(4.0));
}

#[test]
fn eval_nested_addition() {
    let mut env = Env::new();
    let inner = Expr::List(vec![sym("+"), num(2.0), num(2.0)]);
    let form = Expr::List(vec![sym("+"), num(2.0), inner]);
    assert_eq!(eval(&mut env, &form).unwrap(), num(6.0));
}

#[test]
fn eval_subtraction_folds_the_rest() {
    let mut env = Env::new();
    let form = Expr::List(vec![sym("-"), num(10.0), num(3.0), num(2.0)]);
    assert_eq!(eval(&mut env, &form).unwrap(), num(5.0));
}

#[test]
fn eval_sum_of_nothing_is_zero() {
    let mut env = Env::new();
    let form = Expr::List(vec![sym("+")]);
    assert_eq!(eval(&mut env, &form).unwrap(), num(0.0));
}

#[test]
fn eval_subtraction_of_one_argument() {
    let mut env = Env::new();
    let form = Expr::List(vec![sym("-"), num(5.0)]);
    assert_eq!(eval(&mut env, &form).unwrap(), num(5.0));
}

#[test]
fn eval_empty_list_fails() {
    let mut env = Env::new();
    match eval(&mut env, &Expr::List(vec![])) {
        Err(Error::ParseError(m)) => assert_eq!(m, "list must not be empty"),
        other => panic!("expected an error, got {:?}", other),
    }
}

#[test]
fn eval_subtraction_of_nothing_fails() {
    let mut env = Env::new();
    match eval(&mut env, &Expr::List(vec![sym("-")])) {
        Err(Error::ParseError(m)) => assert_eq!(m, "list must not be empty"),
        other => panic!("expected an error, got {:?}", other),
    }
}

#[test]
fn eval_unbound_symbol_fails() {
    let mut env = Env::new();
    match eval(&mut env, &sym("undefined-name")) {
        Err(Error::ParseError(m)) => assert_eq!(m, "unexpected symbol k='undefined-name'"),
        other => panic!("expected an error, got {:?}", other),
    }
}

#[test]
fn eval_number_is_itself() {
    let mut env = Env::new();
    assert_eq!(eval(&mut env, &num(2.5)).unwrap(), num(2.5));
}

#[test]
fn eval_non_function_head_fails() {
    let mut env = Env::new();
    let form = Expr::List(vec![num(1.0), num(2.0)]);
    match eval(&mut env, &form) {
        Err(Error::ParseError(m)) => assert_eq!(m, "first form must be a function"),
        other => panic!("expected an error, got {:?}", other),
    }
}

#[test]
fn eval_bare_function_fails() {
    let mut env = Env::new();
    match eval(&mut env, &Expr::Fun(Builtin::Add)) {
        Err(Error::ParseError(m)) => assert_eq!(m, "unexpected form"),
        other => panic!("expected an error, got {:?}", other),
    }
}

#[test]
fn eval_non_number_argument_fails() {
    let mut env = Env::new();
    let form = Expr::List(vec![sym("+"), num(2.0), sym("+")]);
    match eval(&mut env, &form) {
        Err(Error::ParseError(m)) => assert_eq!(m, "expected a number"),
        other => panic!("expected an error, got {:?}", other),
    }
}

#[test]
fn eval_error_in_argument_propagates() {
    let mut env = Env::new();
    let form = Expr::List(vec![sym("+"), num(2.0), sym("nope")]);
    match eval(&mut env, &form) {
        Err(Error::ParseError(m)) => assert_eq!(m, "unexpected symbol k='nope'"),
        other => panic!("expected an error, got {:?}", other),
    }
}

#[test]
fn pipeline_end_to_end() {
    let mut env = Env::new();
    let ts = tokenize("(+ 1.5 (- 10 2.5) 0.25)".to_string());
    let (form, rest) = parse(&ts).unwrap();
    assert!(rest.is_empty());
    assert_eq!(eval(&mut env, &form).unwrap(), num(1.5 + (10.0 - 2.5) + 0.25));
}

#[test]
fn env_lookup() {
    let env = Env::new();
    assert_eq!(env.get(&"+".to_string()), Some(&Expr::Fun(Builtin::Add)));
    assert_eq!(env.get(&"-".to_string()), Some(&Expr::Fun(Builtin::Sub)));
    assert_eq!(env.get(&"*".to_string()), None);
}

#[test]
fn parse_float_list_extracts_bits() {
    let args = vec![num(1.5), num(-2.0)];
    assert_eq!(parse_float_list(&args).unwrap(), vec![1.5f64.to_bits(), (-2.0f64).to_bits()]);
    let bad = vec![num(1.5), sym("x")];
    match parse_float_list(&bad) {
        Err(Error::ParseError(m)) => assert_eq!(m, "expected a number"),
        other => panic!("expected an error, got {:?}", other),
    }
}

#[test]
fn apply_builtin_directly() {
    assert_eq!(apply_builtin(Builtin::Add, &[]).unwrap(), num(0.0));
    assert_eq!(apply_builtin(Builtin::Add, &[num(0.1), num(0.2)]).unwrap(), num(0.1 + 0.2));
    assert_eq!(apply_builtin(Builtin::Sub, &[num(1.0), num(0.75)]).unwrap(), num(1.0 - 0.75));
}

#[test]
fn duplicate_is_deep_equality() {
    let form = Expr::List(vec![sym("+"), num(2.0), Expr::List(vec![sym("-"), num(1.0)])]);
    assert_eq!(form.duplicate(), form);
}
