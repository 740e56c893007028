//! End-to-end language tests: evaluation scenarios, parsing and printing
//! round trips, and one input for each rejection.
use lyric::{
    Error, Fiber, FiberState, Form, NoNatives, SymbolId, Val, parse, peval_fn, plus_fn,
};
use FiberState::{Done, Yield};

type F = Fiber<(), (), NoNatives>;

fn run(src: &str) -> Result<F, Error> {
    Fiber::from_expr(src, (), NoNatives)
}

#[test]
fn arithmetic() {
    let mut f = run("(+ 3 4)").unwrap();
    assert_eq!(f.resume().unwrap(), Done(Val::Int(7)));
    assert!(f.is_stack_empty());
}

#[test]
fn nested_arithmetic() {
    let mut f = run("(+ (+ 1 2) (+ 3 (+ 4 5)))").unwrap();
    assert_eq!(f.resume().unwrap(), Done(Val::Int(15)));
}

#[test]
fn closure_mutation() {
    let prog = "(begin (def x 0) (defn inc () (set x (+ x 1))) (inc) (inc) x)";
    let mut f = run(prog).unwrap();
    assert_eq!(f.resume().unwrap(), Done(Val::Int(2)));
    assert!(f.is_stack_empty());
}

#[test]
fn peval_catches_error_as_value() {
    let mut f = run("(peval 'undefined_symbol)").unwrap();
    assert_eq!(
        f.resume().unwrap(),
        Done(Val::Error(Error::UndefinedSymbol(SymbolId::from("undefined_symbol"))))
    );
}

#[test]
fn peval_returns_value() {
    let mut f = run("(peval '(+ 1 2))").unwrap();
    assert_eq!(f.resume().unwrap(), Done(Val::Int(3)));
}

#[test]
fn if_branches() {
    let mut f = run("(if true 1 2)").unwrap();
    assert_eq!(f.resume().unwrap(), Done(Val::Int(1)));
    let mut f = run("(if false 1 2)").unwrap();
    assert_eq!(f.resume().unwrap(), Done(Val::Int(2)));
    let mut f = run("(if nil 1)").unwrap();
    assert_eq!(f.resume().unwrap(), Done(Val::Nil));
    let mut f = run("(if 0 1 2)").unwrap();
    assert_eq!(f.resume().unwrap(), Done(Val::Int(1)), "only nil and false are false");
}

#[test]
fn begin_empty_is_nil() {
    let mut f = run("(begin)").unwrap();
    assert_eq!(f.resume().unwrap(), Done(Val::Nil));
}

#[test]
fn quote_is_literal() {
    let mut f = run("'(1 2)").unwrap();
    assert_eq!(
        f.resume().unwrap(),
        Done(Val::List(vec![Val::Int(1), Val::Int(2)]))
    );
}

#[test]
fn keywords_self_evaluate() {
    let mut f = run(":name").unwrap();
    assert_eq!(f.resume().unwrap(), Done(Val::keyword("name")));
}

#[test]
fn comments_and_whitespace_are_skipped() {
    assert_eq!(parse("; a comment\n  42 ; trailing\n").unwrap(), Form::Int(42));
}

#[test]
fn string_escapes_round_trip() {
    let f = parse("\"a\\\"b\\\\c\"").unwrap();
    assert_eq!(f, Form::string("a\"b\\c"));
    assert_eq!(f.to_string(), "\"a\\\"b\\\\c\"");
    assert_eq!(parse(&f.to_string()).unwrap(), f);
}

#[test]
fn parse_print_round_trip() {
    for src in [
        "(defn add1 (x) (+ x 1))",
        "(begin (def x -5) '(a :b \"c\" nil true false) (if x (yield x) (loop x)))",
        "'()",
        "''quoted-twice",
        "-2147483648",
        "2147483647",
    ] {
        let f = parse(src).unwrap();
        let printed = f.to_string();
        assert_eq!(parse(&printed).unwrap(), f, "round trip of {}", src);
    }
}

#[test]
fn form_val_round_trip() {
    let f = parse("(a :b \"c\" -7 nil true (inner 1))").unwrap();
    let v: Val<()> = Val::from_form(&f);
    assert_eq!(Form::try_from_val(&v), Ok(f));
}

#[test]
fn val_outside_subset_is_rejected() {
    let v: Val<()> = Val::Bytecode(vec![]);
    assert!(matches!(Form::try_from_val(&v), Err(Error::InvalidFormToExpr(_))));
    let v: Val<()> = Val::Error(Error::EmptyExpression);
    assert!(matches!(Form::try_from_val(&v), Err(Error::InvalidFormToExpr(_))));
}

#[test]
fn lex_rejections() {
    assert!(matches!(parse("\"unterminated"), Err(Error::FailedToLex(_))));
    assert!(matches!(parse("9999999999"), Err(Error::FailedToLex(_))));
    assert!(matches!(parse("-9999999999"), Err(Error::FailedToLex(_))));
    assert!(matches!(parse(":9bad"), Err(Error::FailedToLex(_))));
}

#[test]
fn int_range_bounds() {
    assert_eq!(parse("2147483647").unwrap(), Form::Int(2147483647));
    assert_eq!(parse("-2147483648").unwrap(), Form::Int(-2147483648));
    assert!(matches!(parse("2147483648"), Err(Error::FailedToLex(_))));
    assert_eq!(parse("-2147483648").unwrap().to_string(), "-2147483648");
}

#[test]
fn parse_rejections() {
    assert!(matches!(parse(""), Err(Error::FailedToParse(_))));
    assert!(matches!(parse("(a b"), Err(Error::FailedToParse(_))));
    assert!(matches!(parse(")"), Err(Error::FailedToParse(_))));
    assert!(matches!(parse("a b"), Err(Error::FailedToParse(_))));
}

#[test]
fn compile_rejections() {
    assert!(matches!(run("()"), Err(Error::EmptyExpression)));
    assert!(matches!(run("(def 1 2)"), Err(Error::InvalidExpression(_))));
    assert!(matches!(run("(lambda 5 x)"), Err(Error::InvalidExpression(_))));
    assert!(matches!(run("def"), Err(Error::UnexpectedOperator(_))));
    assert!(matches!(run("(yield)"), Err(Error::InvalidExpression(_))));
}

#[test]
fn run_rejections() {
    let mut f = run("(1 2)").unwrap();
    assert!(matches!(f.resume(), Err(Error::InvalidOperation)));
    let mut f = run("((lambda (x) x))").unwrap();
    assert!(matches!(f.resume(), Err(Error::InvalidArgumentsToFunctionCall)));
    let mut f = run("(+ 1 \"two\")").unwrap();
    assert!(matches!(f.resume(), Err(Error::UnexpectedArguments(_))));
    let mut f = run("(+ 2147483647 1)").unwrap();
    assert!(matches!(f.resume(), Err(Error::UnexpectedArguments(_))));
}

#[test]
fn resume_protocol() {
    // a fresh fiber cannot resume from a yield it never made
    let mut f = run("1").unwrap();
    assert_eq!(f.resume_from_yield(Val::Nil), Err(Error::AlreadyRunning));
    // finishing is terminal, and failing stays failing
    assert_eq!(f.resume().unwrap(), Done(Val::Int(1)));
    assert_eq!(f.resume(), Err(Error::AlreadyCompleted));
    assert_eq!(f.resume(), Err(Error::AlreadyCompleted));
    assert_eq!(f.resume_from_yield(Val::Nil), Err(Error::AlreadyCompleted));

    let mut f = run("missing").unwrap();
    assert!(matches!(f.resume(), Err(Error::UndefinedSymbol(_))));
    assert_eq!(f.resume(), Err(Error::AlreadyCompleted));
    assert_eq!(f.resume_from_yield(Val::Nil), Err(Error::AlreadyCompleted));
}

#[test]
fn done_fiber_leaves_empty_stack() {
    let mut f = run("(begin 1 2 3)").unwrap();
    assert_eq!(f.resume().unwrap(), Done(Val::Int(3)));
    assert!(f.is_stack_empty(), "the stack held exactly the result before the final pop");
}

#[test]
fn yield_round_trip() {
    let mut f = run("(+ 10 (yield 1))").unwrap();
    assert_eq!(f.resume().unwrap(), Yield(Val::Int(1)));
    assert_eq!(f.resume_from_yield(Val::Int(5)).unwrap(), Done(Val::Int(15)));
}

#[test]
fn lambda_captures_environment() {
    // mutating the captured environment is observable inside the lambda
    let prog = "(begin (def x 1) (defn get-x () x) (set x 41) (get-x))";
    let mut f = run(prog).unwrap();
    assert_eq!(f.resume().unwrap(), Done(Val::Int(41)));
}

#[test]
fn parameter_shadows_outer_binding() {
    // assignment to a shadowed name stays in the call's own frame
    let prog = "(begin (def x 1) ((lambda (x) (set x 9)) 5) x)";
    let mut f = run(prog).unwrap();
    assert_eq!(f.resume().unwrap(), Done(Val::Int(1)));
}

#[test]
fn closure_keeps_its_creation_environment() {
    let prog = "(begin         (defn make () (begin (def c 0) (lambda () (set c (+ c 1)))))         (def f (make))         (f)         (f))";
    let mut f = run(prog).unwrap();
    assert_eq!(f.resume().unwrap(), Done(Val::Int(2)));
}

#[test]
fn peval_passes_yields_through() {
    let mut f = run("(peval '(yield 5))").unwrap();
    assert_eq!(f.resume().unwrap(), Yield(Val::Int(5)));
    assert_eq!(f.resume_from_yield(Val::Int(7)).unwrap(), Done(Val::Int(7)));
}

#[test]
fn builtin_constructors() {
    assert_eq!(plus_fn().symbol, SymbolId::from("+"));
    assert_eq!(peval_fn().symbol, SymbolId::from("peval"));
}

#[test]
fn callable_values_to_string() {
    let v: Val<()> = Val::NativeFn(plus_fn());
    assert_eq!(v.to_string(), "<nativefn +>");
    let v: Val<()> = Val::Bytecode(vec![]);
    assert_eq!(v.to_string(), "<bytecode>");
    let v: Val<()> = Val::Error(Error::UndefinedSymbol(SymbolId::from("x")));
    assert_eq!(v.to_string(), "<error Undefined symbol - x>");
}

#[test]
fn lambda_to_string() {
    let mut f = run("(lambda (a b) a)").unwrap();
    match f.resume().unwrap() {
        Done(v) => assert_eq!(v.to_string(), "<lambda (a b)>"),
        other => panic!("expected a lambda, got {:?}", other),
    }
}
