//! Tests for embedding in a host application.
use lyric::{
    Error, Fiber, FiberState, Form, Inst, NativeFn, NativeFnVal, NativeHost, SymbolId, Val,
    parse,
};
use FiberState::{Done, Yield};

#[derive(Debug, PartialEq)]
enum Ext {
    SendConn(Vec<Val<Ext>>),
    RecvConn,
    EchoYield(Vec<Val<Ext>>),
}

impl lyric::Extern for Ext {
    fn dup(&self) -> Self {
        match self {
            Ext::SendConn(vs) => Ext::SendConn(vs.iter().map(|v| v.duplicate()).collect()),
            Ext::RecvConn => Ext::RecvConn,
            Ext::EchoYield(vs) => Ext::EchoYield(vs.iter().map(|v| v.duplicate()).collect()),
        }
    }

    fn to_text(&self) -> String {
        format!("<Ext {:?}>", self)
    }
}

#[derive(Debug, Clone, PartialEq)]
struct Locals {
    val: i32,
}

/// Helper - create local fixture
fn locals() -> Locals {
    Locals { val: 0 }
}

/// The natives these tests bind, dispatched by symbol.
struct Host;

impl NativeHost<Ext, Locals> for Host {
    fn call(
        &self,
        locals: &mut Locals,
        symbol: &SymbolId,
        args: Vec<Val<Ext>>,
    ) -> Result<NativeFnVal<Ext>, Error> {
        match symbol.as_str() {
            "recv_conn" => Ok(NativeFnVal::Yield(Val::Extern(Ext::RecvConn))),
            "send_conn" => Ok(NativeFnVal::Yield(Val::Extern(Ext::SendConn(args)))),
            "echo_yield" => Ok(NativeFnVal::Yield(Val::Extern(Ext::EchoYield(args)))),
            "get_local" => Ok(NativeFnVal::Return(Val::Int(locals.val))),
            "inc_local" => match &args[..] {
                [Val::Int(v)] => {
                    locals.val += v;
                    Ok(NativeFnVal::Return(Val::Nil))
                }
                _ => panic!(),
            },
            _ => Err(Error::InvalidOperation),
        }
    }
}

type F = Fiber<Ext, Locals, Host>;

fn from_expr(src: &str) -> Result<F, Error> {
    Fiber::from_expr(src, locals(), Host)
}

fn as_val(f: Form) -> Val<Ext> {
    Val::from_form(&f)
}

#[test]
fn fiber_simple() {
    let mut f = from_expr("\"hello world\"").unwrap();
    assert_eq!(f.resume(), Ok(Done(Val::string("hello world"))));
}

#[test]
fn fiber_invalid_expr() {
    assert!(matches!(from_expr("- jibberish )("), Err(Error::FailedToLex(_))));
}

#[test]
fn fiber_empty_bytecode() {
    let mut f: F = Fiber::from_bytecode(vec![], locals(), Host);
    assert!(
        matches!(f.resume(), Err(Error::UnexpectedStack(_))),
        "Executing empty bytecode panics, since there is nothing to return"
    );
}

#[test]
fn fiber_invalid_bytecode() {
    let mut f: F = Fiber::from_bytecode(
        vec![Inst::PopTop, Inst::PopTop, Inst::PopTop],
        locals(),
        Host,
    );
    assert!(matches!(f.resume(), Err(Error::UnexpectedStack(_))));
}

#[test]
fn fiber_yielding() {
    // An infinitely increasing counter increasing by one each iteration
    let prog = r#"
        (begin
            (def x 0)
            (defn yielding_add ()
                (yield x)
                (set x (+ x 1))
                (yielding_add))
            (yielding_add)
        )
    "#;
    let mut f = from_expr(prog).unwrap();

    assert_eq!(f.resume().unwrap(), Yield(Val::Int(0)));
    assert_eq!(f.resume_from_yield(Val::Nil).unwrap(), Yield(Val::Int(1)));
    assert_eq!(f.resume_from_yield(Val::Nil).unwrap(), Yield(Val::Int(2)));
    assert_eq!(f.resume_from_yield(Val::Nil).unwrap(), Yield(Val::Int(3)));
    assert_eq!(f.resume_from_yield(Val::Nil).unwrap(), Yield(Val::Int(4)));
    assert_eq!(f.resume_from_yield(Val::Nil).unwrap(), Yield(Val::Int(5)));
}

#[test]
fn fiber_yielding_by_arg() {
    // An infinitely increasing counter increasing by yield-ed value
    let prog = r#"
        (begin
            (def x 0)
            (defn yielding_add ()
                (set x (+ x (yield x)))
                (yielding_add))
            (yielding_add)
        )
    "#;
    let mut f = from_expr(prog).unwrap();

    assert_eq!(f.resume().unwrap(), Yield(Val::Int(0)));
    assert_eq!(f.resume_from_yield(Val::Int(1)).unwrap(), Yield(Val::Int(1)));
    assert_eq!(f.resume_from_yield(Val::Int(2)).unwrap(), Yield(Val::Int(3)));
    assert_eq!(f.resume_from_yield(Val::Int(3)).unwrap(), Yield(Val::Int(6)));
    assert_eq!(f.resume_from_yield(Val::Int(4)).unwrap(), Yield(Val::Int(10)));
    assert_eq!(f.resume_from_yield(Val::Int(5)).unwrap(), Yield(Val::Int(15)));
}

#[test]
fn fiber_yielding_native_binding() {
    let mut f = from_expr("(echo_yield :one :two)").unwrap();
    f.bind(NativeFn::host("echo_yield"));

    assert_eq!(
        f.resume().unwrap(),
        Yield(Val::Extern(Ext::EchoYield(vec![
            Val::keyword("one"),
            Val::keyword("two"),
        ])))
    );
    assert_eq!(
        f.resume_from_yield(Val::string("Hello world")).unwrap(),
        Done(Val::string("Hello world")),
    );
}

#[test]
fn fiber_looping_yield() {
    let prog = r#"
        (begin
            (def x 0)
            (loop (set x (+ x (yield x)))))
    "#;
    let mut f = from_expr(prog).unwrap();

    assert_eq!(f.resume().unwrap(), Yield(Val::Int(0)));
    assert_eq!(f.resume_from_yield(Val::Int(1)).unwrap(), Yield(Val::Int(1)));
    assert_eq!(f.resume_from_yield(Val::Int(2)).unwrap(), Yield(Val::Int(3)));
    assert_eq!(f.resume_from_yield(Val::Int(3)).unwrap(), Yield(Val::Int(6)));
}

#[test]
fn fiber_conn_recv_peval_sim() {
    // program representing client REPL loop
    let prog = r#"
        (loop (send_conn (peval (recv_conn))))
    "#;

    let mut f = from_expr(prog).unwrap();
    f.bind(NativeFn::host("recv_conn"));
    f.bind(NativeFn::host("send_conn"));

    assert_eq!(f.resume().unwrap(), Yield(Val::Extern(Ext::RecvConn)));

    assert_eq!(
        f.resume_from_yield(as_val(parse("(def x (+ 1 2))").unwrap())).unwrap(),
        Yield(Val::Extern(Ext::SendConn(vec![Val::Int(3)]))),
        "Should receive send_conn signal w/ eval-ed expr"
    );
    assert_eq!(
        f.resume_from_yield(Val::Nil).unwrap(),
        Yield(Val::Extern(Ext::RecvConn))
    );

    assert_eq!(
        f.resume_from_yield(as_val(parse("x").unwrap())).unwrap(),
        Yield(Val::Extern(Ext::SendConn(vec![Val::Int(3)]))),
    );
    assert_eq!(
        f.resume_from_yield(Val::Nil).unwrap(),
        Yield(Val::Extern(Ext::RecvConn))
    );

    assert_eq!(
        f.resume_from_yield(Val::symbol("jibberish")).unwrap(),
        Yield(Val::Extern(Ext::SendConn(vec![Val::Error(
            Error::UndefinedSymbol(SymbolId::from("jibberish"))
        )]))),
        "Error should return error as a value via pcall"
    );
    assert_eq!(
        f.resume_from_yield(Val::Nil).unwrap(),
        Yield(Val::Extern(Ext::RecvConn))
    );

    assert_eq!(
        f.resume_from_yield(as_val(parse("(set x (+ x x))").unwrap())).unwrap(),
        Yield(Val::Extern(Ext::SendConn(vec![Val::Int(6)]))),
        "Environment should be preserved after error"
    );
}

#[test]
fn get_set_locals() {
    let prog = r#"
        (begin
            (inc_local (+ 9 (get_local)))
            (inc_local 1)
            (inc_local 2)
            (get_local))"#;
    let mut f: F = Fiber::from_expr(prog, Locals { val: 15 }, Host).unwrap();
    f.bind(NativeFn::host("get_local"));
    f.bind(NativeFn::host("inc_local"));

    assert_eq!(f.resume().unwrap(), FiberState::Done(Val::Int(42)));
}
