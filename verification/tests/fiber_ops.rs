//! Instruction-level tests of the fiber machine.
use lyric::{Error, Fiber, FiberState, Inst, Lambda, NoNatives, Status, SymbolId, Val};

type F = Fiber<(), (), NoNatives>;

fn fiber(code: Vec<Inst<()>>) -> F {
    Fiber::from_bytecode(code, (), NoNatives)
}

#[test]
fn fiber_load_const_return() {
    let mut f = fiber(vec![Inst::PushConst(Val::Int(5))]);
    assert_eq!(f.resume().unwrap(), FiberState::Done(Val::Int(5)));

    let mut f = fiber(vec![Inst::PushConst(Val::string("Hi"))]);
    assert_eq!(f.resume().unwrap(), FiberState::Done(Val::string("Hi")));
}

#[test]
fn def_symbol() {
    // fiber for (def x 5)
    let mut f = fiber(vec![Inst::PushConst(Val::Int(5)), Inst::DefSym(SymbolId::from("x"))]);
    assert_eq!(f.resume().unwrap(), FiberState::Done(Val::Int(5)));
    assert_eq!(
        f.get_global(&SymbolId::from("x")),
        Some(Val::Int(5)),
        "symbol should be defined in env"
    );
}

#[test]
fn get_symbol() {
    let mut f = fiber(vec![Inst::GetSym(SymbolId::from("x"))]);
    f.define_global(&SymbolId::from("x"), Val::string("hi"));
    assert_eq!(f.resume().unwrap(), FiberState::Done(Val::string("hi")));
}

#[test]
fn get_symbol_undefined() {
    let mut f = fiber(vec![Inst::GetSym(SymbolId::from("x"))]);
    assert!(matches!(f.resume(), Err(Error::UndefinedSymbol(_))));
}

#[test]
fn set_symbol() {
    let mut f = fiber(vec![
        Inst::PushConst(Val::string("updated")),
        Inst::SetSym(SymbolId::from("x")),
    ]);
    f.define_global(&SymbolId::from("x"), Val::string("original"));
    assert_eq!(f.resume().unwrap(), FiberState::Done(Val::string("updated")));
}

#[test]
fn set_symbol_undefined() {
    let mut f = fiber(vec![
        Inst::PushConst(Val::string("value")),
        Inst::SetSym(SymbolId::from("x")),
    ]);
    assert!(matches!(f.resume(), Err(Error::UndefinedSymbol(_))));
}

#[test]
fn make_func() {
    let mut f = fiber(vec![
        Inst::PushConst(Val::List(vec![Val::symbol("x")])),
        Inst::PushConst(Val::Bytecode(vec![Inst::GetSym(SymbolId::from("x"))])),
        Inst::MakeFunc,
    ]);
    match f.resume().unwrap() {
        FiberState::Done(Val::Lambda(l)) => {
            assert_eq!(l.params, vec![SymbolId::from("x")]);
            assert_eq!(l.code, vec![Inst::GetSym(SymbolId::from("x"))]);
        }
        other => panic!("A function object was created, got {:?}", other),
    }
}

#[test]
fn call_func() {
    let mut f = fiber(vec![
        Inst::PushConst(Val::Lambda(Lambda {
            params: vec![SymbolId::from("x")],
            code: vec![Inst::GetSym(SymbolId::from("x"))],
            env: 0,
        })),
        Inst::PushConst(Val::string("hello")),
        Inst::CallFunc(1),
    ]);
    assert_eq!(f.resume().unwrap(), FiberState::Done(Val::string("hello")));
}

#[test]
fn call_func_lambda() {
    // ((lambda (x) x) "hello")
    let mut f = fiber(vec![
        Inst::PushConst(Val::List(vec![Val::symbol("x")])),
        Inst::PushConst(Val::Bytecode(vec![Inst::GetSym(SymbolId::from("x"))])),
        Inst::MakeFunc,
        Inst::PushConst(Val::string("hello")),
        Inst::CallFunc(1),
    ]);
    assert_eq!(f.resume().unwrap(), FiberState::Done(Val::string("hello")));
}

#[test]
fn call_func_nested() {
    // Call outer lambda w/ arg
    // (((lambda () (lambda (x) x))) "hello")
    let mut f = fiber(vec![
        Inst::PushConst(Val::List(vec![])),
        Inst::PushConst(Val::Bytecode(vec![
            Inst::PushConst(Val::List(vec![Val::symbol("x")])),
            Inst::PushConst(Val::Bytecode(vec![Inst::GetSym(SymbolId::from("x"))])),
            Inst::MakeFunc,
        ])),
        Inst::MakeFunc,
        Inst::CallFunc(0),
        Inst::PushConst(Val::string("hello")),
        Inst::CallFunc(1),
    ]);
    assert_eq!(f.resume().unwrap(), FiberState::Done(Val::string("hello")));

    // Call inner lambda w/ arg
    // (((lambda (x) (lambda () x)) "hello"))
    let mut f = fiber(vec![
        Inst::PushConst(Val::List(vec![Val::symbol("x")])),
        Inst::PushConst(Val::Bytecode(vec![
            Inst::PushConst(Val::List(vec![])),
            Inst::PushConst(Val::Bytecode(vec![Inst::GetSym(SymbolId::from("x"))])),
            Inst::MakeFunc,
        ])),
        Inst::MakeFunc,
        Inst::PushConst(Val::string("hello")),
        Inst::CallFunc(1),
        Inst::CallFunc(0),
    ]);
    assert_eq!(f.resume().unwrap(), FiberState::Done(Val::string("hello")));
}

#[test]
fn pop_top() {
    let mut f = fiber(vec![
        Inst::PushConst(Val::string("this")),
        Inst::PushConst(Val::string("not this")),
        Inst::PopTop,
    ]);
    assert_eq!(f.resume().unwrap(), FiberState::Done(Val::string("this")));
}

#[test]
fn pop_top_empty() {
    let mut f = fiber(vec![Inst::PopTop]);
    assert!(matches!(f.resume(), Err(Error::UnexpectedStack(_))));
}

#[test]
fn jump_fwd() {
    let mut f = fiber(vec![
        Inst::PushConst(Val::string("this")),
        Inst::JumpFwd(5),
        Inst::PushConst(Val::string("notthis")),
        Inst::PushConst(Val::string("notthis")),
        Inst::PushConst(Val::string("notthis")),
        Inst::PushConst(Val::string("notthis")),
        Inst::PushConst(Val::string("notthis")),
    ]);
    assert_eq!(f.resume().unwrap(), FiberState::Done(Val::string("this")));
}

#[test]
fn fiber_fiber_load_const_return() {
    let mut f = fiber(vec![Inst::PushConst(Val::Int(5))]);
    assert_eq!(f.resume().unwrap(), FiberState::Done(Val::Int(5)));
    assert!(matches!(f.status, Status::Done(Ok(Val::Int(5)))));

    let mut f = fiber(vec![Inst::PushConst(Val::string("Hi"))]);
    assert_eq!(f.resume().unwrap(), FiberState::Done(Val::string("Hi")));
    assert!(matches!(f.status, Status::Done(Ok(Val::String(_)))));
}

#[test]
fn store_symbol() {
    // fiber for (def x 5)
    let mut f = fiber(vec![Inst::PushConst(Val::Int(5)), Inst::DefSym(SymbolId::from("x"))]);
    f.resume().expect("should start");
    assert_eq!(
        f.get_global(&SymbolId::from("x")),
        Some(Val::Int(5)),
        "symbol should be defined in env"
    );
    assert!(
        matches!(f.status, Status::Done(Ok(Val::Int(5)))),
        "should complete with value of stored symbol"
    );
}

#[test]
fn load_symbol() {
    let mut f = fiber(vec![Inst::GetSym(SymbolId::from("x"))]);
    f.define_global(&SymbolId::from("x"), Val::string("hi"));
    f.resume().unwrap();
    assert!(matches!(f.status, Status::Done(Ok(Val::String(_)))));
}

#[test]
fn load_symbol_undefined() {
    let mut f = fiber(vec![Inst::GetSym(SymbolId::from("x"))]);
    let r = f.resume();
    assert!(matches!(r, Err(Error::UndefinedSymbol(_))));
    assert!(matches!(f.status, Status::Done(Err(Error::UndefinedSymbol(_)))));
}

#[test]
fn fiber_make_func() {
    let mut f = fiber(vec![
        Inst::PushConst(Val::List(vec![Val::symbol("x")])),
        Inst::PushConst(Val::Bytecode(vec![Inst::GetSym(SymbolId::from("x"))])),
        Inst::MakeFunc,
    ]);
    match f.resume().unwrap() {
        FiberState::Done(Val::Lambda(l)) => {
            assert_eq!(l.params, vec![SymbolId::from("x")]);
            assert_eq!(l.code, vec![Inst::GetSym(SymbolId::from("x"))]);
        }
        other => panic!("A function object was created, got {:?}", other),
    }
}

#[test]
fn call_func_bare() {
    // ((lambda () "hello"))
    let mut f = fiber(vec![
        Inst::PushConst(Val::Lambda(Lambda {
            params: vec![],
            code: vec![Inst::PushConst(Val::string("hello"))],
            env: 0,
        })),
        Inst::CallFunc(0),
    ]);
    assert_eq!(f.resume().unwrap(), FiberState::Done(Val::string("hello")));
}

#[test]
fn call_func_direct() {
    // ((lambda (x) x) "hello")
    let mut f = fiber(vec![
        Inst::PushConst(Val::Lambda(Lambda {
            params: vec![SymbolId::from("x")],
            code: vec![Inst::GetSym(SymbolId::from("x"))],
            env: 0,
        })),
        Inst::PushConst(Val::string("hello")),
        Inst::CallFunc(1),
    ]);
    assert_eq!(f.resume().unwrap(), FiberState::Done(Val::string("hello")));
}
