//! Compilation of values to bytecode.
//!
//! A list whose head is one of the special form symbols (`quote`, `def`,
//! `set`, `begin`, `if`, `lambda`, `defn`, `loop`, `yield`) compiles by that
//! form's rule; any other list compiles as a function call; a symbol compiles
//! to a lookup; every other atom compiles to a constant push. Executing the
//! code of a compiled expression leaves exactly one result on the stack.
use vstd::prelude::*;

verus! {

use crate::error::{Error, ErrorV};
use crate::types::{
    Extern, Inst, InstV, SymbolId, Val, ValV, insts_view, inst_view, lemma_insts_view,
    lemma_vals_view, val_view, vals_view,
};

/// Whether the name is a special form: such names are recognized
/// syntactically at the head of a list and cannot be used as values.
pub open spec fn is_special_sym(s: Seq<char>) -> bool {
    ||| s == "quote"@
    ||| s == "def"@
    ||| s == "set"@
    ||| s == "begin"@
    ||| s == "if"@
    ||| s == "lambda"@
    ||| s == "defn"@
    ||| s == "loop"@
    ||| s == "yield"@
}

/// Whether the value is a literal list of symbols, as a lambda's parameter
/// list must be.
pub open spec fn is_param_list<E>(v: ValV<E>) -> bool {
    v is List && (forall|i: int| 0 <= i < v->List_0.len() ==> (#[trigger] v->List_0[i]) is Sym)
}

/// The bytecode an expression compiles to, or the error that rejects it.
pub open spec fn compile_expr<E>(v: ValV<E>) -> Result<Seq<InstV<E>>, ErrorV>
    decreases v, 1int,
{
    match v {
        ValV::Sym(s) => if is_special_sym(s) {
            Err(ErrorV::UnexpectedOperator(s))
        } else {
            Ok(seq![InstV::GetSym(s)])
        },
        ValV::List(l) => compile_list(l),
        _ => Ok(seq![InstV::PushConst(v)]),
    }
}

/// The bytecode a list expression compiles to.
pub open spec fn compile_list<E>(l: Seq<ValV<E>>) -> Result<Seq<InstV<E>>, ErrorV>
    decreases l, 0int,
{
    if l.len() == 0 {
        Err(ErrorV::EmptyExpression)
    } else if l[0] == ValV::Sym::<E>("quote"@) {
        if l.len() == 2 {
            Ok(seq![InstV::PushConst(l[1])])
        } else {
            Err(ErrorV::InvalidExpression("quote expects one argument"@))
        }
    } else if l[0] == ValV::Sym::<E>("def"@) {
        if l.len() == 3 && l[1] is Sym {
            match compile_expr(l[2]) {
                Ok(c) => Ok(c.push(InstV::DefSym(l[1]->Sym_0))),
                Err(e) => Err(e),
            }
        } else {
            Err(ErrorV::InvalidExpression("def expects a symbol and an expression"@))
        }
    } else if l[0] == ValV::Sym::<E>("set"@) {
        if l.len() == 3 && l[1] is Sym {
            match compile_expr(l[2]) {
                Ok(c) => Ok(c.push(InstV::SetSym(l[1]->Sym_0))),
                Err(e) => Err(e),
            }
        } else {
            Err(ErrorV::InvalidExpression("set expects a symbol and an expression"@))
        }
    } else if l[0] == ValV::Sym::<E>("begin"@) {
        compile_begin(l.skip(1))
    } else if l[0] == ValV::Sym::<E>("if"@) {
        if l.len() == 3 || l.len() == 4 {
            match compile_expr(l[1]) {
                Err(e) => Err(e),
                Ok(cc) => match compile_expr(l[2]) {
                    Err(e) => Err(e),
                    Ok(tc) => match (if l.len() == 4 {
                        compile_expr(l[3])
                    } else {
                        Ok(seq![InstV::PushConst(ValV::Nil)])
                    }) {
                        Err(e) => Err(e),
                        Ok(ec) => if ec.len() + 1 > usize::MAX || tc.len() > usize::MAX {
                            Err(ErrorV::InvalidExpression("expression too large"@))
                        } else {
                            Ok(
                                cc + seq![InstV::PopJumpFwdIfTrue((ec.len() + 1) as usize)] + ec
                                    + seq![InstV::JumpFwd(tc.len() as usize)] + tc,
                            )
                        },
                    },
                },
            }
        } else {
            Err(ErrorV::InvalidExpression("if expects a condition and one or two branches"@))
        }
    } else if l[0] == ValV::Sym::<E>("lambda"@) {
        if l.len() >= 2 && is_param_list(l[1]) {
            match compile_begin(l.skip(2)) {
                Err(e) => Err(e),
                Ok(inner) => Ok(
                    seq![
                        InstV::PushConst(l[1]),
                        InstV::PushConst(ValV::Code(inner)),
                        InstV::MakeFunc,
                    ],
                ),
            }
        } else {
            Err(ErrorV::InvalidExpression("lambda expects a parameter list"@))
        }
    } else if l[0] == ValV::Sym::<E>("defn"@) {
        if l.len() >= 3 && l[1] is Sym && is_param_list(l[2]) {
            match compile_begin(l.skip(3)) {
                Err(e) => Err(e),
                Ok(inner) => Ok(
                    seq![
                        InstV::PushConst(l[2]),
                        InstV::PushConst(ValV::Code(inner)),
                        InstV::MakeFunc,
                        InstV::DefSym(l[1]->Sym_0),
                    ],
                ),
            }
        } else {
            Err(ErrorV::InvalidExpression("defn expects a name, parameters and a body"@))
        }
    } else if l[0] == ValV::Sym::<E>("loop"@) {
        match compile_begin(l.skip(1)) {
            Err(e) => Err(e),
            Ok(body) => {
                let inner = body.push(InstV::PopTop);
                if inner.len() + 1 > usize::MAX {
                    Err(ErrorV::InvalidExpression("expression too large"@))
                } else {
                    Ok(inner.push(InstV::JumpBack((inner.len() + 1) as usize)))
                }
            },
        }
    } else if l[0] == ValV::Sym::<E>("yield"@) {
        if l.len() == 2 {
            match compile_expr(l[1]) {
                Ok(c) => Ok(c.push(InstV::Yield)),
                Err(e) => Err(e),
            }
        } else {
            Err(ErrorV::InvalidExpression("yield expects one expression"@))
        }
    } else {
        match compile_expr(l[0]) {
            Err(e) => Err(e),
            Ok(head) => match compile_args(l.skip(1)) {
                Err(e) => Err(e),
                Ok(args) => if l.len() - 1 > usize::MAX {
                    Err(ErrorV::InvalidExpression("expression too large"@))
                } else {
                    Ok(head + args + seq![InstV::CallFunc((l.len() - 1) as usize)])
                },
            },
        }
    }
}

/// The bytecode of a call's arguments, compiled left to right and
/// concatenated; the first rejected argument's error wins.
pub open spec fn compile_args<E>(s: Seq<ValV<E>>) -> Result<Seq<InstV<E>>, ErrorV>
    decreases s, 2int,
{
    if s.len() == 0 {
        Ok(Seq::empty())
    } else {
        match compile_expr(s[0]) {
            Err(e) => Err(e),
            Ok(c) => match compile_args(s.skip(1)) {
                Err(e) => Err(e),
                Ok(rest) => Ok(c + rest),
            },
        }
    }
}

/// The bytecode of an implicit `begin`: an empty body pushes `Nil`; otherwise
/// each expression after the first is preceded by a `PopTop` discarding its
/// predecessor's result.
pub open spec fn compile_begin<E>(s: Seq<ValV<E>>) -> Result<Seq<InstV<E>>, ErrorV>
    decreases s, 2int,
{
    if s.len() == 0 {
        Ok(seq![InstV::PushConst(ValV::Nil)])
    } else {
        match compile_expr(s[0]) {
            Err(e) => Err(e),
            Ok(c) => match compile_begin_rest(s.skip(1)) {
                Err(e) => Err(e),
                Ok(rest) => Ok(c + rest),
            },
        }
    }
}

/// The bytecode of the expressions of a `begin` after the first.
pub open spec fn compile_begin_rest<E>(s: Seq<ValV<E>>) -> Result<Seq<InstV<E>>, ErrorV>
    decreases s, 2int,
{
    if s.len() == 0 {
        Ok(Seq::empty())
    } else {
        match compile_expr(s[0]) {
            Err(e) => Err(e),
            Ok(c) => match compile_begin_rest(s.skip(1)) {
                Err(e) => Err(e),
                Ok(rest) => Ok(seq![InstV::PopTop] + c + rest),
            },
        }
    }
}

/// Whether the symbol's text equals the literal.
fn sym_is(s: &SymbolId, lit: &str) -> (r: bool)
    ensures
        r == (s@ == lit@),
{
    let owned: String = lit.to_owned();
    s.0 == owned
}

/// Whether the value is a literal list of symbols.
fn check_params<E: Extern>(v: &Val<E>) -> (r: bool)
    ensures
        r == is_param_list(v@),
{
    broadcast use lemma_vals_view;

    match v {
        Val::List(l) => {
            let mut j: usize = 0;
            while j < l.len()
                invariant
                    *v is List,
                    v->List_0 == *l,
                    j <= l@.len(),
                    vals_view(l@).len() == l@.len(),
                    forall|k: int| 0 <= k < j ==> (#[trigger] vals_view(l@)[k]) is Sym,
                decreases l@.len() - j,
            {
                proof {
                    broadcast use lemma_vals_view;

                    assert(vals_view(l@)[j as int] == val_view(l@[j as int]));
                }
                match &l[j] {
                    Val::Symbol(_) => {
                        j += 1;
                    },
                    _ => {
                        proof {
                            assert(!(vals_view(l@)[j as int] is Sym));
                        }
                        return false;
                    },
                }
            }
            true
        },
        _ => false,
    }
}

/// Compiles a value to bytecode.
///
/// The result is exactly what [`compile_expr`] gives on the value's model:
/// the same instructions on acceptance, the same error on rejection.
pub fn compile<E: Extern>(v: &Val<E>) -> (r: Result<Vec<Inst<E>>, Error>)
    ensures
        match compile_expr(v@) {
            Ok(code) => r is Ok && insts_view(r->Ok_0@) == code,
            Err(e) => r is Err && r->Err_0@ == e,
        },
    decreases *v,
{
    broadcast use lemma_vals_view;
    broadcast use lemma_insts_view;

    match v {
        Val::Symbol(s) => {
            if sym_is(s, "quote") || sym_is(s, "def") || sym_is(s, "set") || sym_is(s, "begin")
                || sym_is(s, "if") || sym_is(s, "lambda") || sym_is(s, "defn") || sym_is(
                s,
                "loop",
            ) || sym_is(s, "yield") {
                Err(Error::UnexpectedOperator(s.0.clone()))
            } else {
                let mut out: Vec<Inst<E>> = Vec::new();
                out.push(Inst::GetSym(s.duplicate()));
                proof {
                    assert(insts_view(out@) =~= seq![InstV::GetSym::<E>(s@)]);
                }
                Ok(out)
            }
        },
        Val::List(l) => {
            let ghost lv = vals_view(l@);
            if l.len() == 0 {
                return Err(Error::EmptyExpression);
            }
            proof {
                assert(decreases_to!(*v => v->List_0));
                assert(decreases_to!(*l => l@));
            }
            let head_sym: Option<&SymbolId> = match &l[0] {
                Val::Symbol(s) => Some(s),
                _ => None,
            };
            match head_sym {
                Some(s) if sym_is(s, "quote") => {
                    proof {
                        assert(lv[0] == ValV::Sym::<E>("quote"@));
                    }
                    if l.len() == 2 {
                        let mut out: Vec<Inst<E>> = Vec::new();
                        out.push(Inst::PushConst(l[1].duplicate()));
                        proof {
                            assert(insts_view(out@) =~= seq![InstV::PushConst(lv[1])]);
                        }
                        Ok(out)
                    } else {
                        Err(Error::InvalidExpression("quote expects one argument".to_owned()))
                    }
                },
                Some(s) if sym_is(s, "def") || sym_is(s, "set") => {
                    let is_def = sym_is(s, "def");
                    if l.len() == 3 {
                        let name: Option<&SymbolId> = match &l[1] {
                            Val::Symbol(n) => Some(n),
                            _ => None,
                        };
                        match name {
                            Some(n) => {
                                proof {
                                    assert(decreases_to!(l@ => l@[2]));
                                }
                                match compile(&l[2]) {
                                    Err(e) => Err(e),
                                    Ok(mut code) => {
                                        if is_def {
                                            code.push(Inst::DefSym(n.duplicate()));
                                        } else {
                                            code.push(Inst::SetSym(n.duplicate()));
                                        }
                                        proof {
                                            let cs = compile_expr(lv[2])->Ok_0;
                                            if is_def {
                                                assert(insts_view(code@) =~= cs.push(
                                                    InstV::DefSym(lv[1]->Sym_0),
                                                ));
                                            } else {
                                                assert(insts_view(code@) =~= cs.push(
                                                    InstV::SetSym(lv[1]->Sym_0),
                                                ));
                                            }
                                        }
                                        Ok(code)
                                    },
                                }
                            },
                            None => {
                                if is_def {
                                    Err(
                                        Error::InvalidExpression(
                                            "def expects a symbol and an expression".to_owned(),
                                        ),
                                    )
                                } else {
                                    Err(
                                        Error::InvalidExpression(
                                            "set expects a symbol and an expression".to_owned(),
                                        ),
                                    )
                                }
                            },
                        }
                    } else {
                        if is_def {
                            Err(
                                Error::InvalidExpression(
                                    "def expects a symbol and an expression".to_owned(),
                                ),
                            )
                        } else {
                            Err(
                                Error::InvalidExpression(
                                    "set expects a symbol and an expression".to_owned(),
                                ),
                            )
                        }
                    }
                },
                Some(s) if sym_is(s, "begin") => {
                    proof {
                        assert(decreases_to!(*v => *l));
                    }
                    compile_begin_from(l, 1)
                },
                Some(s) if sym_is(s, "if") => {
                    if l.len() == 3 || l.len() == 4 {
                        proof {
                            assert(decreases_to!(l@ => l@[1]));
                            assert(decreases_to!(l@ => l@[2]));
                        }
                        let cc = match compile(&l[1]) {
                            Err(e) => return Err(e),
                            Ok(c) => c,
                        };
                        let tc = match compile(&l[2]) {
                            Err(e) => return Err(e),
                            Ok(c) => c,
                        };
                        let mut ec = if l.len() == 4 {
                            proof {
                                assert(decreases_to!(l@ => l@[3]));
                            }
                            match compile(&l[3]) {
                                Err(e) => return Err(e),
                                Ok(c) => c,
                            }
                        } else {
                            let mut x: Vec<Inst<E>> = Vec::new();
                            x.push(Inst::PushConst(Val::Nil));
                            proof {
                                assert(insts_view(x@) =~= seq![InstV::PushConst(ValV::Nil::<E>)]);
                            }
                            x
                        };
                        if ec.len() == usize::MAX {
                            return Err(
                                Error::InvalidExpression("expression too large".to_owned()),
                            );
                        }
                        let ghost ccs = insts_view(cc@);
                        let ghost tcs = insts_view(tc@);
                        let ghost ecs = insts_view(ec@);
                        let k1 = ec.len() + 1;
                        let k2 = tc.len();
                        let mut out = cc;
                        let mut tc = tc;
                        out.push(Inst::PopJumpFwdIfTrue(k1));
                        out.append(&mut ec);
                        out.push(Inst::JumpFwd(k2));
                        out.append(&mut tc);
                        proof {
                            assert(insts_view(out@) =~= ccs + seq![
                                InstV::PopJumpFwdIfTrue::<E>(k1),
                            ] + ecs + seq![InstV::JumpFwd::<E>(k2)] + tcs);
                        }
                        Ok(out)
                    } else {
                        Err(
                            Error::InvalidExpression(
                                "if expects a condition and one or two branches".to_owned(),
                            ),
                        )
                    }
                },
                Some(s) if sym_is(s, "lambda") => {
                    if l.len() >= 2 && check_params(&l[1]) {
                        proof {
                            assert(decreases_to!(*v => *l));
                        }
                        match compile_begin_from(l, 2) {
                            Err(e) => Err(e),
                            Ok(inner) => {
                                let mut out: Vec<Inst<E>> = Vec::new();
                                out.push(Inst::PushConst(l[1].duplicate()));
                                out.push(Inst::PushConst(Val::Bytecode(inner)));
                                out.push(Inst::MakeFunc);
                                proof {
                                    let inners = compile_begin(lv.skip(2))->Ok_0;
                                    assert(insts_view(out@) =~= seq![
                                        InstV::PushConst(lv[1]),
                                        InstV::PushConst(ValV::Code(inners)),
                                        InstV::MakeFunc,
                                    ]);
                                }
                                Ok(out)
                            },
                        }
                    } else {
                        Err(Error::InvalidExpression("lambda expects a parameter list".to_owned()))
                    }
                },
                Some(s) if sym_is(s, "defn") => {
                    let name: Option<&SymbolId> = if l.len() >= 3 {
                        match &l[1] {
                            Val::Symbol(n) => Some(n),
                            _ => None,
                        }
                    } else {
                        None
                    };
                    match name {
                        Some(n) if check_params(&l[2]) => {
                            proof {
                                assert(decreases_to!(*v => *l));
                            }
                            match compile_begin_from(l, 3) {
                                Err(e) => Err(e),
                                Ok(inner) => {
                                    let mut out: Vec<Inst<E>> = Vec::new();
                                    out.push(Inst::PushConst(l[2].duplicate()));
                                    out.push(Inst::PushConst(Val::Bytecode(inner)));
                                    out.push(Inst::MakeFunc);
                                    out.push(Inst::DefSym(n.duplicate()));
                                    proof {
                                        let inners = compile_begin(lv.skip(3))->Ok_0;
                                        assert(insts_view(out@) =~= seq![
                                            InstV::PushConst(lv[2]),
                                            InstV::PushConst(ValV::Code(inners)),
                                            InstV::MakeFunc,
                                            InstV::DefSym(lv[1]->Sym_0),
                                        ]);
                                    }
                                    Ok(out)
                                },
                            }
                        },
                        _ => Err(
                            Error::InvalidExpression(
                                "defn expects a name, parameters and a body".to_owned(),
                            ),
                        ),
                    }
                },
                Some(s) if sym_is(s, "loop") => {
                    proof {
                        assert(decreases_to!(*v => *l));
                    }
                    match compile_begin_from(l, 1) {
                        Err(e) => Err(e),
                        Ok(mut body) => {
                            body.push(Inst::PopTop);
                            if body.len() == usize::MAX {
                                return Err(
                                    Error::InvalidExpression("expression too large".to_owned()),
                                );
                            }
                            let k = body.len() + 1;
                            body.push(Inst::JumpBack(k));
                            proof {
                                let bs = compile_begin(lv.skip(1))->Ok_0;
                                let inner = bs.push(InstV::PopTop);
                                assert(insts_view(body@) =~= inner.push(
                                    InstV::JumpBack::<E>(k),
                                ));
                            }
                            Ok(body)
                        },
                    }
                },
                Some(s) if sym_is(s, "yield") => {
                    if l.len() == 2 {
                        proof {
                            assert(decreases_to!(l@ => l@[1]));
                        }
                        match compile(&l[1]) {
                            Err(e) => Err(e),
                            Ok(mut code) => {
                                code.push(Inst::Yield);
                                proof {
                                    let cs = compile_expr(lv[1])->Ok_0;
                                    assert(insts_view(code@) =~= cs.push(InstV::Yield));
                                }
                                Ok(code)
                            },
                        }
                    } else {
                        Err(Error::InvalidExpression("yield expects one expression".to_owned()))
                    }
                },
                _ => {
                    proof {
                        assert(decreases_to!(l@ => l@[0]));
                        assert(decreases_to!(*v => *l));
                    }
                    let head = match compile(&l[0]) {
                        Err(e) => return Err(e),
                        Ok(c) => c,
                    };
                    match compile_args_from(l, 1) {
                        Err(e) => Err(e),
                        Ok(mut args) => {
                            let ghost hs = insts_view(head@);
                            let ghost ars = insts_view(args@);
                            let n = l.len() - 1;
                            let mut out = head;
                            out.append(&mut args);
                            out.push(Inst::CallFunc(n));
                            proof {
                                assert(insts_view(out@) =~= hs + ars + seq![
                                    InstV::CallFunc::<E>(n),
                                ]);
                            }
                            Ok(out)
                        },
                    }
                },
            }
        },
        _ => {
            let mut out: Vec<Inst<E>> = Vec::new();
            out.push(Inst::PushConst(v.duplicate()));
            proof {
                assert(insts_view(out@) =~= seq![InstV::PushConst(v@)]);
            }
            Ok(out)
        },
    }
}

/// Compiles the elements of `l` from `start` on as a call's arguments.
fn compile_args_from<E: Extern>(l: &Vec<Val<E>>, start: usize) -> (r: Result<Vec<Inst<E>>, Error>)
    requires
        start <= l@.len(),
    ensures
        match compile_args(vals_view(l@).skip(start as int)) {
            Ok(code) => r is Ok && insts_view(r->Ok_0@) == code,
            Err(e) => r is Err && r->Err_0@ == e,
        },
    decreases *l,
{
    broadcast use lemma_vals_view;
    broadcast use lemma_insts_view;

    let ghost lv = vals_view(l@);
    let mut out: Vec<Inst<E>> = Vec::new();
    let mut j = start;
    proof {
        assert(insts_view(out@) =~= Seq::<InstV<E>>::empty());
    }
    while j < l.len()
        invariant
            start <= j <= l@.len(),
            lv == vals_view(l@),
            lv.len() == l@.len(),
            match compile_args(lv.skip(j as int)) {
                Ok(rest) => compile_args(lv.skip(start as int)) == Ok::<Seq<InstV<E>>, ErrorV>(
                    insts_view(out@) + rest,
                ),
                Err(e) => compile_args(lv.skip(start as int)) == Err::<Seq<InstV<E>>, ErrorV>(e),
            },
        decreases l@.len() - j,
    {
        proof {
            broadcast use lemma_vals_view;
            broadcast use lemma_insts_view;

            assert(decreases_to!(*l => l@));
            assert(decreases_to!(l@ => l@[j as int]));
            assert(lv.skip(j as int)[0] == lv[j as int]);
            assert(lv.skip(j as int).skip(1) =~= lv.skip(j as int + 1));
        }
        match compile(&l[j]) {
            Err(e) => {
                return Err(e);
            },
            Ok(mut c) => {
                let ghost out0 = insts_view(out@);
                let ghost cs = insts_view(c@);
                out.append(&mut c);
                proof {
                    assert(insts_view(out@) =~= out0 + cs);
                    if compile_args(lv.skip(j as int + 1)) is Ok {
                        let rest = compile_args(lv.skip(j as int + 1))->Ok_0;
                        assert(out0 + (cs + rest) =~= (out0 + cs) + rest);
                    }
                }
            },
        }
        j += 1;
    }
    proof {
        assert(lv.skip(j as int).len() == 0);
        assert(compile_args(lv.skip(j as int)) == Ok::<Seq<InstV<E>>, ErrorV>(Seq::empty()));
        assert(insts_view(out@) + Seq::<InstV<E>>::empty() =~= insts_view(out@));
    }
    Ok(out)
}

/// Compiles the elements of `l` from `start` on as an implicit `begin`.
fn compile_begin_from<E: Extern>(l: &Vec<Val<E>>, start: usize) -> (r: Result<Vec<Inst<E>>, Error>)
    requires
        start <= l@.len(),
    ensures
        match compile_begin(vals_view(l@).skip(start as int)) {
            Ok(code) => r is Ok && insts_view(r->Ok_0@) == code,
            Err(e) => r is Err && r->Err_0@ == e,
        },
    decreases *l,
{
    broadcast use lemma_vals_view;
    broadcast use lemma_insts_view;

    let ghost lv = vals_view(l@);
    if start == l.len() {
        let mut out: Vec<Inst<E>> = Vec::new();
        out.push(Inst::PushConst(Val::Nil));
        proof {
            assert(lv.skip(start as int).len() == 0);
            assert(insts_view(out@) =~= seq![InstV::PushConst(ValV::Nil::<E>)]);
        }
        return Ok(out);
    }
    proof {
        assert(decreases_to!(*l => l@));
        assert(decreases_to!(l@ => l@[start as int]));
        assert(lv.skip(start as int)[0] == lv[start as int]);
        assert(lv.skip(start as int).skip(1) =~= lv.skip(start as int + 1));
    }
    let mut out = match compile(&l[start]) {
        Err(e) => {
            return Err(e);
        },
        Ok(c) => c,
    };
    let mut j = start + 1;
    while j < l.len()
        invariant
            start < j <= l@.len(),
            lv == vals_view(l@),
            lv.len() == l@.len(),
            match compile_begin_rest(lv.skip(j as int)) {
                Ok(rest) => compile_begin(lv.skip(start as int)) == Ok::<Seq<InstV<E>>, ErrorV>(
                    insts_view(out@) + rest,
                ),
                Err(e) => compile_begin(lv.skip(start as int)) == Err::<Seq<InstV<E>>, ErrorV>(e),
            },
        decreases l@.len() - j,
    {
        proof {
            broadcast use lemma_vals_view;
            broadcast use lemma_insts_view;

            assert(decreases_to!(*l => l@));
            assert(decreases_to!(l@ => l@[j as int]));
            assert(lv.skip(j as int)[0] == lv[j as int]);
            assert(lv.skip(j as int).skip(1) =~= lv.skip(j as int + 1));
        }
        match compile(&l[j]) {
            Err(e) => {
                return Err(e);
            },
            Ok(mut c) => {
                let ghost out0 = insts_view(out@);
                let ghost cs = insts_view(c@);
                out.push(Inst::PopTop);
                out.append(&mut c);
                proof {
                    assert(insts_view(out@) =~= out0 + (seq![InstV::PopTop::<E>] + cs));
                    if compile_begin_rest(lv.skip(j as int + 1)) is Ok {
                        let rest = compile_begin_rest(lv.skip(j as int + 1))->Ok_0;
                        assert(out0 + ((seq![InstV::PopTop::<E>] + cs) + rest) =~= (out0 + (
                        seq![InstV::PopTop::<E>] + cs)) + rest);
                    }
                }
            },
        }
        j += 1;
    }
    proof {
        assert(lv.skip(j as int).len() == 0);
        assert(compile_begin_rest(lv.skip(j as int)) == Ok::<Seq<InstV<E>>, ErrorV>(Seq::empty()));
        assert(insts_view(out@) + Seq::<InstV<E>>::empty() =~= insts_view(out@));
    }
    Ok(out)
}

} // verus!
