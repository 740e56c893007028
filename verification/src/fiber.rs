//! A fiber of execution that can be cooperatively scheduled via yielding.
use vstd::prelude::*;

verus! {

use crate::builtin::{peval_fn, plus_fn, plus_spec};
use crate::compile::{compile, compile_expr};
use crate::env::{
    BindingV, Env, FrameV, env_assign, env_define, env_lookup, env_wf, find_name, frame_define,
    resolve,
};
use crate::error::{Error, ErrorV};
use crate::parse::{parse, parse_text};
use crate::types::{
    Extern, Inst, InstV, Lambda, LambdaV, NativeFn, NativeFnV, NativeFnVal, NativeKind, SymbolId,
    Val, ValV,
    insts_view, lemma_insts_view, lemma_vals_view, syms_view, val_of_form, val_view, vals_view,
};

/// The host's side of native dispatch.
///
/// When the machine calls a native function of kind `Host`, it hands the
/// host the bound symbol, the arguments in source order, and mutable access
/// to the fiber's locals; the host answers with a return value, a suspension,
/// or an error. The machine promises nothing about what the host computes,
/// and states what holds of every outcome. A host cannot reach the fiber
/// itself, so it cannot resume the fiber it is called from.
pub trait NativeHost<E, L> {
    /// Carries out the native bound to `symbol` on `args`.
    fn call(&self, locals: &mut L, symbol: &SymbolId, args: Vec<Val<E>>) -> Result<
        NativeFnVal<E>,
        Error,
    >;
}

/// A host that supplies no native functions: calling one fails.
pub struct NoNatives;

impl<E, L> NativeHost<E, L> for NoNatives {
    fn call(&self, _locals: &mut L, _symbol: &SymbolId, _args: Vec<Val<E>>) -> Result<
        NativeFnVal<E>,
        Error,
    > {
        Err(Error::InvalidOperation)
    }
}

/// A single call frame of a fiber.
#[derive(Debug, PartialEq)]
pub struct CallFrame<E> {
    /// Index of the next instruction to execute.
    pub ip: usize,
    /// The code this frame executes.
    pub code: Vec<Inst<E>>,
    /// Index of the frame's environment in the fiber's arena.
    pub env: usize,
    /// Whether an error unwinds to this frame and becomes a value.
    pub protected: bool,
    /// For a protected frame, the stack height at its creation.
    pub base: usize,
}

/// The mathematical model of a [`CallFrame`].
#[verifier::ext_equal]
pub struct CallFrameV<E> {
    pub ip: int,
    pub code: Seq<InstV<E>>,
    pub env: int,
    pub protected: bool,
    pub base: int,
}

impl<E> View for CallFrame<E> {
    type V = CallFrameV<E>;

    open spec fn view(&self) -> CallFrameV<E> {
        CallFrameV {
            ip: self.ip as int,
            code: insts_view(self.code@),
            env: self.env as int,
            protected: self.protected,
            base: self.base as int,
        }
    }
}

impl<E> CallFrame<E> {
    /// A frame that executes the given bytecode from the start in the given
    /// environment.
    pub fn from_bytecode(env: usize, code: Vec<Inst<E>>) -> (r: Self)
        ensures
            r@ == (CallFrameV {
                ip: 0,
                code: insts_view(code@),
                env: env as int,
                protected: false,
                base: 0,
            }),
    {
        CallFrame { ip: 0, code, env, protected: false, base: 0 }
    }

    /// Whether the frame has executed its last instruction.
    pub fn is_done(&self) -> (r: bool)
        ensures
            r == (self@.ip == self@.code.len()),
    {
        proof {
            lemma_insts_view(self.code@);
        }
        self.ip == self.code.len()
    }
}

/// Where a fiber stands in its lifecycle.
#[derive(Debug, PartialEq)]
pub enum Status<E> {
    /// Created and never resumed.
    New,
    /// Executing right now.
    Running,
    /// Suspended at a yield point, waiting for a value from the host.
    Yielded,
    /// Finished, with its result; this state is terminal.
    Done(Result<Val<E>, Error>),
}

/// The mathematical model of a [`Status`].
pub enum StatusV<E> {
    New,
    Running,
    Yielded,
    Done(Result<ValV<E>, ErrorV>),
}

impl<E> View for Status<E> {
    type V = StatusV<E>;

    open spec fn view(&self) -> StatusV<E> {
        match self {
            Status::New => StatusV::New,
            Status::Running => StatusV::Running,
            Status::Yielded => StatusV::Yielded,
            Status::Done(Ok(v)) => StatusV::Done(Ok(val_view(*v))),
            Status::Done(Err(e)) => StatusV::Done(Err(e@)),
        }
    }
}

/// What a resumption hands back to the host.
#[derive(Debug, PartialEq)]
pub enum FiberState<E> {
    /// The fiber finished with this value.
    Done(Val<E>),
    /// The fiber suspended, yielding this value.
    Yield(Val<E>),
}

/// The mathematical model of a [`FiberState`].
pub enum FiberStateV<E> {
    Done(ValV<E>),
    Yield(ValV<E>),
}

impl<E> View for FiberState<E> {
    type V = FiberStateV<E>;

    open spec fn view(&self) -> FiberStateV<E> {
        match self {
            FiberState::Done(v) => FiberStateV::Done(val_view(*v)),
            FiberState::Yield(v) => FiberStateV::Yield(val_view(*v)),
        }
    }
}

/// What one dispatched instruction asks the execution loop to do next.
enum Flow<E> {
    /// Keep executing.
    Go,
    /// Suspend the fiber, yielding the value.
    Suspend(Val<E>),
    /// Raise an error: unwind to a protected frame or finish the fiber.
    Fail(Error),
}

/// The bindings of a fresh call frame after defining the first `k`
/// parameters to the corresponding arguments, in order.
pub open spec fn bind_params<E>(params: Seq<Seq<char>>, args: Seq<ValV<E>>, k: int) -> Seq<
    BindingV<E>,
>
    decreases k,
{
    if k <= 0 {
        Seq::empty()
    } else {
        frame_define(bind_params(params, args, k - 1), params[k - 1], args[k - 1])
    }
}


/// The fiber model with another operand stack.
pub open spec fn with_stack<E>(f: FiberV<E>, st: Seq<ValV<E>>) -> FiberV<E> {
    FiberV { cframes: f.cframes, stack: st, envs: f.envs, global: f.global, status: f.status }
}

/// The fiber model with other call frames.
pub open spec fn with_frames<E>(f: FiberV<E>, fs: Seq<CallFrameV<E>>) -> FiberV<E> {
    FiberV { cframes: fs, stack: f.stack, envs: f.envs, global: f.global, status: f.status }
}

/// The fiber model with the top frame's instruction pointer moved.
pub open spec fn set_top_ip<E>(f: FiberV<E>, ip: int) -> FiberV<E> {
    with_frames(
        f,
        f.cframes.update(
            f.cframes.len() - 1,
            CallFrameV {
                ip,
                code: f.cframes.last().code,
                env: f.cframes.last().env,
                protected: f.cframes.last().protected,
                base: f.cframes.last().base,
            },
        ),
    )
}

/// Frames left after the implicit returns: completed frames are popped,
/// except the root.
pub open spec fn pop_done<E>(fs: Seq<CallFrameV<E>>) -> Seq<CallFrameV<E>>
    decreases fs.len(),
{
    if fs.len() > 1 && fs.last().ip == fs.last().code.len() {
        pop_done(fs.drop_last())
    } else {
        fs
    }
}

/// The parameter names of a literal parameter list, or `None` when a member
/// is not a symbol.
pub open spec fn params_of<E>(l: Seq<ValV<E>>) -> Option<Seq<Seq<char>>>
    decreases l.len(),
{
    if l.len() == 0 {
        Some(Seq::empty())
    } else {
        match params_of(l.drop_last()) {
            Some(ps) => if l.last() is Sym {
                Some(ps.push(l.last()->Sym_0))
            } else {
                None
            },
            None => None,
        }
    }
}

/// `params_of` succeeds exactly when every member is a symbol, and then
/// names them in order.
pub proof fn lemma_params_of<E>(l: Seq<ValV<E>>)
    ensures
        params_of(l) is Some <==> (forall|i: int| 0 <= i < l.len() ==> (#[trigger] l[i]) is Sym),
        params_of(l) is Some ==> params_of(l)->Some_0.len() == l.len(),
        params_of(l) is Some ==> forall|i: int|
            0 <= i < l.len() ==> #[trigger] params_of(l)->Some_0[i] == l[i]->Sym_0,
    decreases l.len(),
{
    if l.len() > 0 {
        lemma_params_of(l.drop_last());
        assert(forall|i: int| 0 <= i < l.len() - 1 ==> l.drop_last()[i] == l[i]);
        if forall|i: int| 0 <= i < l.len() ==> (#[trigger] l[i]) is Sym {
            assert(l.last() is Sym);
        }
    }
}

/// What one dispatched instruction does to the fiber model.
pub enum StepV<E> {
    /// Execution continues in the new state.
    Next(FiberV<E>),
    /// The fiber finished with the result; the state carries it in `status`.
    Fin(FiberV<E>, Result<ValV<E>, ErrorV>),
    /// The fiber suspended, yielding the value.
    Sus(FiberV<E>, ValV<E>),
    /// The machine is about to hand the named host native the arguments, in
    /// source order; beyond this point the host's answer decides.
    Call(FiberV<E>, Seq<char>, Seq<ValV<E>>),
}

/// A raised error, handled: unwinding reaches a protected frame and the
/// error becomes a value, or the fiber finishes with it.
pub open spec fn step_fail<E>(f: FiberV<E>, e: ErrorV) -> StepV<E> {
    match unwind_spec(f.cframes, f.stack) {
        Some((fs, st)) => StepV::Next(
            FiberV {
                cframes: fs,
                stack: st.push(ValV::ErrVal(e)),
                envs: f.envs,
                global: f.global,
                status: f.status,
            },
        ),
        None => StepV::Fin(
            FiberV {
                cframes: f.cframes.take(1),
                stack: f.stack,
                envs: f.envs,
                global: f.global,
                status: StatusV::Done(Err(e)),
            },
            Err(e),
        ),
    }
}

/// What `CallFunc(n)` does: pop the arguments and the callee, then add,
/// evaluate protected, call the host, or enter the lambda.
pub open spec fn step_call<E>(f: FiberV<E>, n: usize) -> StepV<E> {
    if f.stack.len() < n + 1 {
        step_fail(f, ErrorV::UnexpectedStack("missing arguments for call"@))
    } else {
        let l0 = f.stack.len() as int;
        let callee = f.stack[l0 - n - 1];
        let args = f.stack.subrange(l0 - n, l0);
        let rest = f.stack.take(l0 - n - 1);
        let fr = with_stack(f, rest);
        match callee {
            ValV::Native(nf) => match nf.kind {
                NativeKind::Plus => match plus_spec(args) {
                    Ok(v) => StepV::Next(with_stack(f, rest.push(v))),
                    Err(e) => step_fail(fr, e),
                },
                NativeKind::Peval => if n != 1 {
                    step_fail(fr, ErrorV::InvalidExpression("peval expects one argument"@))
                } else {
                    match compile_expr(args[0]) {
                        Err(e) => step_fail(fr, e),
                        Ok(code) => StepV::Next(
                            with_frames(
                                fr,
                                f.cframes.push(
                                    CallFrameV {
                                        ip: 0,
                                        code,
                                        env: f.cframes.last().env,
                                        protected: true,
                                        base: rest.len() as int,
                                    },
                                ),
                            ),
                        ),
                    }
                },
                NativeKind::Host => StepV::Call(fr, nf.symbol, args),
            },
            ValV::Lambda(lm) => if lm.params.len() != n {
                step_fail(fr, ErrorV::InvalidArgumentsToFunctionCall)
            } else if !(0 <= lm.env < f.envs.len()) {
                step_fail(fr, ErrorV::UnexpectedStack("lambda environment out of range"@))
            } else {
                StepV::Next(
                    FiberV {
                        cframes: f.cframes.push(
                            CallFrameV {
                                ip: 0,
                                code: lm.code,
                                env: f.envs.len() as int,
                                protected: false,
                                base: 0,
                            },
                        ),
                        stack: rest,
                        envs: f.envs.push(
                            FrameV {
                                parent: Some(lm.env),
                                binds: bind_params(lm.params, args, n as int),
                            },
                        ),
                        global: f.global,
                        status: f.status,
                    },
                )
            },
            _ => step_fail(fr, ErrorV::InvalidOperation),
        }
    }
}

/// What one instruction does to the fiber model `f`, whose top frame's
/// instruction pointer already stands past the instruction.
pub open spec fn step_inst<E>(f: FiberV<E>, inst: InstV<E>) -> StepV<E> {
    let env = f.cframes.last().env;
    match inst {
        InstV::PushConst(c) => StepV::Next(with_stack(f, f.stack.push(c))),
        InstV::DefSym(s) => if f.stack.len() == 0 {
            step_fail(f, ErrorV::UnexpectedStack("expected stack to be nonempty"@))
        } else {
            StepV::Next(
                FiberV {
                    envs: env_define(f.envs, env, s, f.stack.last()),
                    cframes: f.cframes,
                    stack: f.stack,
                    global: f.global,
                    status: f.status,
                },
            )
        },
        InstV::SetSym(s) => if f.stack.len() == 0 {
            step_fail(f, ErrorV::UnexpectedStack("expected stack to be nonempty"@))
        } else {
            match resolve(f.envs, env, s) {
                Some(_) => StepV::Next(
                    FiberV {
                        envs: env_assign(f.envs, env, s, f.stack.last()),
                        cframes: f.cframes,
                        stack: f.stack,
                        global: f.global,
                        status: f.status,
                    },
                ),
                None => step_fail(f, ErrorV::UndefinedSymbol(s)),
            }
        },
        InstV::GetSym(s) => match env_lookup(f.envs, env, s) {
            Some(v) => StepV::Next(with_stack(f, f.stack.push(v))),
            None => step_fail(f, ErrorV::UndefinedSymbol(s)),
        },
        InstV::MakeFunc => if f.stack.len() == 0 {
            step_fail(f, ErrorV::UnexpectedStack("missing function bytecode"@))
        } else {
            let top = f.stack.last();
            let f1 = with_stack(f, f.stack.drop_last());
            if !(top is Code) {
                step_fail(f1, ErrorV::UnexpectedStack("missing function bytecode"@))
            } else if f1.stack.len() == 0 {
                step_fail(f1, ErrorV::UnexpectedStack("missing parameter list"@))
            } else {
                let snd = f1.stack.last();
                let f2 = with_stack(f1, f1.stack.drop_last());
                if !(snd is List) {
                    step_fail(f2, ErrorV::UnexpectedStack("missing parameter list"@))
                } else {
                    match params_of(snd->List_0) {
                        None => step_fail(
                            f2,
                            ErrorV::UnexpectedStack("unexpected parameter list"@),
                        ),
                        Some(ps) => StepV::Next(
                            with_stack(
                                f2,
                                f2.stack.push(
                                    ValV::Lambda(
                                        LambdaV { params: ps, code: top->Code_0, env },
                                    ),
                                ),
                            ),
                        ),
                    }
                }
            }
        },
        InstV::CallFunc(n) => step_call(f, n),
        InstV::PopTop => if f.stack.len() == 0 {
            step_fail(f, ErrorV::UnexpectedStack("attempting to pop empty stack"@))
        } else {
            StepV::Next(with_stack(f, f.stack.drop_last()))
        },
        InstV::JumpFwd(k) => if f.cframes.last().ip + k > usize::MAX {
            step_fail(f, ErrorV::NoMoreBytecode)
        } else {
            StepV::Next(set_top_ip(f, f.cframes.last().ip + k))
        },
        InstV::PopJumpFwdIfTrue(k) => if f.stack.len() == 0 {
            step_fail(f, ErrorV::UnexpectedStack("expected stack to be nonempty"@))
        } else {
            let v = f.stack.last();
            let f1 = with_stack(f, f.stack.drop_last());
            if truthy(v) {
                if f1.cframes.last().ip + k > usize::MAX {
                    step_fail(f1, ErrorV::NoMoreBytecode)
                } else {
                    StepV::Next(set_top_ip(f1, f1.cframes.last().ip + k))
                }
            } else {
                StepV::Next(f1)
            }
        },
        InstV::JumpBack(k) => if k > f.cframes.last().ip {
            step_fail(f, ErrorV::NoMoreBytecode)
        } else {
            StepV::Next(set_top_ip(f, f.cframes.last().ip - k))
        },
        InstV::Yield => if f.stack.len() == 0 {
            step_fail(f, ErrorV::UnexpectedStack("expected stack to be nonempty"@))
        } else {
            StepV::Sus(
                FiberV {
                    cframes: f.cframes,
                    stack: f.stack.drop_last(),
                    envs: f.envs,
                    global: f.global,
                    status: StatusV::Yielded,
                },
                f.stack.last(),
            )
        },
    }
}

/// One full turn of the execution loop on the fiber model: pop completed
/// frames, finish at an exhausted root, or fetch and dispatch the next
/// instruction.
pub open spec fn step<E>(f: FiberV<E>) -> StepV<E> {
    let fs = pop_done(f.cframes);
    let f1 = with_frames(f, fs);
    if fs.len() == 1 && fs[0].ip == fs[0].code.len() {
        if f1.stack.len() == 0 {
            let e = ErrorV::UnexpectedStack("stack should hold the result of a finished fiber"@);
            StepV::Fin(
                FiberV {
                    cframes: f1.cframes,
                    stack: f1.stack,
                    envs: f1.envs,
                    global: f1.global,
                    status: StatusV::Done(Err(e)),
                },
                Err(e),
            )
        } else {
            let v = f1.stack.last();
            StepV::Fin(
                FiberV {
                    cframes: f1.cframes,
                    stack: f1.stack.drop_last(),
                    envs: f1.envs,
                    global: f1.global,
                    status: StatusV::Done(Ok(v)),
                },
                Ok(v),
            )
        }
    } else if fs.last().ip >= fs.last().code.len() {
        step_fail(f1, ErrorV::NoMoreBytecode)
    } else {
        step_inst(set_top_ip(f1, fs.last().ip + 1), fs.last().code[fs.last().ip])
    }
}

/// The outcome of running the machine for at most `fuel` turns.
pub enum RunOut<E> {
    /// The fiber finished with the result, in this state.
    Done(FiberV<E>, Result<ValV<E>, ErrorV>),
    /// The fiber suspended with the value, in this state.
    Yield(FiberV<E>, ValV<E>),
    /// The machine reached its first host call: from here the host's answers
    /// decide what happens.
    Host(FiberV<E>, Seq<char>, Seq<ValV<E>>),
    /// The fuel ran out in this state.
    More(FiberV<E>),
}

/// Runs the machine for at most `fuel` turns, stopping at the first host
/// call.
pub open spec fn run_spec<E>(f: FiberV<E>, fuel: nat) -> RunOut<E>
    decreases fuel,
{
    if fuel == 0 {
        RunOut::More(f)
    } else {
        match step(f) {
            StepV::Next(f2) => run_spec(f2, (fuel - 1) as nat),
            StepV::Fin(f2, res) => RunOut::Done(f2, res),
            StepV::Sus(f2, v) => RunOut::Yield(f2, v),
            StepV::Call(f2, sym, args) => RunOut::Host(f2, sym, args),
        }
    }
}

/// What a resumption owes, given the machine's verdict on the pre-state:
/// whenever the machine finishes, suspends, or runs out of its budget before
/// any host call, the fiber returns exactly that and ends in exactly that
/// state; once the machine reaches a host call, the host's answers decide
/// the values and only the lifecycle is pinned.
pub open spec fn run_post<E>(
    pre: FiberV<E>,
    r: Result<FiberState<E>, Error>,
    post: FiberV<E>,
) -> bool {
    match run_spec(pre, u64::MAX as nat) {
        RunOut::Done(f2, res) => post == f2 && (match res {
            Ok(v) => r is Ok && r->Ok_0 is Done && val_view(r->Ok_0->Done_0) == v,
            Err(e) => r is Err && r->Err_0@ == e,
        }),
        RunOut::Yield(f2, v) => post == f2 && r is Ok && r->Ok_0 is Yield && val_view(
            r->Ok_0->Yield_0,
        ) == v,
        RunOut::Host(_, _, _) => match r {
            Ok(FiberState::Done(v)) => post.status == StatusV::Done(
                Ok::<ValV<E>, ErrorV>(val_view(v)),
            ),
            Ok(FiberState::Yield(_)) => post.status is Yielded,
            Err(e) => post.status == StatusV::Done(Err::<ValV<E>, ErrorV>(e@)),
        },
        RunOut::More(f2) => r is Err && r->Err_0@ == ErrorV::OutOfFuel && post == (FiberV {
            cframes: f2.cframes,
            stack: f2.stack,
            envs: f2.envs,
            global: f2.global,
            status: StatusV::Done(Err(ErrorV::OutOfFuel)),
        }),
    }
}


/// A demonstration that the execution contract pins results: on a running
/// fiber whose single frame holds the one instruction `PushConst(c)` and an
/// empty stack, the machine finishes with exactly `c`, so by [`run_post`] a
/// resumption must return `Done` carrying `c` and leave the fiber finished
/// with it.
pub proof fn lemma_push_const_runs<E>(pre: FiberV<E>, c: ValV<E>)
    requires
        pre.status is Running,
        pre.cframes.len() == 1,
        pre.cframes[0].ip == 0,
        pre.cframes[0].code == seq![InstV::PushConst(c)],
        pre.stack.len() == 0,
    ensures
        run_spec(pre, u64::MAX as nat) == RunOut::Done(
            FiberV {
                cframes: pre.cframes.update(
                    0,
                    CallFrameV {
                        ip: 1,
                        code: pre.cframes[0].code,
                        env: pre.cframes[0].env,
                        protected: pre.cframes[0].protected,
                        base: pre.cframes[0].base,
                    },
                ),
                stack: Seq::empty(),
                envs: pre.envs,
                global: pre.global,
                status: StatusV::Done(Ok(c)),
            },
            Ok::<ValV<E>, ErrorV>(c),
        ),
{
    let fr0 = pre.cframes[0];
    assert(pre.cframes.last() == fr0);
    assert(pop_done(pre.cframes) == pre.cframes);
    assert(with_frames(pre, pre.cframes) =~~= pre);
    assert(fr0.code.len() == 1);
    assert(fr0.code[0] == InstV::PushConst(c));
    let f2 = set_top_ip(pre, 1);
    assert(step(pre) == step_inst(f2, InstV::PushConst(c)));
    let s_a = with_stack(f2, f2.stack.push(c));
    assert(step_inst(f2, InstV::PushConst(c)) == StepV::Next(s_a));
    assert(s_a.cframes.len() == 1);
    assert(s_a.cframes.last() == s_a.cframes[0]);
    assert(s_a.cframes[0].ip == 1);
    assert(s_a.cframes[0].code.len() == 1);
    assert(pop_done(s_a.cframes) == s_a.cframes);
    assert(with_frames(s_a, s_a.cframes) =~~= s_a);
    assert(s_a.stack.len() == 1);
    assert(s_a.stack.last() == c);
    assert(s_a.stack.drop_last() =~= Seq::<ValV<E>>::empty());
    let fin = FiberV {
        cframes: s_a.cframes,
        stack: s_a.stack.drop_last(),
        envs: s_a.envs,
        global: s_a.global,
        status: StatusV::Done(Ok(c)),
    };
    assert(step(s_a) == StepV::Fin(fin, Ok::<ValV<E>, ErrorV>(c)));
    assert(run_spec(pre, u64::MAX as nat) == run_spec(s_a, (u64::MAX - 1) as nat));
    assert(run_spec(s_a, (u64::MAX - 1) as nat) == RunOut::Done(fin, Ok::<ValV<E>, ErrorV>(c)));
    assert(fin =~~= (FiberV {
        cframes: pre.cframes.update(
            0,
            CallFrameV {
                ip: 1,
                code: pre.cframes[0].code,
                env: pre.cframes[0].env,
                protected: pre.cframes[0].protected,
                base: pre.cframes[0].base,
            },
        ),
        stack: Seq::empty(),
        envs: pre.envs,
        global: pre.global,
        status: StatusV::Done(Ok(c)),
    }));
}

/// A single, cooperatively scheduled sequence of execution.
///
/// A fiber owns its operand stack, its call frames, the arena of every
/// environment its code can reach, host-supplied locals, and the host's
/// native dispatcher. Call frames live on the heap and grow one per active
/// call: recursion is bounded by memory, not by the native stack, and a
/// recursive definition that suspends on every pass, as the yielding
/// counters do, runs indefinitely.
pub struct Fiber<E, L, H> {
    pub cframes: Vec<CallFrame<E>>,
    pub stack: Vec<Val<E>>,
    pub envs: Env<E>,
    pub global: usize,
    pub locals: L,
    pub host: H,
    pub status: Status<E>,
}

/// The mathematical model of a [`Fiber`], leaving out the host-owned parts
/// (locals and the native dispatcher).
#[verifier::ext_equal]
pub struct FiberV<E> {
    pub cframes: Seq<CallFrameV<E>>,
    pub stack: Seq<ValV<E>>,
    pub envs: Seq<FrameV<E>>,
    pub global: int,
    pub status: StatusV<E>,
}

impl<E, L, H> View for Fiber<E, L, H> {
    type V = FiberV<E>;

    open spec fn view(&self) -> FiberV<E> {
        FiberV {
            cframes: self.cframes@.map_values(|c: CallFrame<E>| c@),
            stack: vals_view(self.stack@),
            envs: self.envs@,
            global: self.global as int,
            status: self.status@,
        }
    }
}

impl<E> FiberV<E> {
    /// The structural invariant every fiber keeps: at least one call frame,
    /// a well-formed environment arena, and every frame's environment inside
    /// the arena.
    pub open spec fn wf(self) -> bool {
        &&& env_wf(self.envs)
        &&& self.cframes.len() >= 1
        &&& !self.cframes[0].protected
        &&& 0 <= self.global < self.envs.len()
        &&& forall|i: int|
            0 <= i < self.cframes.len() ==> 0 <= (#[trigger] self.cframes[i]).env < self.envs.len()
    }
}

/// Whether a value counts as true: `nil` and `false` are false, everything
/// else is true.
pub open spec fn truthy<E>(v: ValV<E>) -> bool {
    match v {
        ValV::Nil => false,
        ValV::Bool(b) => b,
        _ => true,
    }
}

/// Whether the value counts as true at a branch.
fn is_truthy<E>(v: &Val<E>) -> (r: bool)
    ensures
        r == truthy(v@),
{
    match v {
        Val::Nil => false,
        Val::Bool(b) => *b,
        _ => true,
    }
}

/// The value of the built-in `+` binding.
pub open spec fn plus_native<E>() -> ValV<E> {
    ValV::Native(NativeFnV { symbol: "+"@, kind: NativeKind::Plus })
}

/// The value of the built-in `peval` binding.
pub open spec fn peval_native<E>() -> ValV<E> {
    ValV::Native(NativeFnV { symbol: "peval"@, kind: NativeKind::Peval })
}

/// The environment arena a fresh fiber starts with: one root frame, holding
/// exactly `+` and `peval`.
pub open spec fn fresh_global_env<E>() -> Seq<FrameV<E>> {
    env_define(
        env_define(
            seq![FrameV { parent: None, binds: Seq::empty() }],
            0,
            "+"@,
            plus_native::<E>(),
        ),
        0,
        "peval"@,
        peval_native::<E>(),
    )
}

/// The fresh global environment is one well-formed root frame in which `+`
/// and `peval` are bound to the built-in natives.
pub proof fn lemma_fresh_global_env<E>()
    ensures
        fresh_global_env::<E>().len() == 1,
        fresh_global_env::<E>()[0].parent is None,
        env_wf(fresh_global_env::<E>()),
        env_lookup(fresh_global_env::<E>(), 0, "+"@) == Some(plus_native::<E>()),
        env_lookup(fresh_global_env::<E>(), 0, "peval"@) == Some(peval_native::<E>()),
{
    reveal_strlit("+");
    reveal_strlit("peval");
    let e0: Seq<FrameV<E>> = seq![FrameV { parent: None, binds: Seq::empty() }];
    let b_plus = BindingV { name: "+"@, val: plus_native::<E>() };
    let b_peval = BindingV { name: "peval"@, val: peval_native::<E>() };
    assert(find_name(e0[0].binds, "+"@) is None);
    let e1 = env_define(e0, 0, "+"@, plus_native::<E>());
    assert(e1[0].binds == Seq::<BindingV<E>>::empty().push(b_plus));
    assert(e1[0].binds =~= seq![b_plus]);
    assert("+"@ != "peval"@) by {
        assert("+"@.len() == 1);
        assert("peval"@.len() == 5);
    }
    assert(find_name(Seq::<BindingV<E>>::empty(), "peval"@) is None);
    assert(e1[0].binds.skip(1) =~= Seq::<BindingV<E>>::empty());
    assert(find_name(e1[0].binds.skip(1), "peval"@) is None);
    assert(e1[0].binds[0].name != "peval"@);
    assert(find_name(e1[0].binds, "peval"@) is None);
    let e2 = env_define(e1, 0, "peval"@, peval_native::<E>());
    assert(e2 == fresh_global_env::<E>());
    assert(e2.len() == 1);
    assert(e2[0].binds == e1[0].binds.push(b_peval));
    assert(e2[0].binds =~= seq![b_plus, b_peval]);
    assert(e2[0].parent is None);
    assert(env_wf(e2)) by {
        assert forall|i: int| 0 <= i < e2.len() implies ((#[trigger] e2[i].parent) is Some
            ==> 0 <= e2[i].parent->0 < i) by {}
    }
    assert(find_name(e2[0].binds, "+"@) == Some(0int));
    assert(resolve(e2, 0, "+"@) == Some(0int));
    assert(seq![b_plus, b_peval].skip(1) =~= seq![b_peval]);
    assert(find_name(seq![b_peval], "peval"@) == Some(0int));
    assert(find_name(e2[0].binds, "peval"@) == Some(1int));
    assert(resolve(e2, 0, "peval"@) == Some(0int));
    assert(env_lookup(e2, 0, "+"@) == Some(b_plus.val));
    assert(env_lookup(e2, 0, "peval"@) == Some(b_peval.val));
}

impl<E: Extern, L, H: NativeHost<E, L>> Fiber<E, L, H> {
    /// Creates a new fiber from the given bytecode, with `+` and `peval`
    /// bound in its global environment.
    pub fn from_bytecode(code: Vec<Inst<E>>, locals: L, host: H) -> (r: Self)
        ensures
            r@.wf(),
            r@.status is New,
            r@.stack.len() == 0,
            r@.cframes.len() == 1,
            r@.cframes[0].code == insts_view(code@),
            r@.cframes[0].ip == 0,
            r@.cframes[0].env == r@.global,
            r@.global == 0,
            r@.envs == fresh_global_env::<E>(),
            env_lookup(r@.envs, 0, "+"@) == Some(plus_native::<E>()),
            env_lookup(r@.envs, 0, "peval"@) == Some(peval_native::<E>()),
    {
        let mut envs: Env<E> = Env::root();
        proof {
            assert(envs@[0].binds =~= Seq::<BindingV<E>>::empty());
            assert(envs@[0] == (FrameV::<E> { parent: None, binds: Seq::empty() }));
            assert(envs@ =~= seq![FrameV::<E> { parent: None, binds: Seq::empty() }]);
        }
        let plus = plus_fn();
        let peval = peval_fn();
        let plus_sym = plus.symbol.duplicate();
        let peval_sym = peval.symbol.duplicate();
        envs.define(0, &plus_sym, Val::NativeFn(plus));
        envs.define(0, &peval_sym, Val::NativeFn(peval));
        proof {
            assert(envs@ == fresh_global_env::<E>());
            lemma_fresh_global_env::<E>();
        }
        let mut cframes: Vec<CallFrame<E>> = Vec::new();
        cframes.push(CallFrame::from_bytecode(0, code));
        Fiber {
            cframes,
            stack: Vec::new(),
            envs,
            global: 0,
            locals,
            host,
            status: Status::New,
        }
    }

    /// Creates a new fiber from a value, compiling it first.
    pub fn from_val(v: &Val<E>, locals: L, host: H) -> (r: Result<Self, Error>)
        ensures
            match compile_expr(v@) {
                Ok(code) => r is Ok && {
                    let f = r->Ok_0@;
                    &&& f.wf()
                    &&& f.status is New
                    &&& f.stack.len() == 0
                    &&& f.cframes.len() == 1
                    &&& f.cframes[0].code == code
                    &&& f.cframes[0].ip == 0
                    &&& f.cframes[0].env == f.global
                    &&& f.global == 0
                    &&& f.envs == fresh_global_env::<E>()
                },
                Err(e) => r is Err && r->Err_0@ == e,
            },
    {
        match compile(v) {
            Ok(code) => Ok(Fiber::from_bytecode(code, locals, host)),
            Err(e) => Err(e),
        }
    }

    /// Creates a new fiber from source text, parsing and compiling it.
    pub fn from_expr(src: &str, locals: L, host: H) -> (r: Result<Self, Error>)
        ensures
            match parse_text(src@) {
                Err(e) => r is Err && r->Err_0@ == e,
                Ok(f) => match compile_expr(val_of_form::<E>(f)) {
                    Err(e) => r is Err && r->Err_0@ == e,
                    Ok(code) => r is Ok && {
                        let fb = r->Ok_0@;
                        &&& fb.wf()
                        &&& fb.status is New
                        &&& fb.stack.len() == 0
                        &&& fb.cframes.len() == 1
                        &&& fb.cframes[0].code == code
                        &&& fb.cframes[0].ip == 0
                        &&& fb.cframes[0].env == fb.global
                        &&& fb.global == 0
                        &&& fb.envs == fresh_global_env::<E>()
                    },
                },
            },
    {
        match parse(src) {
            Err(e) => Err(e),
            Ok(f) => {
                let v: Val<E> = Val::from_form(&f);
                Fiber::from_val(&v, locals, host)
            },
        }
    }

    /// Binds a native function in the global environment under its symbol.
    pub fn bind(&mut self, nativefn: NativeFn)
        requires
            old(self)@.wf(),
        ensures
            final(self)@.wf(),
            final(self)@.envs == env_define(
                old(self)@.envs,
                old(self)@.global,
                nativefn@.symbol,
                ValV::Native::<E>(nativefn@),
            ),
            final(self)@.cframes == old(self)@.cframes,
            final(self)@.stack == old(self)@.stack,
            final(self)@.status == old(self)@.status,
            final(self)@.global == old(self)@.global,
    {
        let sym = nativefn.symbol.duplicate();
        self.envs.define(self.global, &sym, Val::NativeFn(nativefn));
    }

    /// Whether the operand stack is empty.
    pub fn is_stack_empty(&self) -> (r: bool)
        ensures
            r == (self@.stack.len() == 0),
    {
        proof {
            lemma_vals_view(self.stack@);
        }
        self.stack.is_empty()
    }

    /// The host-supplied locals.
    pub fn locals(&self) -> &L {
        &self.locals
    }

    /// Defines a symbol in the global environment; what top-level code of
    /// this fiber reads under that name.
    pub fn define_global(&mut self, sym: &SymbolId, v: Val<E>)
        requires
            old(self)@.wf(),
        ensures
            final(self)@.wf(),
            final(self)@.envs == env_define(
                old(self)@.envs,
                old(self)@.global,
                sym@,
                val_view(v),
            ),
            final(self)@.cframes == old(self)@.cframes,
            final(self)@.stack == old(self)@.stack,
            final(self)@.status == old(self)@.status,
            final(self)@.global == old(self)@.global,
    {
        self.envs.define(self.global, sym, v);
    }

    /// Reads a symbol from the global environment.
    pub fn get_global(&self, sym: &SymbolId) -> (r: Option<Val<E>>)
        requires
            self@.wf(),
        ensures
            match env_lookup(self@.envs, self@.global, sym@) {
                Some(vv) => r is Some && val_view(r->Some_0) == vv,
                None => r is None,
            },
    {
        self.envs.get(self.global, sym)
    }
}

impl<E: Extern, L, H: NativeHost<E, L>> Fiber<E, L, H> {
    /// Carries out `CallFunc(n)`.
    ///
    /// It pops exactly `n + 1` values (the arguments and, below them, the
    /// callee) and pushes exactly one value when the callee returned at once,
    /// or zero when a new frame was pushed: that frame's completion performs
    /// the one push. The values below stay untouched.
    fn call_func(&mut self, n: usize) -> (r: Flow<E>)
        requires
            old(self)@.wf(),
        ensures
            final(self)@.wf(),
            final(self)@.status == old(self)@.status,
            final(self)@.global == old(self)@.global,
            ({
                let s0 = old(self)@.stack;
                let f0 = old(self)@.cframes;
                let e0 = old(self)@.envs;
                let l0 = s0.len() as int;
                if s0.len() < n + 1 {
                    r is Fail && r->Fail_0@ == ErrorV::UnexpectedStack(
                        "missing arguments for call"@,
                    ) && *final(self) == *old(self)
                } else {
                    let callee = s0[l0 - n - 1];
                    let args = s0.subrange(l0 - n, l0);
                    let rest = s0.take(l0 - n - 1);
                    &&& match r {
                        Flow::Go => {
                            ||| (final(self)@.cframes == f0 && final(self)@.envs == e0
                                && final(self)@.stack.len() == rest.len() + 1 && final(self)@.stack.take(rest.len() as int) == rest)
                            ||| (final(self)@.stack == rest && final(self)@.cframes.len()
                                == f0.len() + 1 && final(self)@.cframes.take(f0.len() as int)
                                == f0 && final(self)@.cframes.last().ip == 0)
                        },
                        Flow::Suspend(v) => final(self)@.stack == rest && final(self)@.cframes
                            == f0 && final(self)@.envs == e0,
                        Flow::Fail(e) => final(self)@.stack == rest && final(self)@.cframes == f0
                            && final(self)@.envs == e0,
                    }
                    &&& match callee {
                        ValV::Native(nf) => {
                            &&& (nf.kind == NativeKind::Plus ==> match plus_spec(args) {
                                Ok(v) => r is Go && final(self)@.stack == rest.push(v),
                                Err(e) => r is Fail && r->Fail_0@ == e,
                            })
                            &&& (nf.kind == NativeKind::Host ==> {
                                &&& (r is Go ==> final(self)@.cframes == f0 && final(self)@.envs
                                    == e0 && exists|v: ValV<E>|
                                    final(self)@.stack == rest.push(v))
                                &&& (r is Suspend ==> final(self)@.stack == rest)
                            })
                            &&& (nf.kind == NativeKind::Peval ==> (if n != 1 {
                                r is Fail && r->Fail_0@ == ErrorV::InvalidExpression(
                                    "peval expects one argument"@,
                                )
                            } else {
                                match compile_expr(args[0]) {
                                    Err(e) => r is Fail && r->Fail_0@ == e,
                                    Ok(code) => r is Go && final(self)@.stack == rest && final(self)@.envs == e0
                                        && final(self)@.cframes == f0.push(
                                        CallFrameV {
                                            ip: 0,
                                            code,
                                            env: f0.last().env,
                                            protected: true,
                                            base: rest.len() as int,
                                        },
                                    )
                                }
                            }))
                        },
                        ValV::Lambda(lm) => {
                            &&& (lm.params.len() != n ==> r is Fail && r->Fail_0@
                                == ErrorV::InvalidArgumentsToFunctionCall)
                            &&& (lm.params.len() == n && !(0 <= lm.env < e0.len()) ==> r is Fail
                                && r->Fail_0@ == ErrorV::UnexpectedStack(
                                "lambda environment out of range"@,
                            ))
                            &&& (lm.params.len() == n && 0 <= lm.env < e0.len() ==> r is Go
                                && final(self)@.envs == e0.push(
                                FrameV {
                                    parent: Some(lm.env),
                                    binds: bind_params(lm.params, args, n as int),
                                },
                            ) && final(self)@.cframes == f0.push(
                                CallFrameV {
                                    ip: 0,
                                    code: lm.code,
                                    env: e0.len() as int,
                                    protected: false,
                                    base: 0,
                                },
                            ) && final(self)@.stack == rest)
                        },
                        _ => r is Fail && r->Fail_0@ == ErrorV::InvalidOperation,
                    }
                }
            }),
    {
        broadcast use lemma_vals_view;
        broadcast use lemma_insts_view;

        let ghost s0 = self@.stack;
        let ghost f0 = self@.cframes;
        let ghost e0 = self@.envs;
        if self.stack.len() == 0 || self.stack.len() - 1 < n {
            return Flow::Fail(Error::UnexpectedStack("missing arguments for call".to_owned()));
        }
        let ghost l0 = s0.len() as int;
        let split_at = self.stack.len() - n;
        let args: Vec<Val<E>> = self.stack.split_off(split_at);
        let callee: Val<E> = match self.stack.pop() {
            Some(c) => c,
            None => {
                proof {
                    assert(false);
                }
                return Flow::Fail(Error::InvalidOperation);
            },
        };
        let ghost calleev = s0[l0 - n - 1];
        let ghost argsv = s0.subrange(l0 - n, l0);
        let ghost rest = s0.take(l0 - n - 1);
        proof {
            assert(vals_view(args@) =~= argsv);
            assert(vals_view(self.stack@) =~= rest);
            assert(val_view(callee) == calleev);
        }
        match callee {
            Val::NativeFn(nf) => {
                match nf.kind {
                    NativeKind::Plus => {
                        if args.len() == 2 {
                            let a: Option<i32> = match &args[0] {
                                Val::Int(a) => Some(*a),
                                _ => None,
                            };
                            let b: Option<i32> = match &args[1] {
                                Val::Int(b) => Some(*b),
                                _ => None,
                            };
                            match (a, b) {
                                (Some(a), Some(b)) => {
                                    let sum: i64 = (a as i64) + (b as i64);
                                    if sum >= i32::MIN as i64 && sum <= i32::MAX as i64 {
                                        let v: Val<E> = Val::Int(sum as i32);
                                        proof {
                                            assert(plus_spec(argsv) == Ok::<ValV<E>, ErrorV>(
                                                val_view(v),
                                            ));
                                        }
                                        self.stack.push(v);
                                        proof {
                                            assert(vals_view(self.stack@) =~= rest.push(
                                                plus_spec(argsv)->Ok_0,
                                            ));
                                            assert(vals_view(self.stack@).take(rest.len() as int)
                                                =~= rest);
                                        }
                                        Flow::Go
                                    } else {
                                        Flow::Fail(
                                            Error::UnexpectedArguments(
                                                "integer overflow in +".to_owned(),
                                            ),
                                        )
                                    }
                                },
                                _ => Flow::Fail(
                                    Error::UnexpectedArguments("+ expects two integers".to_owned()),
                                ),
                            }
                        } else {
                            Flow::Fail(
                                Error::UnexpectedArguments("+ expects two integers".to_owned()),
                            )
                        }
                    },
                    NativeKind::Peval => {
                        if n != 1 {
                            return Flow::Fail(
                                Error::InvalidExpression("peval expects one argument".to_owned()),
                            );
                        }
                        match compile(&args[0]) {
                            Err(e) => Flow::Fail(e),
                            Ok(code) => {
                                let fi = self.cframes.len() - 1;
                                let cur_env = self.cframes[fi].env;
                                let base = self.stack.len();
                                self.cframes.push(
                                    CallFrame { ip: 0, code, env: cur_env, protected: true, base },
                                );
                                proof {
                                    assert(self@.cframes =~= f0.push(
                                        CallFrameV {
                                            ip: 0,
                                            code: compile_expr(argsv[0])->Ok_0,
                                            env: f0.last().env,
                                            protected: true,
                                            base: rest.len() as int,
                                        },
                                    ));
                                }
                                Flow::Go
                            },
                        }
                    },
                    NativeKind::Host => {
                        let res = self.host.call(&mut self.locals, &nf.symbol, args);
                        match res {
                            Ok(NativeFnVal::Return(v)) => {
                                let ghost vv = val_view(v);
                                self.stack.push(v);
                                proof {
                                    broadcast use lemma_vals_view;

                                    assert(vals_view(self.stack@).take(rest.len() as int) =~= rest);
                                    assert(vals_view(self.stack@) =~= rest.push(vv));
                                    assert(exists|w: ValV<E>|
                                        vals_view(self.stack@) == rest.push(w)) by {
                                        assert(vals_view(self.stack@) == rest.push(vv));
                                    }
                                }
                                Flow::Go
                            },
                            Ok(NativeFnVal::Yield(v)) => Flow::Suspend(v),
                            Err(e) => Flow::Fail(e),
                        }
                    },
                }
            },
            Val::Lambda(lm) => {
                let Lambda { params, code, env } = lm;
                if params.len() != n {
                    return Flow::Fail(Error::InvalidArgumentsToFunctionCall);
                }
                if env >= self.envs.len() {
                    return Flow::Fail(
                        Error::UnexpectedStack("lambda environment out of range".to_owned()),
                    );
                }
                let ghost paramsv = syms_view(params@);
                let child = self.envs.extend(env);
                let mut args = args;
                let mut j: usize = 0;
                proof {
                    assert(self@.envs == e0.push(
                        FrameV::<E> {
                            parent: Some(env as int),
                            binds: bind_params(paramsv, argsv, 0),
                        },
                    ));
                }
                while j < params.len()
                    invariant
                        j <= params@.len(),
                        params@.len() == n,
                        child == e0.len(),
                        paramsv == syms_view(params@),
                        paramsv.len() == params@.len(),
                        args@.len() == n - j,
                        vals_view(args@) =~= argsv.skip(j as int),
                        argsv.len() == n,
                        env_wf(self@.envs),
                        self@.envs == e0.push(
                            FrameV::<E> {
                                parent: Some(env as int),
                                binds: bind_params(paramsv, argsv, j as int),
                            },
                        ),
                        self@.cframes == f0,
                        self@.stack == rest,
                        self@.status == old(self)@.status,
                        self@.global == old(self)@.global,
                        env_wf(e0),
                        e0.len() < self@.envs.len(),
                    decreases params@.len() - j,
                {
                    proof {
                        broadcast use lemma_vals_view;

                        assert(vals_view(args@)[0] == argsv.skip(j as int)[0]);
                        assert(argsv.skip(j as int)[0] == argsv[j as int]);
                    }
                    let ghost args_before = args@;
                    let arg = args.remove(0);
                    proof {
                        broadcast use lemma_vals_view;

                        assert(val_view(arg) == argsv[j as int]);
                        assert forall|k: int| 0 <= k < args@.len() implies vals_view(args@)[k]
                            == argsv.skip(j as int + 1)[k] by {
                            assert(args@[k] == args_before[k + 1]);
                            assert(vals_view(args_before)[k + 1] == argsv.skip(j as int)[k + 1]);
                        }
                        assert(vals_view(args@) =~= argsv.skip(j as int + 1));
                        assert(syms_view(params@)[j as int] == params@[j as int]@);
                    }
                    let ghost envs_before = self@.envs;
                    self.envs.define(child, &params[j], arg);
                    proof {
                        let expect = e0.push(
                            FrameV::<E> {
                                parent: Some(env as int),
                                binds: bind_params(paramsv, argsv, j as int + 1),
                            },
                        );
                        let got = self@.envs;
                        assert(got == env_define(
                            envs_before,
                            child as int,
                            params@[j as int]@,
                            argsv[j as int],
                        ));
                        assert forall|x: int| 0 <= x < got.len() implies got[x] == expect[x] by {
                            if x != child as int {
                                assert(got[x] == envs_before[x]);
                            } else {
                                assert(envs_before[x].binds == bind_params(
                                    paramsv,
                                    argsv,
                                    j as int,
                                ));
                                assert(got[x].binds == frame_define(
                                    bind_params(paramsv, argsv, j as int),
                                    paramsv[j as int],
                                    argsv[j as int],
                                ));
                            }
                        }
                        assert(got =~= expect);
                    }
                    j += 1;
                }
                self.cframes.push(
                    CallFrame { ip: 0, code, env: child, protected: false, base: 0 },
                );
                proof {
                    assert(calleev->Lambda_0.code == insts_view(code@));
                    assert(self@.cframes =~= f0.push(
                        CallFrameV {
                            ip: 0,
                            code: calleev->Lambda_0.code,
                            env: e0.len() as int,
                            protected: false,
                            base: 0,
                        },
                    ));
                    assert(self@.cframes.take(f0.len() as int) =~= f0);
                }
                Flow::Go
            },
            _ => Flow::Fail(Error::InvalidOperation),
        }
    }
}

/// What handling a raised error leaves behind: frames are popped down to
/// the nearest protected frame, whose base height the stack is cut back to,
/// or `None` when no frame is protected and the fiber must finish.
pub open spec fn unwind_spec<E>(frames: Seq<CallFrameV<E>>, stack: Seq<ValV<E>>) -> Option<
    (Seq<CallFrameV<E>>, Seq<ValV<E>>),
>
    decreases frames.len(),
{
    if frames.len() == 0 {
        None
    } else if frames.last().protected {
        Some(
            (
                frames.drop_last(),
                if frames.last().base <= stack.len() {
                    stack.take(frames.last().base)
                } else {
                    stack
                },
            ),
        )
    } else if frames.len() == 1 {
        None
    } else {
        unwind_spec(frames.drop_last(), stack)
    }
}

impl<E: Extern, L, H: NativeHost<E, L>> Fiber<E, L, H> {
    /// Handles a raised error: frames are popped down to the nearest
    /// protected frame, where the error becomes a first-class value on the
    /// stack, or the fiber finishes with the error when no frame is
    /// protected. The effect is exactly [`unwind_spec`].
    fn unwind(&mut self, e: Error) -> (r: Option<Error>)
        requires
            old(self)@.wf(),
        ensures
            final(self)@.wf(),
            final(self)@.global == old(self)@.global,
            final(self)@.envs == old(self)@.envs,
            match unwind_spec(old(self)@.cframes, old(self)@.stack) {
                Some((fs, st)) => r is None && final(self)@.status == old(self)@.status
                    && final(self)@.cframes == fs && final(self)@.stack == st.push(
                    ValV::ErrVal::<E>(e@),
                ),
                None => r is Some && r->Some_0@ == e@ && final(self)@.status == StatusV::Done(
                    Err::<ValV<E>, ErrorV>(e@),
                ) && final(self)@.cframes == old(self)@.cframes.take(1) && final(self)@.stack
                    == old(self)@.stack,
            },
    {
        loop
            invariant
                self@.wf(),
                self@.status == old(self)@.status,
                self@.global == old(self)@.global,
                self@.envs == old(self)@.envs,
                self@.stack == old(self)@.stack,
                self@.cframes.len() <= old(self)@.cframes.len(),
                self@.cframes == old(self)@.cframes.take(self@.cframes.len() as int),
                unwind_spec(self@.cframes, self@.stack) == unwind_spec(
                    old(self)@.cframes,
                    old(self)@.stack,
                ),
            decreases self@.cframes.len(),
        {
            let ghost pre = self@;
            let fi = self.cframes.len() - 1;
            if self.cframes[fi].protected {
                proof {
                    assert(fi > 0);
                }
                let frame = match self.cframes.pop() {
                    Some(f) => f,
                    None => {
                        proof {
                            assert(false);
                        }
                        return None;
                    },
                };
                proof {
                    assert(self@.cframes[0] == pre.cframes[0]);
                    assert forall|i: int|
                        0 <= i < self@.cframes.len() implies 0 <= (
                        #[trigger] self@.cframes[i]).env < self@.envs.len() by {
                        assert(self@.cframes[i] == pre.cframes[i]);
                    }
                }
                proof {
                    assert(unwind_spec(pre.cframes, pre.stack) == Some(
                        (
                            pre.cframes.drop_last(),
                            if pre.cframes.last().base <= pre.stack.len() {
                                pre.stack.take(pre.cframes.last().base)
                            } else {
                                pre.stack
                            },
                        ),
                    ));
                    assert(self@.cframes =~= pre.cframes.drop_last());
                }
                let ghost st0 = self@.stack;
                let ghost sv0 = self.stack@;
                if self.stack.len() > frame.base {
                    self.stack.truncate(frame.base);
                    proof {
                        broadcast use lemma_vals_view;

                        assert(self.stack@ == sv0.subrange(0, frame.base as int));
                        assert forall|i: int|
                            0 <= i < self@.stack.len() implies self@.stack[i] == st0.take(
                            frame.base as int,
                        )[i] by {
                            assert(self@.stack[i] == val_view(self.stack@[i]));
                            assert(self.stack@[i] == sv0[i]);
                        }
                        assert(self@.stack =~= st0.take(frame.base as int));
                    }
                } else {
                    proof {
                        broadcast use lemma_vals_view;

                        if frame.base <= st0.len() {
                            assert(self@.stack =~= st0.take(frame.base as int));
                        }
                    }
                }
                let ghost st1 = self@.stack;
                self.stack.push(Val::Error(e));
                proof {
                    broadcast use lemma_vals_view;

                    assert(self@.stack =~= st1.push(ValV::ErrVal::<E>(e@)));
                }
                return None;
            } else if self.cframes.len() == 1 {
                proof {
                    assert(unwind_spec(pre.cframes, pre.stack) is None);
                    assert(pre.cframes =~= old(self)@.cframes.take(1));
                }
                self.status = Status::Done(Err(e.duplicate()));
                return Some(e);
            } else {
                self.cframes.pop();
                proof {
                    assert(self@.cframes[0] == pre.cframes[0]);
                    assert forall|i: int|
                        0 <= i < self@.cframes.len() implies 0 <= (
                        #[trigger] self@.cframes[i]).env < self@.envs.len() by {
                        assert(self@.cframes[i] == pre.cframes[i]);
                    }
                    assert(self@.cframes =~= pre.cframes.drop_last());
                    assert(unwind_spec(pre.cframes, pre.stack) == unwind_spec(
                        self@.cframes,
                        self@.stack,
                    ));
                    assert forall|i: int|
                        0 <= i < self@.cframes.len() implies self@.cframes[i] == old(
                        self,
                    )@.cframes.take(self@.cframes.len() as int)[i] by {
                        assert(self@.cframes[i] == pre.cframes[i]);
                        assert(pre.cframes[i] == old(self)@.cframes.take(
                            pre.cframes.len() as int,
                        )[i]);
                        assert(pre.cframes[i] == old(self)@.cframes[i]);
                    }
                    assert(self@.cframes =~= old(self)@.cframes.take(
                        self@.cframes.len() as int,
                    ));
                }
            }
        }
    }

    /// Carries out one fetched instruction, whose model is `inst@`, on a
    /// fiber whose top frame's instruction pointer already stands past it.
    ///
    /// The flow handed back corresponds exactly to [`step_inst`]: `Go` to a
    /// `Next` transition, `Suspend` to a suspension, `Fail` to a raised
    /// error, each with the state the model names; a call into a host native
    /// answers a `Call` transition, after which the host's answer decides.
    #[verifier::rlimit(100)]
    #[verifier::spinoff_prover]
    fn dispatch_inst(&mut self, inst: Inst<E>, fi: usize) -> (flow: Flow<E>)
        requires
            old(self)@.wf(),
            old(self)@.status is Running,
            fi as int == old(self)@.cframes.len() - 1,
        ensures
            final(self)@.wf(),
            final(self)@.status == old(self)@.status,
            match flow {
                Flow::Go => step_inst(old(self)@, inst@) == StepV::Next(final(self)@)
                    || step_inst(old(self)@, inst@) is Call,
                Flow::Suspend(v) => step_inst(old(self)@, inst@) == StepV::Sus(
                    FiberV {
                        cframes: final(self)@.cframes,
                        stack: final(self)@.stack,
                        envs: final(self)@.envs,
                        global: final(self)@.global,
                        status: StatusV::Yielded,
                    },
                    val_view(v),
                ) || step_inst(old(self)@, inst@) is Call,
                Flow::Fail(e) => step_inst(old(self)@, inst@) == step_fail(final(self)@, e@)
                    || step_inst(old(self)@, inst@) is Call,
            },
    {
        let ghost s2 = self@;
        let ghost instv = inst@;
        match inst {
            Inst::PushConst(c) => {
                let ghost cv = val_view(c);
                self.stack.push(c);
                proof {
                    broadcast use lemma_vals_view;

                    assert(self@.stack =~= s2.stack.push(cv));
                    assert(self@ =~~= with_stack(s2, s2.stack.push(cv)));
                    assert(step_inst(s2, instv) == StepV::Next(self@));
                }
                Flow::Go
            },
            Inst::DefSym(sym) => {
                if self.stack.len() == 0 {
                    proof {
                        assert(step_inst(s2, instv) == step_fail(
                            self@,
                            ErrorV::UnexpectedStack("expected stack to be nonempty"@),
                        ));
                    }
                    Flow::Fail(
                        Error::UnexpectedStack("expected stack to be nonempty".to_owned()),
                    )
                } else {
                    let v = self.stack[self.stack.len() - 1].duplicate();
                    let env = self.cframes[fi].env;
                    let ghost pre2 = self@;
                    proof {
                        broadcast use lemma_vals_view;

                        assert(val_view(v) == s2.stack.last());
                        assert(env as int == s2.cframes.last().env);
                    }
                    self.envs.define(env, &sym, v);
                    proof {
                        assert(self@.cframes == pre2.cframes);
                        assert(self@.envs.len() == pre2.envs.len());
                        assert(self@.wf());
                        assert(self@ =~~= (FiberV {
                            envs: env_define(
                                s2.envs,
                                s2.cframes.last().env,
                                sym@,
                                s2.stack.last(),
                            ),
                            cframes: s2.cframes,
                            stack: s2.stack,
                            global: s2.global,
                            status: s2.status,
                        }));
                        assert(step_inst(s2, instv) == StepV::Next(self@));
                    }
                    Flow::Go
                }
            },
            Inst::SetSym(sym) => {
                if self.stack.len() == 0 {
                    proof {
                        assert(step_inst(s2, instv) == step_fail(
                            self@,
                            ErrorV::UnexpectedStack("expected stack to be nonempty"@),
                        ));
                    }
                    Flow::Fail(
                        Error::UnexpectedStack("expected stack to be nonempty".to_owned()),
                    )
                } else {
                    let v = self.stack[self.stack.len() - 1].duplicate();
                    let env = self.cframes[fi].env;
                    let ghost pre2 = self@;
                    proof {
                        broadcast use lemma_vals_view;

                        assert(val_view(v) == s2.stack.last());
                        assert(env as int == s2.cframes.last().env);
                    }
                    let res = self.envs.set(env, &sym, v);
                    proof {
                        assert(self@.cframes == pre2.cframes);
                        assert(self@.envs.len() == pre2.envs.len());
                        assert(self@.wf());
                        match resolve(s2.envs, s2.cframes.last().env, sym@) {
                            Some(g) => {
                                assert(res is Ok);
                                assert(self@ =~~= (FiberV {
                                    envs: env_assign(
                                        s2.envs,
                                        s2.cframes.last().env,
                                        sym@,
                                        s2.stack.last(),
                                    ),
                                    cframes: s2.cframes,
                                    stack: s2.stack,
                                    global: s2.global,
                                    status: s2.status,
                                }));
                                assert(step_inst(s2, instv) == StepV::Next(self@));
                            },
                            None => {
                                assert(res is Err);
                                assert(self@ =~~= s2);
                                assert(step_inst(s2, instv) == step_fail(
                                    self@,
                                    ErrorV::UndefinedSymbol(sym@),
                                ));
                            },
                        }
                    }
                    match res {
                        Ok(_) => Flow::Go,
                        Err(e) => Flow::Fail(e),
                    }
                }
            },
            Inst::GetSym(sym) => {
                let env = self.cframes[fi].env;
                proof {
                    assert(env as int == s2.cframes.last().env);
                }
                match self.envs.get(env, &sym) {
                    Some(v) => {
                        let ghost vv = val_view(v);
                        self.stack.push(v);
                        proof {
                            broadcast use lemma_vals_view;

                            assert(env_lookup(s2.envs, s2.cframes.last().env, sym@)
                                == Some(vv));
                            assert(self@.stack =~= s2.stack.push(vv));
                            assert(self@ =~~= with_stack(s2, s2.stack.push(vv)));
                            assert(step_inst(s2, instv) == StepV::Next(self@));
                        }
                        Flow::Go
                    },
                    None => {
                        proof {
                            assert(step_inst(s2, instv) == step_fail(
                                self@,
                                ErrorV::UndefinedSymbol(sym@),
                            ));
                        }
                        Flow::Fail(Error::UndefinedSymbol(sym))
                    },
                }
            },
            Inst::MakeFunc => {
                match self.stack.pop() {
                    Some(Val::Bytecode(code)) => {
                        proof {
                            broadcast use lemma_vals_view;

                            assert(s2.stack.last() == ValV::Code::<E>(insts_view(code@)));
                            assert(self@.stack =~= s2.stack.drop_last());
                        }
                        let ghost f1v = with_stack(s2, s2.stack.drop_last());
                        match self.stack.pop() {
                            Some(Val::List(plist)) => {
                                proof {
                                    broadcast use lemma_vals_view;

                                    assert(f1v.stack.last() == ValV::List::<E>(
                                        vals_view(plist@),
                                    ));
                                    assert(self@.stack =~= f1v.stack.drop_last());
                                }
                                let ghost f2v = with_stack(f1v, f1v.stack.drop_last());
                                let ghost lv = vals_view(plist@);
                                let mut params: Vec<SymbolId> = Vec::new();
                                let mut j: usize = 0;
                                let mut bad = false;
                                proof {
                                    assert(lv.take(0) =~= Seq::<ValV<E>>::empty());
                                    assert(syms_view(params@) =~= Seq::<Seq<char>>::empty());
                                }
                                loop
                                    invariant_except_break
                                        j <= plist@.len(),
                                        lv == vals_view(plist@),
                                        lv.len() == plist@.len(),
                                        bad == false,
                                        params_of(lv.take(j as int)) == Some(
                                            syms_view(params@),
                                        ),
                                    ensures
                                        lv == vals_view(plist@),
                                        if bad {
                                            params_of(lv) is None
                                        } else {
                                            params_of(lv) == Some(syms_view(params@))
                                        },
                                    decreases plist@.len() - j,
                                {
                                    if j >= plist.len() {
                                        proof {
                                            assert(lv.take(j as int) =~= lv);
                                        }
                                        break;
                                    }
                                    proof {
                                        broadcast use lemma_vals_view;

                                        assert(lv[j as int] == val_view(plist@[j as int]));
                                    }
                                    match &plist[j] {
                                        Val::Symbol(sym) => {
                                            let ghost ps0 = params@;
                                            params.push(sym.duplicate());
                                            proof {
                                                assert(lv.take(j as int + 1).drop_last()
                                                    =~= lv.take(j as int));
                                                let jj = j as int;
                                                assert(lv.take(jj + 1).last() == lv[jj]);
                                                assert(syms_view(params@) =~= syms_view(
                                                    ps0,
                                                ).push(sym@));
                                            }
                                            j += 1;
                                        },
                                        _ => {
                                            proof {
                                                assert(!(lv[j as int] is Sym));
                                                lemma_params_of(lv);
                                                assert(params_of(lv) is None);
                                            }
                                            bad = true;
                                            break;
                                        },
                                    }
                                }
                                if bad {
                                    proof {
                                        assert(self@ =~~= f2v);
                                        assert(step_inst(s2, instv) == step_fail(
                                            self@,
                                            ErrorV::UnexpectedStack(
                                                "unexpected parameter list"@,
                                            ),
                                        ));
                                    }
                                    Flow::Fail(
                                        Error::UnexpectedStack(
                                            "unexpected parameter list".to_owned(),
                                        ),
                                    )
                                } else {
                                    let env = self.cframes[fi].env;
                                    let ghost lam = ValV::Lambda(
                                        LambdaV {
                                            params: syms_view(params@),
                                            code: insts_view(code@),
                                            env: env as int,
                                        },
                                    );
                                    self.stack.push(
                                        Val::Lambda(Lambda { params, code, env }),
                                    );
                                    proof {
                                        broadcast use lemma_vals_view;

                                        assert(env as int == s2.cframes.last().env);
                                        assert(self@.stack =~= f2v.stack.push(lam));
                                        assert(self@ =~~= with_stack(
                                            f2v,
                                            f2v.stack.push(lam),
                                        ));
                                        assert(step_inst(s2, instv) == StepV::Next(self@));
                                    }
                                    Flow::Go
                                }
                            },
                            _ => {
                                proof {
                                    broadcast use lemma_vals_view;

                                    if f1v.stack.len() == 0 {
                                        assert(self@ =~~= f1v);
                                    } else {
                                        assert(!(f1v.stack.last() is List));
                                        assert(self@.stack =~= f1v.stack.drop_last());
                                        assert(self@ =~~= with_stack(
                                            f1v,
                                            f1v.stack.drop_last(),
                                        ));
                                    }
                                    assert(step_inst(s2, instv) == step_fail(
                                        self@,
                                        ErrorV::UnexpectedStack("missing parameter list"@),
                                    ));
                                }
                                Flow::Fail(
                                    Error::UnexpectedStack(
                                        "missing parameter list".to_owned(),
                                    ),
                                )
                            },
                        }
                    },
                    _ => {
                        proof {
                            broadcast use lemma_vals_view;

                            if s2.stack.len() == 0 {
                                assert(self@ =~~= s2);
                            } else {
                                assert(!(s2.stack.last() is Code));
                                assert(self@.stack =~= s2.stack.drop_last());
                                assert(self@ =~~= with_stack(s2, s2.stack.drop_last()));
                            }
                            assert(step_inst(s2, instv) == step_fail(
                                self@,
                                ErrorV::UnexpectedStack("missing function bytecode"@),
                            ));
                        }
                        Flow::Fail(
                            Error::UnexpectedStack("missing function bytecode".to_owned()),
                        )
                    },
                }
            },
            Inst::CallFunc(n) => {
                let flow2 = self.call_func(n);
                proof {
                    broadcast use lemma_vals_view;

                    if s2.stack.len() < n as int + 1 {
                        assert(self@ =~~= s2);
                        assert(step_call(s2, n) == step_fail(
                            s2,
                            ErrorV::UnexpectedStack("missing arguments for call"@),
                        ));
                        assert(flow2 is Fail);
                    } else {
                        let l0 = s2.stack.len() as int;
                        let callee = s2.stack[l0 - n - 1];
                        let args = s2.stack.subrange(l0 - n, l0);
                        let rest = s2.stack.take(l0 - n - 1);
                        let frv = with_stack(s2, rest);
                        match callee {
                            ValV::Native(nf) => {
                                if nf.kind == NativeKind::Plus {
                                    match plus_spec(args) {
                                        Ok(v) => {
                                            assert(flow2 is Go);
                                            assert(self@.stack == rest.push(v));
                                            assert(self@.stack.len() == rest.len() + 1);
                                            assert(self@.cframes == s2.cframes);
                                            assert(self@.envs == s2.envs);
                                            assert(self@ =~~= with_stack(
                                                s2,
                                                rest.push(v),
                                            ));
                                            assert(step_call(s2, n) == StepV::Next(
                                                self@,
                                            ));
                                        },
                                        Err(e2) => {
                                            assert(flow2 is Fail && flow2->Fail_0@ == e2);
                                            assert(self@ =~~= frv);
                                            assert(step_call(s2, n) == step_fail(
                                                frv,
                                                e2,
                                            ));
                                        },
                                    }
                                } else if nf.kind == NativeKind::Peval {
                                    if n != 1 {
                                        assert(flow2 is Fail);
                                        assert(self@ =~~= frv);
                                        assert(step_call(s2, n) == step_fail(
                                            frv,
                                            ErrorV::InvalidExpression(
                                                "peval expects one argument"@,
                                            ),
                                        ));
                                    } else {
                                        match compile_expr(args[0]) {
                                            Err(e2) => {
                                                assert(flow2 is Fail && flow2->Fail_0@
                                                    == e2);
                                                assert(self@ =~~= frv);
                                                assert(step_call(s2, n) == step_fail(
                                                    frv,
                                                    e2,
                                                ));
                                            },
                                            Ok(code) => {
                                                assert(flow2 is Go);
                                                assert(self@ =~~= with_frames(
                                                    frv,
                                                    s2.cframes.push(
                                                        CallFrameV {
                                                            ip: 0,
                                                            code,
                                                            env: s2.cframes.last().env,
                                                            protected: true,
                                                            base: rest.len() as int,
                                                        },
                                                    ),
                                                ));
                                                assert(step_call(s2, n) == StepV::Next(
                                                    self@,
                                                ));
                                            },
                                        }
                                    }
                                } else {
                                    assert(nf.kind == NativeKind::Host);
                                    assert(step_call(s2, n) == StepV::Call(
                                        frv,
                                        nf.symbol,
                                        args,
                                    ));
                                    assert(step_inst(s2, instv) is Call);
                                }
                            },
                            ValV::Lambda(lm) => {
                                if lm.params.len() != n {
                                    assert(flow2 is Fail);
                                    assert(self@ =~~= frv);
                                    assert(step_call(s2, n) == step_fail(
                                        frv,
                                        ErrorV::InvalidArgumentsToFunctionCall,
                                    ));
                                } else if !(0 <= lm.env < s2.envs.len()) {
                                    assert(flow2 is Fail);
                                    assert(self@ =~~= frv);
                                    assert(step_call(s2, n) == step_fail(
                                        frv,
                                        ErrorV::UnexpectedStack(
                                            "lambda environment out of range"@,
                                        ),
                                    ));
                                } else {
                                    assert(flow2 is Go);
                                    assert(self@ =~~= (FiberV {
                                        cframes: s2.cframes.push(
                                            CallFrameV {
                                                ip: 0,
                                                code: lm.code,
                                                env: s2.envs.len() as int,
                                                protected: false,
                                                base: 0,
                                            },
                                        ),
                                        stack: rest,
                                        envs: s2.envs.push(
                                            FrameV {
                                                parent: Some(lm.env),
                                                binds: bind_params(
                                                    lm.params,
                                                    args,
                                                    n as int,
                                                ),
                                            },
                                        ),
                                        global: s2.global,
                                        status: s2.status,
                                    }));
                                    assert(step_call(s2, n) == StepV::Next(self@));
                                }
                            },
                            _ => {
                                assert(flow2 is Fail && flow2->Fail_0@
                                    == ErrorV::InvalidOperation);
                                assert(self@ =~~= frv);
                                assert(step_call(s2, n) == step_fail(
                                    frv,
                                    ErrorV::InvalidOperation,
                                ));
                            },
                        }
                    }
                    match flow2 {
                        Flow::Go => {
                            assert(step_inst(s2, instv) == StepV::Next(self@) || step_inst(s2, instv) is Call);
                        },
                        Flow::Suspend(_) => {
                            assert(step_inst(s2, instv) is Call);
                        },
                        Flow::Fail(_) => {
                            assert(step_inst(s2, instv) == step_fail(self@, flow2->Fail_0@)
                                || step_inst(s2, instv) is Call);
                        },
                    }
                }
                flow2
            },
            Inst::PopTop => {
                match self.stack.pop() {
                    Some(_) => {
                        proof {
                            broadcast use lemma_vals_view;

                            assert(self@.stack =~= s2.stack.drop_last());
                            assert(self@ =~~= with_stack(s2, s2.stack.drop_last()));
                            assert(step_inst(s2, instv) == StepV::Next(self@));
                        }
                        Flow::Go
                    },
                    None => {
                        proof {
                            assert(step_inst(s2, instv) == step_fail(
                                self@,
                                ErrorV::UnexpectedStack("attempting to pop empty stack"@),
                            ));
                        }
                        Flow::Fail(
                            Error::UnexpectedStack(
                                "attempting to pop empty stack".to_owned(),
                            ),
                        )
                    },
                }
            },
            Inst::JumpFwd(k) => {
                let cur = self.cframes[fi].ip;
                proof {
                    assert(cur as int == s2.cframes.last().ip);
                }
                match cur.checked_add(k) {
                    Some(t) => {
                        let ghost pre2 = self@;
                        self.cframes[fi].ip = t;
                        proof {
                            assert(self@.cframes[fi as int].env == pre2.cframes[fi as int].env);
                            assert(self@.cframes[0].protected == pre2.cframes[0].protected);
                            assert forall|i: int|
                                0 <= i < self@.cframes.len() implies 0 <= (
                                #[trigger] self@.cframes[i]).env < self@.envs.len() by {
                                if i != fi as int {
                                    assert(self@.cframes[i] == pre2.cframes[i]);
                                }
                            }
                            assert(self@.wf());
                            assert(self@.cframes =~= s2.cframes.update(
                                s2.cframes.len() - 1,
                                CallFrameV {
                                    ip: s2.cframes.last().ip + k,
                                    code: s2.cframes.last().code,
                                    env: s2.cframes.last().env,
                                    protected: s2.cframes.last().protected,
                                    base: s2.cframes.last().base,
                                },
                            ));
                            assert(self@ =~~= set_top_ip(
                                s2,
                                s2.cframes.last().ip + k,
                            ));
                            assert(step_inst(s2, instv) == StepV::Next(self@));
                        }
                        Flow::Go
                    },
                    None => {
                        proof {
                            assert(s2.cframes.last().ip + k > usize::MAX);
                            assert(step_inst(s2, instv) == step_fail(self@, ErrorV::NoMoreBytecode));
                        }
                        Flow::Fail(Error::NoMoreBytecode)
                    },
                }
            },
            Inst::PopJumpFwdIfTrue(k) => {
                match self.stack.pop() {
                    Some(v) => {
                        proof {
                            broadcast use lemma_vals_view;

                            assert(val_view(v) == s2.stack.last());
                            assert(self@.stack =~= s2.stack.drop_last());
                        }
                        let ghost f1v = with_stack(s2, s2.stack.drop_last());
                        proof {
                            assert(self@ =~~= f1v);
                        }
                        if is_truthy(&v) {
                            let cur = self.cframes[fi].ip;
                            proof {
                                assert(cur as int == f1v.cframes.last().ip);
                            }
                            match cur.checked_add(k) {
                                Some(t) => {
                                    let ghost pre2 = self@;
                                    self.cframes[fi].ip = t;
                                    proof {
                                        assert(self@.cframes[fi as int].env == pre2.cframes[fi as int].env);
                                        assert(self@.cframes[0].protected == pre2.cframes[0].protected);
                                        assert forall|i: int|
                                            0 <= i < self@.cframes.len() implies 0 <= (
                                            #[trigger] self@.cframes[i]).env
                                            < self@.envs.len() by {
                                            if i != fi as int {
                                                assert(self@.cframes[i] == pre2.cframes[i]);
                                            }
                                        }
                                        assert(self@.wf());
                                        assert(self@.cframes =~= f1v.cframes.update(
                                            f1v.cframes.len() - 1,
                                            CallFrameV {
                                                ip: f1v.cframes.last().ip + k,
                                                code: f1v.cframes.last().code,
                                                env: f1v.cframes.last().env,
                                                protected: f1v.cframes.last().protected,
                                                base: f1v.cframes.last().base,
                                            },
                                        ));
                                        assert(self@ =~~= set_top_ip(
                                            f1v,
                                            f1v.cframes.last().ip + k,
                                        ));
                                        assert(step_inst(s2, instv) == StepV::Next(self@));
                                    }
                                    Flow::Go
                                },
                                None => {
                                    proof {
                                        assert(f1v.cframes.last().ip + k > usize::MAX);
                                        assert(step_inst(s2, instv) == step_fail(
                                            self@,
                                            ErrorV::NoMoreBytecode,
                                        ));
                                    }
                                    Flow::Fail(Error::NoMoreBytecode)
                                },
                            }
                        } else {
                            proof {
                                assert(!truthy(s2.stack.last()));
                                assert(step_inst(s2, instv) == StepV::Next(self@));
                            }
                            Flow::Go
                        }
                    },
                    None => {
                        proof {
                            assert(step_inst(s2, instv) == step_fail(
                                self@,
                                ErrorV::UnexpectedStack("expected stack to be nonempty"@),
                            ));
                        }
                        Flow::Fail(
                            Error::UnexpectedStack(
                                "expected stack to be nonempty".to_owned(),
                            ),
                        )
                    },
                }
            },
            Inst::JumpBack(k) => {
                let cur = self.cframes[fi].ip;
                proof {
                    assert(cur as int == s2.cframes.last().ip);
                }
                if k > cur {
                    proof {
                        assert(step_inst(s2, instv) == step_fail(self@, ErrorV::NoMoreBytecode));
                    }
                    Flow::Fail(Error::NoMoreBytecode)
                } else {
                    let ghost pre2 = self@;
                    self.cframes[fi].ip = cur - k;
                    proof {
                        assert(self@.cframes[fi as int].env == pre2.cframes[fi as int].env);
                        assert(self@.cframes[0].protected == pre2.cframes[0].protected);
                        assert forall|i: int|
                            0 <= i < self@.cframes.len() implies 0 <= (
                            #[trigger] self@.cframes[i]).env < self@.envs.len() by {
                            if i != fi as int {
                                assert(self@.cframes[i] == pre2.cframes[i]);
                            }
                        }
                        assert(self@.wf());
                        assert(self@.cframes =~= s2.cframes.update(
                            s2.cframes.len() - 1,
                            CallFrameV {
                                ip: s2.cframes.last().ip - k,
                                code: s2.cframes.last().code,
                                env: s2.cframes.last().env,
                                protected: s2.cframes.last().protected,
                                base: s2.cframes.last().base,
                            },
                        ));
                        assert(self@ =~~= set_top_ip(s2, s2.cframes.last().ip - k));
                        assert(step_inst(s2, instv) == StepV::Next(self@));
                    }
                    Flow::Go
                }
            },
            Inst::Yield => {
                match self.stack.pop() {
                    Some(v) => {
                        proof {
                            broadcast use lemma_vals_view;

                            assert(val_view(v) == s2.stack.last());
                            assert(self@.stack =~= s2.stack.drop_last());
                            assert(step_inst(s2, instv) == StepV::Sus(
                                FiberV {
                                    cframes: self@.cframes,
                                    stack: self@.stack,
                                    envs: self@.envs,
                                    global: self@.global,
                                    status: StatusV::Yielded,
                                },
                                val_view(v),
                            ));
                        }
                        Flow::Suspend(v)
                    },
                    None => {
                        proof {
                            assert(step_inst(s2, instv) == step_fail(
                                self@,
                                ErrorV::UnexpectedStack("expected stack to be nonempty"@),
                            ));
                        }
                        Flow::Fail(
                            Error::UnexpectedStack(
                                "expected stack to be nonempty".to_owned(),
                            ),
                        )
                    },
                }
            },
        }
    }

    /// Runs a fiber whose status is `Running` until it finishes, suspends,
    /// or fails.
    /// Runs a fiber whose status is `Running` until it finishes, suspends,
    /// or fails.
    ///
    /// The run is exactly the machine of [`step`]: whenever [`run_spec`]
    /// finishes or suspends the pre-state within the instruction budget and
    /// before any host call, this loop returns that verdict and leaves the
    /// fiber in that state (see [`run_post`]).
    #[verifier::rlimit(100)]
    #[verifier::spinoff_prover]
    fn run_loop(&mut self) -> (r: Result<FiberState<E>, Error>)
        requires
            old(self)@.wf(),
            old(self)@.status is Running,
        ensures
            final(self)@.wf(),
            run_post(old(self)@, r, final(self)@),
            match r {
                Ok(FiberState::Done(v)) => final(self)@.status == StatusV::Done(
                    Ok::<ValV<E>, ErrorV>(v@),
                ),
                Ok(FiberState::Yield(v)) => final(self)@.status is Yielded,
                Err(e) => final(self)@.status == StatusV::Done(Err::<ValV<E>, ErrorV>(e@)),
            },
    {
        let mut fuel: u64 = u64::MAX;
        loop
            invariant
                self@.wf(),
                self@.status is Running,
                run_spec(old(self)@, u64::MAX as nat) == run_spec(self@, fuel as nat)
                    || run_spec(old(self)@, u64::MAX as nat) is Host,
            decreases fuel,
        {
            let ghost s0 = self@;
            let ghost fuel0 = fuel as nat;
            if fuel == 0 {
                let e = Error::OutOfFuel;
                self.status = Status::Done(Err(Error::OutOfFuel));
                proof {
                    assert(run_spec(s0, 0nat) == RunOut::More::<E>(s0));
                    if !(run_spec(old(self)@, u64::MAX as nat) is Host) {
                        assert(run_spec(old(self)@, u64::MAX as nat) == RunOut::More::<E>(s0));
                        assert(self@ =~~= (FiberV {
                            cframes: s0.cframes,
                            stack: s0.stack,
                            envs: s0.envs,
                            global: s0.global,
                            status: StatusV::Done(Err(ErrorV::OutOfFuel)),
                        }));
                    }
                }
                return Err(e);
            }
            fuel = fuel - 1;
            // Pop completed frames, except the root: the callee's result is
            // already on the operand stack (the implicit return).
            loop
                invariant_except_break
                    self@.wf(),
                    self@.status is Running,
                    self@.stack == s0.stack,
                    self@.envs == s0.envs,
                    self@.global == s0.global,
                    pop_done(self@.cframes) == pop_done(s0.cframes),
                ensures
                    self@.wf(),
                    self@.status is Running,
                    self@.stack == s0.stack,
                    self@.envs == s0.envs,
                    self@.global == s0.global,
                    pop_done(self@.cframes) == pop_done(s0.cframes),
                    pop_done(self@.cframes) == self@.cframes,
                decreases self@.cframes.len(),
            {
                if self.cframes.len() <= 1 {
                    proof {
                        assert(pop_done(self@.cframes) == self@.cframes);
                    }
                    break;
                }
                let ghost pre = self@;
                let fi = self.cframes.len() - 1;
                if self.cframes[fi].ip == self.cframes[fi].code.len() {
                    proof {
                        broadcast use lemma_insts_view;

                        assert(pre.cframes.last().code.len() == self.cframes@[fi as int].code@.len());
                        assert(pre.cframes.last().ip == pre.cframes.last().code.len());
                    }
                    self.cframes.pop();
                    proof {
                        assert(self@.cframes[0] == pre.cframes[0]);
                        assert forall|i: int|
                            0 <= i < self@.cframes.len() implies 0 <= (
                            #[trigger] self@.cframes[i]).env < self@.envs.len() by {
                            assert(self@.cframes[i] == pre.cframes[i]);
                        }
                        assert(self@.cframes =~= pre.cframes.drop_last());
                        assert(pop_done(pre.cframes) == pop_done(self@.cframes));
                    }
                } else {
                    proof {
                        broadcast use lemma_insts_view;

                        let fii = fi as int;
                        assert(self@.cframes.last().code.len() == self.cframes@[fii].code@.len());
                        assert(self@.cframes.last().ip != self@.cframes.last().code.len());
                        assert(pop_done(self@.cframes) == self@.cframes);
                    }
                    break;
                }
            }
            let ghost s1 = self@;
            proof {
                assert(pop_done(s1.cframes) == s1.cframes);
                assert(s1 =~~= with_frames(s0, pop_done(s0.cframes)));
            }
            let fi = self.cframes.len() - 1;
            let ip = self.cframes[fi].ip;
            let clen = self.cframes[fi].code.len();
            if fi == 0 && ip == clen {
                // The root frame is exhausted: the fiber's result is the top
                // of the stack.
                proof {
                    broadcast use lemma_insts_view;

                    assert(s1.cframes.len() == 1);
                    assert(s1.cframes[0].code.len() == self.cframes@[0].code@.len());
                    assert(s1.cframes[0].ip == s1.cframes[0].code.len());
                }
                match self.stack.pop() {
                    Some(v) => {
                        let ghost vv = val_view(v);
                        proof {
                            broadcast use lemma_vals_view;

                            assert(vv == s1.stack.last());
                            assert(self@.stack =~= s1.stack.drop_last());
                        }
                        self.status = Status::Done(Ok(v.duplicate()));
                        proof {
                            let f2 = FiberV {
                                cframes: s1.cframes,
                                stack: s1.stack.drop_last(),
                                envs: s1.envs,
                                global: s1.global,
                                status: StatusV::Done(Ok(vv)),
                            };
                            assert(step(s0) == StepV::Fin(f2, Ok::<ValV<E>, ErrorV>(vv)));
                            assert(self@ =~~= f2);
                            if !(run_spec(old(self)@, u64::MAX as nat) is Host) {
                                assert(run_spec(s0, fuel0) == RunOut::Done(
                                    f2,
                                    Ok::<ValV<E>, ErrorV>(vv),
                                ));
                            }
                        }
                        return Ok(FiberState::Done(v));
                    },
                    None => {
                        let e = Error::UnexpectedStack(
                            "stack should hold the result of a finished fiber".to_owned(),
                        );
                        let ghost ev = e@;
                        self.status = Status::Done(Err(e.duplicate()));
                        proof {
                            assert(s1.stack.len() == 0);
                            let f2 = FiberV {
                                cframes: s1.cframes,
                                stack: s1.stack,
                                envs: s1.envs,
                                global: s1.global,
                                status: StatusV::Done(Err(ev)),
                            };
                            assert(step(s0) == StepV::Fin(f2, Err::<ValV<E>, ErrorV>(ev)));
                            assert(self@ =~~= f2);
                            if !(run_spec(old(self)@, u64::MAX as nat) is Host) {
                                assert(run_spec(s0, fuel0) == RunOut::Done(
                                    f2,
                                    Err::<ValV<E>, ErrorV>(ev),
                                ));
                            }
                        }
                        return Err(e);
                    },
                }
            }
            let flow: Flow<E> = if ip >= clen {
                proof {
                    broadcast use lemma_insts_view;

                    assert(s1.cframes.last().code.len() == self.cframes@[fi as int].code@.len());
                    assert(s1.cframes.last().ip == ip as int);
                    assert(s1.cframes.last().ip >= s1.cframes.last().code.len());
                    assert(!(s1.cframes.len() == 1 && s1.cframes[0].ip == s1.cframes[0].code.len()));
                    assert(step(s0) == step_fail(s1, ErrorV::NoMoreBytecode));
                }
                Flow::Fail(Error::NoMoreBytecode)
            } else {
                let ghost pre = self@;
                let inst = self.cframes[fi].code[ip].duplicate();
                self.cframes[fi].ip = ip + 1;
                let ghost instv = inst@;
                proof {
                    assert(self@.cframes[fi as int].env == pre.cframes[fi as int].env);
                    assert(self@.cframes[0].protected == pre.cframes[0].protected);
                    assert forall|i: int|
                        0 <= i < self@.cframes.len() implies 0 <= (
                        #[trigger] self@.cframes[i]).env < self@.envs.len() by {
                        if i != fi as int {
                            assert(self@.cframes[i] == pre.cframes[i]);
                        }
                    }
                    assert(self@.wf());
                    broadcast use lemma_insts_view;

                    assert(s1.cframes.last().code.len() == self.cframes@[fi as int].code@.len());
                    assert(!(s1.cframes.len() == 1 && s1.cframes[0].ip == s1.cframes[0].code.len()));
                    assert(s1.cframes.last().ip < s1.cframes.last().code.len());
                    assert(instv == s1.cframes.last().code[ip as int]);
                    assert(self@.cframes =~= s1.cframes.update(
                        s1.cframes.len() - 1,
                        CallFrameV {
                            ip: ip as int + 1,
                            code: s1.cframes.last().code,
                            env: s1.cframes.last().env,
                            protected: s1.cframes.last().protected,
                            base: s1.cframes.last().base,
                        },
                    ));
                    assert(self@ =~~= set_top_ip(s1, ip as int + 1));
                    assert(step(s0) == step_inst(set_top_ip(s1, ip as int + 1), instv));
                }
                let flow2 = self.dispatch_inst(inst, fi);
                proof {
                    match &flow2 {
                        Flow::Go => {
                            assert(step(s0) == StepV::Next(self@) || step(s0) is Call);
                        },
                        Flow::Suspend(v) => {
                            assert(step(s0) == StepV::Sus(
                                FiberV {
                                    cframes: self@.cframes,
                                    stack: self@.stack,
                                    envs: self@.envs,
                                    global: self@.global,
                                    status: StatusV::Yielded,
                                },
                                val_view(*v),
                            ) || step(s0) is Call);
                        },
                        Flow::Fail(e) => {
                            assert(step(s0) == step_fail(self@, e@) || step(s0) is Call);
                        },
                    }
                }
                flow2
            };
            match flow {
                Flow::Go => {
                    proof {
                        assert(step(s0) == StepV::Next(self@) || step(s0) is Call);
                        if !(run_spec(old(self)@, u64::MAX as nat) is Host) {
                            assert(run_spec(old(self)@, u64::MAX as nat) == run_spec(s0, fuel0));
                            if step(s0) is Call {
                                assert(run_spec(s0, fuel0) is Host);
                                assert(false);
                            } else {
                                assert(run_spec(s0, fuel0) == run_spec(
                                    self@,
                                    (fuel0 - 1) as nat,
                                ));
                            }
                        }
                    }
                },
                Flow::Suspend(v) => {
                    self.status = Status::Yielded;
                    proof {
                        assert(step(s0) == StepV::Sus(self@, val_view(v)) || step(s0) is Call);
                        if !(run_spec(old(self)@, u64::MAX as nat) is Host) {
                            assert(run_spec(old(self)@, u64::MAX as nat) == run_spec(s0, fuel0));
                            if step(s0) is Call {
                                assert(run_spec(s0, fuel0) is Host);
                                assert(false);
                            } else {
                                assert(run_spec(s0, fuel0) == RunOut::Yield(self@, val_view(v)));
                            }
                        }
                    }
                    return Ok(FiberState::Yield(v));
                },
                Flow::Fail(e) => {
                    let ghost ev = e@;
                    let ghost sfail = self@;
                    match self.unwind(e) {
                        None => {
                            proof {
                                assert(step(s0) == step_fail(sfail, ev) || step(s0) is Call);
                                match unwind_spec(sfail.cframes, sfail.stack) {
                                    Some((fs, st)) => {
                                        assert(self@ =~~= (FiberV {
                                            cframes: fs,
                                            stack: st.push(ValV::ErrVal(ev)),
                                            envs: sfail.envs,
                                            global: sfail.global,
                                            status: sfail.status,
                                        }));
                                        assert(step_fail(sfail, ev) == StepV::Next(self@));
                                    },
                                    None => {
                                        assert(false);
                                    },
                                }
                                if !(run_spec(old(self)@, u64::MAX as nat) is Host) {
                                    assert(run_spec(old(self)@, u64::MAX as nat) == run_spec(
                                        s0,
                                        fuel0,
                                    ));
                                    if step(s0) is Call {
                                        assert(run_spec(s0, fuel0) is Host);
                                        assert(false);
                                    } else {
                                        assert(run_spec(s0, fuel0) == run_spec(
                                            self@,
                                            (fuel0 - 1) as nat,
                                        ));
                                    }
                                }
                            }
                        },
                        Some(err) => {
                            proof {
                                assert(step(s0) == step_fail(sfail, ev) || step(s0) is Call);
                                match unwind_spec(sfail.cframes, sfail.stack) {
                                    Some(_) => {
                                        assert(false);
                                    },
                                    None => {
                                        let f2 = FiberV {
                                            cframes: sfail.cframes.take(1),
                                            stack: sfail.stack,
                                            envs: sfail.envs,
                                            global: sfail.global,
                                            status: StatusV::Done(Err(ev)),
                                        };
                                        if !(step(s0) is Call) {
                                            assert(step_fail(sfail, ev) == StepV::Fin(
                                                f2,
                                                Err::<ValV<E>, ErrorV>(ev),
                                            ));
                                            assert(self@ =~~= f2);
                                        }
                                    },
                                }
                                if !(run_spec(old(self)@, u64::MAX as nat) is Host) {
                                    assert(run_spec(old(self)@, u64::MAX as nat) == run_spec(
                                        s0,
                                        fuel0,
                                    ));
                                    if step(s0) is Call {
                                        assert(run_spec(s0, fuel0) is Host);
                                        assert(false);
                                    }
                                }
                            }
                            return Err(err);
                        },
                    }
                },
            }
        }
    }

    /// Starts a fresh fiber.
    ///
    /// Execution is exactly the machine of [`step`] on the fiber's state, set
    /// running: whenever [`run_spec`] finishes or suspends within the
    /// instruction budget and before any host call, this call returns that
    /// verdict and leaves the fiber in that state (see [`run_post`]).
    ///
    /// Only a fiber that was never resumed can start this way: a running or
    /// suspended fiber answers `AlreadyRunning`, a finished one
    /// `AlreadyCompleted`, and in both cases nothing changes, however often
    /// the call is repeated.
    pub fn resume(&mut self) -> (r: Result<FiberState<E>, Error>)
        requires
            old(self)@.wf(),
        ensures
            final(self)@.wf(),
            old(self)@.status is Done ==> r == Err::<FiberState<E>, Error>(
                Error::AlreadyCompleted,
            ) && *final(self) == *old(self),
            old(self)@.status is Running || old(self)@.status is Yielded ==> r == Err::<
                FiberState<E>,
                Error,
            >(Error::AlreadyRunning) && *final(self) == *old(self),
            old(self)@.status is New ==> run_post(
                FiberV {
                    cframes: old(self)@.cframes,
                    stack: old(self)@.stack,
                    envs: old(self)@.envs,
                    global: old(self)@.global,
                    status: StatusV::Running,
                },
                r,
                final(self)@,
            ),
            old(self)@.status is New ==> match r {
                Ok(FiberState::Done(v)) => final(self)@.status == StatusV::Done(
                    Ok::<ValV<E>, ErrorV>(v@),
                ),
                Ok(FiberState::Yield(v)) => final(self)@.status is Yielded,
                Err(e) => final(self)@.status == StatusV::Done(Err::<ValV<E>, ErrorV>(e@)),
            },
    {
        match &self.status {
            Status::New => {},
            Status::Running | Status::Yielded => {
                return Err(Error::AlreadyRunning);
            },
            Status::Done(_) => {
                return Err(Error::AlreadyCompleted);
            },
        }
        let ghost before = self@;
        self.status = Status::Running;
        proof {
            assert(self@ =~~= (FiberV {
                cframes: before.cframes,
                stack: before.stack,
                envs: before.envs,
                global: before.global,
                status: StatusV::Running,
            }));
        }
        self.run_loop()
    }

    /// Resumes a suspended fiber: the value becomes the value of the
    /// suspended expression, and execution continues after the suspension
    /// point.
    ///
    /// Execution is exactly the machine of [`step`] on the fiber's state with
    /// the resumed value pushed onto the operand stack and the status set
    /// running (see [`run_post`]).
    ///
    /// A fiber that has not yielded cannot be resumed this way: a fresh or
    /// running fiber answers `AlreadyRunning`, a finished one
    /// `AlreadyCompleted`, and in both cases nothing changes, however often
    /// the call is repeated.
    pub fn resume_from_yield(&mut self, v: Val<E>) -> (r: Result<FiberState<E>, Error>)
        requires
            old(self)@.wf(),
        ensures
            final(self)@.wf(),
            old(self)@.status is Done ==> r == Err::<FiberState<E>, Error>(
                Error::AlreadyCompleted,
            ) && *final(self) == *old(self),
            old(self)@.status is New || old(self)@.status is Running ==> r == Err::<
                FiberState<E>,
                Error,
            >(Error::AlreadyRunning) && *final(self) == *old(self),
            old(self)@.status is Yielded ==> run_post(
                FiberV {
                    cframes: old(self)@.cframes,
                    stack: old(self)@.stack.push(val_view(v)),
                    envs: old(self)@.envs,
                    global: old(self)@.global,
                    status: StatusV::Running,
                },
                r,
                final(self)@,
            ),
            old(self)@.status is Yielded ==> match r {
                Ok(FiberState::Done(rv)) => final(self)@.status == StatusV::Done(
                    Ok::<ValV<E>, ErrorV>(rv@),
                ),
                Ok(FiberState::Yield(rv)) => final(self)@.status is Yielded,
                Err(e) => final(self)@.status == StatusV::Done(Err::<ValV<E>, ErrorV>(e@)),
            },
    {
        match &self.status {
            Status::Yielded => {},
            Status::New | Status::Running => {
                return Err(Error::AlreadyRunning);
            },
            Status::Done(_) => {
                return Err(Error::AlreadyCompleted);
            },
        }
        let ghost before = self@;
        let ghost vv = val_view(v);
        self.status = Status::Running;
        self.stack.push(v);
        proof {
            broadcast use lemma_vals_view;

            assert(self@.stack =~= before.stack.push(vv));
            assert(self@ =~~= (FiberV {
                cframes: before.cframes,
                stack: before.stack.push(vv),
                envs: before.envs,
                global: before.global,
                status: StatusV::Running,
            }));
        }
        self.run_loop()
    }
}

} // verus!
