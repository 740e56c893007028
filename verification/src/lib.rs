//! An embeddable Lisp-family interpreter whose execution model is a
//! stack-based bytecode machine driving fibers: cooperatively scheduled
//! coroutines that suspend at explicit yield points and are resumed by the
//! host with a value.

pub mod builtin;
pub mod chars;
pub mod compile;
pub mod env;
pub mod error;
pub mod fiber;
pub mod lex;
pub mod parse;
pub mod print;
pub mod proc;
pub mod round_trip;
pub mod types;

pub use builtin::{peval_fn, plus_fn};
pub use compile::compile;
pub use env::{Binding, BindingV, Env, EnvFrame, FrameV};
pub use error::{Error, ErrorV};
pub use fiber::{
    CallFrame, CallFrameV, Fiber, FiberState, FiberStateV, FiberV, NativeHost, NoNatives, RunOut,
    Status, StatusV, StepV, fresh_global_env, lemma_fresh_global_env, lemma_push_const_runs,
    peval_native, plus_native, pop_done, run_post, run_spec, step, step_call, step_fail,
    step_inst, unwind_spec,
};
pub use lex::{Token, TokenV, lex};
pub use parse::parse;
pub use proc::{
    IOCmd, IOCmdV, ProcessId, exec_cmd, kill_cmd, ls_msgs_cmd, pid_value, ps_cmd, recv_cmd,
    recv_req_cmd, send_cmd, send_resp_cmd,
};
pub use types::{
    Extern, Form, FormV, Inst, InstV, KeywordId, Lambda, LambdaV, NativeFn, NativeFnV,
    NativeFnVal, NativeKind, SymbolId, Val, ValV,
};
