//! Commands a process fiber sends to the outer runtime.
//!
//! A process reaches the runtime by yielding one of these commands from a
//! native function; the runtime performs the I/O and resumes the fiber with
//! the outcome. Building a command from a native's arguments is the
//! verified part; carrying it out belongs to the host.
use vstd::prelude::*;

verus! {

use crate::error::{Error, ErrorV};
use crate::types::{Extern, Val, ValV, val_view, vals_view, lemma_vals_view};

/// Identifier of a process in the outer runtime.
#[derive(Debug, Clone, Copy, PartialEq, Eq, Structural)]
pub struct ProcessId(pub usize);

/// A command for the runtime's I/O dispatcher.
#[derive(Debug, PartialEq)]
pub enum IOCmd<E> {
    /// Receive a request over the client connection.
    RecvRequest,
    /// Send a response over the client connection.
    SendRequest(Val<E>),
    /// List the running processes.
    ListProcesses,
    /// Kill the process.
    KillProcess(ProcessId),
    /// Send the message to the process's mailbox.
    SendMessage(ProcessId, Val<E>),
    /// Receive a message, optionally only one matching the pattern.
    Recv(Option<Val<E>>),
    /// List the pending messages.
    ListMessages,
    /// Run an external program with the given arguments.
    Exec(String, Vec<String>),
}

/// The mathematical model of an [`IOCmd`].
pub enum IOCmdV<E> {
    RecvRequest,
    SendRequest(ValV<E>),
    ListProcesses,
    KillProcess(int),
    SendMessage(int, ValV<E>),
    Recv(Option<ValV<E>>),
    ListMessages,
    Exec(Seq<char>, Seq<Seq<char>>),
}

impl<E> View for IOCmd<E> {
    type V = IOCmdV<E>;

    open spec fn view(&self) -> IOCmdV<E> {
        match self {
            IOCmd::RecvRequest => IOCmdV::RecvRequest,
            IOCmd::SendRequest(v) => IOCmdV::SendRequest(val_view(*v)),
            IOCmd::ListProcesses => IOCmdV::ListProcesses,
            IOCmd::KillProcess(p) => IOCmdV::KillProcess(p.0 as int),
            IOCmd::SendMessage(p, v) => IOCmdV::SendMessage(p.0 as int, val_view(*v)),
            IOCmd::Recv(p) => IOCmdV::Recv(
                match p {
                    Some(v) => Some(val_view(*v)),
                    None => None,
                },
            ),
            IOCmd::ListMessages => IOCmdV::ListMessages,
            IOCmd::Exec(prog, args) => IOCmdV::Exec(
                prog@,
                args@.map_values(|a: String| a@),
            ),
        }
    }
}

/// Builds the command of `recv_req`: receive a request.
pub fn recv_req_cmd<E>() -> (r: IOCmd<E>)
    ensures
        r@ == IOCmdV::RecvRequest::<E>,
{
    IOCmd::RecvRequest
}

/// Builds the command of `send_resp`: send the one argument as the response.
/// Any other number of arguments is rejected.
pub fn send_resp_cmd<E>(mut args: Vec<Val<E>>) -> (r: Result<IOCmd<E>, Error>)
    ensures
        ({
            let a = vals_view(args@);
            if a.len() == 1 {
                r is Ok && r->Ok_0@ == IOCmdV::SendRequest(a[0])
            } else {
                r is Err && r->Err_0@ == ErrorV::InvalidExpression(
                    "send_resp expects one argument"@,
                )
            }
        }),
{
    proof {
        lemma_vals_view(args@);
    }
    if args.len() == 1 {
        let v = match args.pop() {
            Some(v) => v,
            None => {
                proof {
                    assert(false);
                }
                return Err(Error::InvalidOperation);
            },
        };
        Ok(IOCmd::SendRequest(v))
    } else {
        Err(Error::InvalidExpression("send_resp expects one argument".to_owned()))
    }
}

/// The process identifier `pid` names: its one argument must be a
/// non-negative integer.
pub fn pid_value<E>(args: &Vec<Val<E>>) -> (r: Result<ProcessId, Error>)
    ensures
        ({
            let a = vals_view(args@);
            if a.len() == 1 && a[0] is Int && a[0]->Int_0 >= 0 {
                r is Ok && r->Ok_0.0 == a[0]->Int_0
            } else {
                r is Err && r->Err_0@ == ErrorV::UnexpectedArguments(
                    "pid expects single integer argument"@,
                )
            }
        }),
{
    proof {
        lemma_vals_view(args@);
    }
    if args.len() == 1 {
        match &args[0] {
            Val::Int(pid) => {
                if *pid >= 0 {
                    return Ok(ProcessId(*pid as usize));
                }
            },
            _ => {},
        }
    }
    Err(Error::UnexpectedArguments("pid expects single integer argument".to_owned()))
}

/// Builds the command of `ps`: list the running processes.
pub fn ps_cmd<E>() -> (r: IOCmd<E>)
    ensures
        r@ == IOCmdV::ListProcesses::<E>,
{
    IOCmd::ListProcesses
}

/// Builds the command of `kill`: kill the named process.
pub fn kill_cmd<E>(pid: ProcessId) -> (r: IOCmd<E>)
    ensures
        r@ == IOCmdV::KillProcess::<E>(pid.0 as int),
{
    IOCmd::KillProcess(pid)
}

/// Builds the command of `send`: deliver the message to the process.
pub fn send_cmd<E>(dst: ProcessId, msg: Val<E>) -> (r: IOCmd<E>)
    ensures
        r@ == IOCmdV::SendMessage(dst.0 as int, val_view(msg)),
{
    IOCmd::SendMessage(dst, msg)
}

/// Builds the command of `recv`: receive a message, with the one argument as
/// a pattern when given. More than one argument is rejected.
pub fn recv_cmd<E>(mut args: Vec<Val<E>>) -> (r: Result<IOCmd<E>, Error>)
    ensures
        ({
            let a = vals_view(args@);
            if a.len() == 0 {
                r is Ok && r->Ok_0@ == IOCmdV::Recv::<E>(None)
            } else if a.len() == 1 {
                r is Ok && r->Ok_0@ == IOCmdV::Recv(Some(a[0]))
            } else {
                r is Err && r->Err_0@ == ErrorV::UnexpectedArguments(
                    "recv expects one or no arguments - (recv [PATTERN])"@,
                )
            }
        }),
{
    proof {
        lemma_vals_view(args@);
    }
    if args.len() == 0 {
        Ok(IOCmd::Recv(None))
    } else if args.len() == 1 {
        let v = match args.pop() {
            Some(v) => v,
            None => {
                proof {
                    assert(false);
                }
                return Err(Error::InvalidOperation);
            },
        };
        Ok(IOCmd::Recv(Some(v)))
    } else {
        Err(
            Error::UnexpectedArguments(
                "recv expects one or no arguments - (recv [PATTERN])".to_owned(),
            ),
        )
    }
}

/// Builds the command of `ls-msgs`: list the pending messages. Arguments are
/// rejected.
pub fn ls_msgs_cmd<E>(args: &Vec<Val<E>>) -> (r: Result<IOCmd<E>, Error>)
    ensures
        ({
            let a = vals_view(args@);
            if a.len() == 0 {
                r is Ok && r->Ok_0@ == IOCmdV::ListMessages::<E>
            } else {
                r is Err && r->Err_0@ == ErrorV::InvalidExpression(
                    "ls-msgs expects no arguments"@,
                )
            }
        }),
{
    proof {
        lemma_vals_view(args@);
    }
    if args.len() == 0 {
        Ok(IOCmd::ListMessages)
    } else {
        Err(Error::InvalidExpression("ls-msgs expects no arguments".to_owned()))
    }
}

/// Whether every value is a string, as `exec`'s arguments must be.
pub open spec fn all_strings<E>(a: Seq<ValV<E>>) -> bool
    decreases a.len(),
{
    a.len() == 0 || (all_strings(a.drop_last()) && a.last() is Str)
}

/// The texts of a sequence of string values.
pub open spec fn string_texts<E>(a: Seq<ValV<E>>) -> Seq<Seq<char>>
    decreases a.len(),
{
    if a.len() == 0 {
        Seq::empty()
    } else {
        string_texts(a.drop_last()).push(a.last()->Str_0)
    }
}

/// `all_strings` and `string_texts`, elementwise.
pub broadcast proof fn lemma_strings<E>(a: Seq<ValV<E>>)
    ensures
        (#[trigger] all_strings(a)) <==> (forall|i: int|
            0 <= i < a.len() ==> (#[trigger] a[i]) is Str),
        string_texts(a).len() == a.len(),
        all_strings(a) ==> forall|i: int|
            0 <= i < a.len() ==> #[trigger] string_texts(a)[i] == a[i]->Str_0,
    decreases a.len(),
{
    if a.len() > 0 {
        lemma_strings(a.drop_last());
        assert(forall|i: int| 0 <= i < a.len() - 1 ==> a.drop_last()[i] == a[i]);
        if forall|i: int| 0 <= i < a.len() ==> (#[trigger] a[i]) is Str {
            assert(a.last() is Str);
        }
    }
}

/// Builds the command of `exec`: run the named program on the given
/// arguments. The program and every argument must be strings; anything else
/// is rejected, naming the first fault.
pub fn exec_cmd<E>(args: &Vec<Val<E>>) -> (r: Result<IOCmd<E>, Error>)
    ensures
        ({
            let a = vals_view(args@);
            if a.len() == 0 {
                r is Err && r->Err_0@ == ErrorV::UnexpectedArguments(
                    "exec expects a program - (exec PROG [ARGS...])"@,
                )
            } else if !(a[0] is Str) {
                r is Err && r->Err_0@ == ErrorV::UnexpectedArguments(
                    "Expected string as first argument"@,
                )
            } else if !all_strings(a.skip(1)) {
                r is Err && r->Err_0@ == ErrorV::UnexpectedArguments(
                    "exec can handle string arguments only"@,
                )
            } else {
                r is Ok && r->Ok_0@ == IOCmdV::Exec::<E>(a[0]->Str_0, string_texts(a.skip(1)))
            }
        }),
{
    broadcast use lemma_vals_view;
    broadcast use lemma_strings;

    let ghost a = vals_view(args@);
    if args.len() == 0 {
        return Err(
            Error::UnexpectedArguments("exec expects a program - (exec PROG [ARGS...])".to_owned()),
        );
    }
    let prog: String = match &args[0] {
        Val::String(s) => s.clone(),
        _ => {
            return Err(Error::UnexpectedArguments("Expected string as first argument".to_owned()));
        },
    };
    let mut rest: Vec<String> = Vec::new();
    let mut j: usize = 1;
    while j < args.len()
        invariant
            1 <= j <= args@.len(),
            a == vals_view(args@),
            a.len() == args@.len(),
            a.len() >= 1,
            a[0] is Str,
            rest@.len() == j - 1,
            forall|k: int| 0 <= k < j - 1 ==> a.skip(1)[k] is Str,
            forall|k: int| 0 <= k < j - 1 ==> #[trigger] rest@[k]@ == a.skip(1)[k]->Str_0,
        decreases args@.len() - j,
    {
        proof {
            broadcast use lemma_vals_view;

            assert(a.skip(1)[j - 1] == a[j as int]);
        }
        match &args[j] {
            Val::String(s) => {
                rest.push(s.clone());
            },
            _ => {
                proof {
                    lemma_strings(a.skip(1));
                    assert(!(a.skip(1)[j - 1] is Str));
                    assert(!all_strings(a.skip(1)));
                }
                return Err(
                    Error::UnexpectedArguments("exec can handle string arguments only".to_owned()),
                );
            },
        }
        j += 1;
    }
    proof {
        lemma_strings(a.skip(1));
        assert forall|k: int| 0 <= k < a.skip(1).len() implies (#[trigger] a.skip(1)[k])
            is Str by {}
        assert(all_strings(a.skip(1)));
        assert(rest@.map_values(|x: String| x@) =~= string_texts(a.skip(1)));
    }
    Ok(IOCmd::Exec(prog, rest))
}

impl<E: Extern> IOCmd<E> {
    /// Clones the command; the copy has the same model.
    pub fn duplicate(&self) -> (r: Self)
        ensures
            r@ == self@,
    {
        match self {
            IOCmd::RecvRequest => IOCmd::RecvRequest,
            IOCmd::SendRequest(v) => IOCmd::SendRequest(v.duplicate()),
            IOCmd::ListProcesses => IOCmd::ListProcesses,
            IOCmd::KillProcess(p) => IOCmd::KillProcess(ProcessId(p.0)),
            IOCmd::SendMessage(p, v) => IOCmd::SendMessage(ProcessId(p.0), v.duplicate()),
            IOCmd::Recv(p) => IOCmd::Recv(
                match p {
                    Some(v) => Some(v.duplicate()),
                    None => None,
                },
            ),
            IOCmd::ListMessages => IOCmd::ListMessages,
            IOCmd::Exec(prog, args) => {
                let mut out: Vec<String> = Vec::new();
                let mut j: usize = 0;
                while j < args.len()
                    invariant
                        j <= args@.len(),
                        out@.len() == j as int,
                        forall|k: int| 0 <= k < j ==> #[trigger] out@[k]@ == args@[k]@,
                    decreases args@.len() - j,
                {
                    out.push(args[j].clone());
                    j += 1;
                }
                proof {
                    assert(out@.map_values(|x: String| x@) =~= args@.map_values(
                        |x: String| x@,
                    ));
                }
                IOCmd::Exec(prog.clone(), out)
            },
        }
    }
}

} // verus!
