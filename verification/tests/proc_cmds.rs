//! Tests of the process command constructors.
use lyric::{
    Error, IOCmd, ProcessId, Val, exec_cmd, kill_cmd, ls_msgs_cmd, pid_value, ps_cmd, recv_cmd,
    recv_req_cmd, send_cmd, send_resp_cmd,
};

type V = Val<()>;

#[test]
fn plain_commands() {
    assert_eq!(recv_req_cmd::<()>(), IOCmd::RecvRequest);
    assert_eq!(ps_cmd::<()>(), IOCmd::ListProcesses);
    assert_eq!(kill_cmd::<()>(ProcessId(3)), IOCmd::KillProcess(ProcessId(3)));
    assert_eq!(
        send_cmd::<()>(ProcessId(2), V::Int(9)),
        IOCmd::SendMessage(ProcessId(2), V::Int(9))
    );
}

#[test]
fn send_resp_takes_one_argument() {
    assert_eq!(
        send_resp_cmd::<()>(vec![V::Int(3)]),
        Ok(IOCmd::SendRequest(V::Int(3)))
    );
    assert!(matches!(
        send_resp_cmd::<()>(vec![]),
        Err(Error::InvalidExpression(_))
    ));
    assert!(matches!(
        send_resp_cmd::<()>(vec![V::Nil, V::Nil]),
        Err(Error::InvalidExpression(_))
    ));
}

#[test]
fn pid_takes_one_nonnegative_integer() {
    assert_eq!(pid_value::<()>(&vec![V::Int(7)]), Ok(ProcessId(7)));
    assert!(matches!(
        pid_value::<()>(&vec![V::string("7")]),
        Err(Error::UnexpectedArguments(_))
    ));
    assert!(matches!(
        pid_value::<()>(&vec![V::Int(-1)]),
        Err(Error::UnexpectedArguments(_))
    ));
    assert!(matches!(pid_value::<()>(&vec![]), Err(Error::UnexpectedArguments(_))));
}

#[test]
fn recv_takes_an_optional_pattern() {
    assert_eq!(recv_cmd::<()>(vec![]), Ok(IOCmd::Recv(None)));
    assert_eq!(
        recv_cmd::<()>(vec![V::keyword("k")]),
        Ok(IOCmd::Recv(Some(V::keyword("k"))))
    );
    assert!(matches!(
        recv_cmd::<()>(vec![V::Nil, V::Nil]),
        Err(Error::UnexpectedArguments(_))
    ));
}

#[test]
fn ls_msgs_takes_no_arguments() {
    assert_eq!(ls_msgs_cmd::<()>(&vec![]), Ok(IOCmd::ListMessages));
    assert!(matches!(
        ls_msgs_cmd::<()>(&vec![V::Nil]),
        Err(Error::InvalidExpression(_))
    ));
}

#[test]
fn exec_takes_strings_only() {
    assert_eq!(
        exec_cmd::<()>(&vec![V::string("ls"), V::string("-l"), V::string("/tmp")]),
        Ok(IOCmd::Exec("ls".to_owned(), vec!["-l".to_owned(), "/tmp".to_owned()]))
    );
    assert!(matches!(exec_cmd::<()>(&vec![]), Err(Error::UnexpectedArguments(_))));
    assert!(matches!(
        exec_cmd::<()>(&vec![V::Int(1)]),
        Err(Error::UnexpectedArguments(_))
    ));
    assert!(matches!(
        exec_cmd::<()>(&vec![V::string("ls"), V::Int(1)]),
        Err(Error::UnexpectedArguments(_))
    ));
}
