//! The unified error kind for compile-time and run-time failures.
use vstd::prelude::*;

verus! {

use crate::types::SymbolId;

/// Errors raised while lexing, parsing, compiling or running an expression.
///
/// A value of this kind can also travel through the machine as a first-class
/// value (see `Val::Error`), which is how `peval` reports a caught failure.
#[derive(Debug, Clone, PartialEq)]
pub enum Error {
    /// The source text could not be tokenized.
    FailedToLex(String),
    /// The token stream is not a well-formed expression.
    FailedToParse(String),
    /// An empty list was compiled as a call.
    EmptyExpression,
    /// A special form was used with the wrong shape.
    InvalidExpression(String),
    /// A special form symbol stood where a value was expected.
    UnexpectedOperator(String),
    /// A value outside the serializable subset was converted to a form.
    InvalidFormToExpr(String),
    /// A symbol was read or assigned but no frame defines it.
    UndefinedSymbol(SymbolId),
    /// A native function rejected the arguments it was given.
    UnexpectedArguments(String),
    /// A function was called with the wrong number of arguments.
    InvalidArgumentsToFunctionCall,
    /// A value that is not callable stood at the head of a call.
    InvalidOperation,
    /// The operand stack did not hold what an instruction needed.
    UnexpectedStack(String),
    /// The instruction pointer left the bytecode without completing a frame.
    NoMoreBytecode,
    /// A single resumption used up its instruction budget.
    ///
    /// Every resumption is bounded at `u64::MAX` dispatched instructions so
    /// that it provably ends; no practical program reaches the bound.
    OutOfFuel,
    /// `resume` or `resume_from_yield` was called in a state that cannot run.
    AlreadyRunning,
    /// `resume` or `resume_from_yield` was called on a finished fiber.
    AlreadyCompleted,
}

/// The mathematical model of an [`Error`]: text payloads become character
/// sequences.
pub enum ErrorV {
    FailedToLex(Seq<char>),
    FailedToParse(Seq<char>),
    EmptyExpression,
    InvalidExpression(Seq<char>),
    UnexpectedOperator(Seq<char>),
    InvalidFormToExpr(Seq<char>),
    UndefinedSymbol(Seq<char>),
    UnexpectedArguments(Seq<char>),
    InvalidArgumentsToFunctionCall,
    InvalidOperation,
    UnexpectedStack(Seq<char>),
    NoMoreBytecode,
    OutOfFuel,
    AlreadyRunning,
    AlreadyCompleted,
}

impl View for Error {
    type V = ErrorV;

    open spec fn view(&self) -> ErrorV {
        match self {
            Error::FailedToLex(s) => ErrorV::FailedToLex(s@),
            Error::FailedToParse(s) => ErrorV::FailedToParse(s@),
            Error::EmptyExpression => ErrorV::EmptyExpression,
            Error::InvalidExpression(s) => ErrorV::InvalidExpression(s@),
            Error::UnexpectedOperator(s) => ErrorV::UnexpectedOperator(s@),
            Error::InvalidFormToExpr(s) => ErrorV::InvalidFormToExpr(s@),
            Error::UndefinedSymbol(s) => ErrorV::UndefinedSymbol(s@),
            Error::UnexpectedArguments(s) => ErrorV::UnexpectedArguments(s@),
            Error::InvalidArgumentsToFunctionCall => ErrorV::InvalidArgumentsToFunctionCall,
            Error::InvalidOperation => ErrorV::InvalidOperation,
            Error::UnexpectedStack(s) => ErrorV::UnexpectedStack(s@),
            Error::NoMoreBytecode => ErrorV::NoMoreBytecode,
            Error::OutOfFuel => ErrorV::OutOfFuel,
            Error::AlreadyRunning => ErrorV::AlreadyRunning,
            Error::AlreadyCompleted => ErrorV::AlreadyCompleted,
        }
    }
}

impl Error {
    /// Clones the error; the copy has the same model.
    pub fn duplicate(&self) -> (r: Self)
        ensures
            r@ == self@,
    {
        match self {
            Error::FailedToLex(s) => Error::FailedToLex(s.clone()),
            Error::FailedToParse(s) => Error::FailedToParse(s.clone()),
            Error::EmptyExpression => Error::EmptyExpression,
            Error::InvalidExpression(s) => Error::InvalidExpression(s.clone()),
            Error::UnexpectedOperator(s) => Error::UnexpectedOperator(s.clone()),
            Error::InvalidFormToExpr(s) => Error::InvalidFormToExpr(s.clone()),
            Error::UndefinedSymbol(s) => Error::UndefinedSymbol(s.duplicate()),
            Error::UnexpectedArguments(s) => Error::UnexpectedArguments(s.clone()),
            Error::InvalidArgumentsToFunctionCall => Error::InvalidArgumentsToFunctionCall,
            Error::InvalidOperation => Error::InvalidOperation,
            Error::UnexpectedStack(s) => Error::UnexpectedStack(s.clone()),
            Error::NoMoreBytecode => Error::NoMoreBytecode,
            Error::OutOfFuel => Error::OutOfFuel,
            Error::AlreadyRunning => Error::AlreadyRunning,
            Error::AlreadyCompleted => Error::AlreadyCompleted,
        }
    }
}

} // verus!
