//! Errors raised while evaluating expressions.

use vstd::prelude::*;

use crate::names::QName;

verus! {

/// The kinds of error that navigation raises.
#[derive(Clone, Copy, Debug, PartialEq, Eq, Structural)]
pub enum ErrorKind {
    /// The context item is absent.
    DynamicAbsent,
    /// The context item is not a node.
    ContextNotNode,
    NotImplemented,
    Unknown,
}

/// An error: its kind, a message, and optionally an error code.
#[derive(Debug)]
pub struct Error {
    pub kind: ErrorKind,
    pub message: String,
    pub code: Option<QName>,
}

impl Error {
    pub fn new(kind: ErrorKind, message: String) -> (r: Self)
        ensures
            r.kind == kind,
            r.message@ == message@,
            r.code is None,
    {
        Error { kind, message, code: None }
    }

    pub fn new_with_code(kind: ErrorKind, message: &str, code: Option<QName>) -> (r: Self)
        ensures
            r.kind == kind,
            r.message@ == message@,
            r.code == code,
    {
        Error { kind, message: String::from_str(message), code }
    }
}

} // verus!
