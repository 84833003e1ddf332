//! Error kinds returned by kernel operations and gates.

use vstd::prelude::*;

verus! {

/// The reason an operation was refused.
#[derive(Clone, Copy, Debug, PartialEq, Eq, Structural)]
pub enum Code {
    /// A selector, range, size or order is malformed.
    InvArgs,
    /// The addressed selector holds no capability.
    NoSuchCap,
    /// The selector is already occupied.
    AlreadyExists,
    /// No memory module can satisfy the request.
    OutOfMem,
    /// Every endpoint is bound to a gate.
    NoFreeEps,
    /// A finite credit budget is used up.
    MissCredits,
    /// A receive buffer cannot take what was asked of it.
    NoSpace,
}

/// An error value: a [`Code`].
#[derive(Clone, Copy, Debug, PartialEq, Eq, Structural)]
pub struct Error {
    code: Code,
}

impl Error {
    /// The code this error carries.
    pub closed spec fn code_spec(&self) -> Code {
        self.code
    }

    /// Makes an error of the given kind.
    pub fn new(code: Code) -> (e: Error)
        ensures
            e.code_spec() == code,
    {
        Error { code }
    }

    /// The kind of this error.
    #[verifier::when_used_as_spec(code_spec)]
    pub fn code(&self) -> (c: Code)
        ensures
            c == self.code_spec(),
    {
        self.code
    }
}

} // verus!
