//! The error taxonomy shared by every component.

use vstd::prelude::*;

verus! {

/// Every way an operation of this crate can fail.
#[derive(Clone, Copy, Debug, PartialEq, Eq, Structural)]
pub enum NP_Error {
    /// A textual or compiled schema is malformed, or a portal path names no node.
    Schema,
    /// A read or write reaches outside the buffer, or a stored address is inconsistent.
    Address,
    /// An allocation would push the buffer past the 32-bit address space.
    Allocation,
    /// A traversal went deeper than the recursion limit.
    RecursionLimit,
    /// Stored bytes do not decode as the declared type, or a value does not fit it.
    Encoding,
    /// The bytes of a buffer were asked for while other holders remain.
    Ownership,
}

impl NP_Error {
    /// A short description of the error.
    pub fn message(&self) -> (r: &'static str)
        ensures
            r@ == Self::message_text(*self),
    {
        match self {
            NP_Error::Schema => "schema error",
            NP_Error::Address => "address out of bounds",
            NP_Error::Allocation => "allocation too large",
            NP_Error::RecursionLimit => "recursion limit exceeded",
            NP_Error::Encoding => "encoding error",
            NP_Error::Ownership => "buffer has other holders",
        }
    }

    /// The text that `message` returns for each error.
    pub open spec fn message_text(e: NP_Error) -> Seq<char> {
        match e {
            NP_Error::Schema => "schema error"@,
            NP_Error::Address => "address out of bounds"@,
            NP_Error::Allocation => "allocation too large"@,
            NP_Error::RecursionLimit => "recursion limit exceeded"@,
            NP_Error::Encoding => "encoding error"@,
            NP_Error::Ownership => "buffer has other holders"@,
        }
    }
}

} // verus!
