//! The error taxonomy of the marshaling boundary.
//!
//! Every failure is either a type error (a host or canonical value of a kind
//! the other side cannot represent) or a value error (a value of the right
//! kind but outside what the boundary accepts, and every failure surfaced by
//! the external compile/evaluate collaborator).

use vstd::prelude::*;

verus! {

/// The two general kinds of failure the boundary distinguishes.
#[derive(Clone, Copy, Debug, PartialEq, Eq, Structural)]
pub enum ErrorKind {
    TypeError,
    ValueError,
}

/// A marshaling or evaluation failure.
#[derive(Debug)]
pub enum Error {
    /// Encoding met a host value of a kind with no canonical representation,
    /// including the sentinel nested inside another value.
    UnsupportedType,
    /// Encoding met a mapping key that is not a string.
    NonStringKey,
    /// A key of the bindings mapping handed to an evaluation is not a string.
    NonStringBindingKey,
    /// Encoding met a floating-point value that is not finite.
    NonFiniteFloat,
    /// Decoding met a callable or pattern value with no host representation.
    UnsupportedValue,
    /// Decoding met `Undefined` before the sentinel slot was initialized.
    SentinelUninitialized,
    /// The external compile/evaluate collaborator failed; its descriptive
    /// message is preserved verbatim.
    Engine(String),
}

impl Error {
    /// The kind of this failure.
    pub open spec fn kind_view(self) -> ErrorKind {
        match self {
            Error::UnsupportedType => ErrorKind::TypeError,
            Error::NonStringKey => ErrorKind::TypeError,
            Error::NonStringBindingKey => ErrorKind::TypeError,
            Error::NonFiniteFloat => ErrorKind::ValueError,
            Error::UnsupportedValue => ErrorKind::TypeError,
            Error::SentinelUninitialized => ErrorKind::ValueError,
            Error::Engine(_) => ErrorKind::ValueError,
        }
    }

    /// The human-readable description carried by this failure.
    pub open spec fn message_view(self) -> Seq<char> {
        match self {
            Error::UnsupportedType => "unsupported type for JSON conversion"@,
            Error::NonStringKey => "dict keys must be strings"@,
            Error::NonStringBindingKey => "bindings keys must be strings"@,
            Error::NonFiniteFloat => "float value is not finite"@,
            Error::UnsupportedValue => {
                "unsupported JSONata value type for host conversion"@
            },
            Error::SentinelUninitialized => "UNDEFINED not initialized"@,
            Error::Engine(msg) => msg@,
        }
    }

    pub fn kind(&self) -> (r: ErrorKind)
        ensures
            r == self.kind_view(),
    {
        match self {
            Error::UnsupportedType => ErrorKind::TypeError,
            Error::NonStringKey => ErrorKind::TypeError,
            Error::NonStringBindingKey => ErrorKind::TypeError,
            Error::NonFiniteFloat => ErrorKind::ValueError,
            Error::UnsupportedValue => ErrorKind::TypeError,
            Error::SentinelUninitialized => ErrorKind::ValueError,
            Error::Engine(_) => ErrorKind::ValueError,
        }
    }

    pub fn message(&self) -> (r: &str)
        ensures
            r@ == self.message_view(),
    {
        match self {
            Error::UnsupportedType => "unsupported type for JSON conversion",
            Error::NonStringKey => "dict keys must be strings",
            Error::NonStringBindingKey => "bindings keys must be strings",
            Error::NonFiniteFloat => "float value is not finite",
            Error::UnsupportedValue => {
                "unsupported JSONata value type for host conversion"
            },
            Error::SentinelUninitialized => "UNDEFINED not initialized",
            Error::Engine(msg) => msg.as_str(),
        }
    }
}

} // verus!
