//! The errors of the kernels.

use vstd::prelude::*;
use vstd::string::StringExecFns;

verus! {

/// What can go wrong when a mesh is refined or evaluated.
#[derive(Debug, Clone, PartialEq, Eq)]
#[non_exhaustive]
pub enum KernelError {
    /// The mesh or its side tables break a rule of the kernels.
    InvalidTopology(&'static str),
    /// The combination of options has no implementation.
    NotImplemented(&'static str),
    /// The graphics device failed.
    Gpu(String),
}

/// The two texts joined.
pub(crate) fn joined(first: &str, second: &str) -> (r: String)
    ensures
        r@ == first@ + second@,
{
    first.to_owned().concat(second)
}

impl KernelError {
    /// The message, with the kind of the error in front.
    pub open spec fn text(self) -> Seq<char> {
        match self {
            KernelError::InvalidTopology(detail) => "invalid topology: "@ + detail@,
            KernelError::NotImplemented(detail) => "not implemented: "@ + detail@,
            KernelError::Gpu(detail) => "gpu error: "@ + detail@,
        }
    }

    /// The message, with the kind of the error in front.
    pub fn message(&self) -> (r: String)
        ensures
            r@ == self.text(),
    {
        match self {
            KernelError::InvalidTopology(detail) => joined("invalid topology: ", detail),
            KernelError::NotImplemented(detail) => joined("not implemented: ", detail),
            KernelError::Gpu(detail) => joined("gpu error: ", detail.as_str()),
        }
    }
}

} // verus!
