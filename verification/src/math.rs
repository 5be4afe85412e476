//! A result type for chained arithmetic over domain quantities: the same
//! shape as the crate's result, interchangeable with it in both directions,
//! so a computation can collect the first domain failure and hand it on
//! unchanged.

use vstd::prelude::*;

verus! {

/// The outcome of one arithmetic step: a value, or the first failure.
pub enum MathResult<T> {
    Value(T),
    Failure(crate::Error),
}

impl<T> MathResult<T> {
    /// Whether the computation succeeded so far.
    pub fn is_ok(&self) -> (r: bool)
        ensures
            r == (self is Value),
    {
        match self {
            MathResult::Value(_) => true,
            MathResult::Failure(_) => false,
        }
    }
}

impl<T> core::convert::From<MathResult<T>> for crate::Result<T> {
    /// A math result, as the crate's result it stands for.
    fn from(m: MathResult<T>) -> (r: crate::Result<T>) {
        match m {
            MathResult::Value(t) => Ok(t),
            MathResult::Failure(e) => Err(e),
        }
    }
}

impl<T> vstd::std_specs::convert::FromSpecImpl<MathResult<T>> for crate::Result<T> {
    open spec fn obeys_from_spec() -> bool {
        true
    }

    open spec fn from_spec(m: MathResult<T>) -> crate::Result<T> {
        match m {
            MathResult::Value(t) => Ok(t),
            MathResult::Failure(e) => Err(e),
        }
    }
}

impl<T> core::convert::From<crate::Result<T>> for MathResult<T> {
    /// A crate result, as the math result it stands for.
    fn from(r: crate::Result<T>) -> (m: MathResult<T>) {
        match r {
            Ok(t) => MathResult::Value(t),
            Err(e) => MathResult::Failure(e),
        }
    }
}

impl<T> vstd::std_specs::convert::FromSpecImpl<crate::Result<T>> for MathResult<T> {
    open spec fn obeys_from_spec() -> bool {
        true
    }

    open spec fn from_spec(r: crate::Result<T>) -> MathResult<T> {
        match r {
            Ok(t) => MathResult::Value(t),
            Err(e) => MathResult::Failure(e),
        }
    }
}

} // verus!
