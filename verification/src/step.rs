//! How a step of the reflection can end.

use vstd::prelude::*;

use crate::error::{Error, ErrorView};

verus! {

/// How a step ends, as far as it can be told from its inputs.
pub enum Step<T> {
    /// It succeeds.
    Done(T),
    /// It fails with an error.
    Fail(ErrorView),
    /// It meets a type that no format can describe and that it does not know how to refuse.
    Unsupported,
    /// It is not carried out to the end.
    Stuck,
}

/// Why a step did not succeed.
#[derive(Debug, PartialEq, Eq)]
pub enum Halt {
    /// The types cannot be reflected.
    Error(Error),
    /// A type was met that has no format and that there is no error for: a `!`, an integer or a
    /// float of unusual width, a union.
    Unsupported,
}

/// Whether a step that did not succeed ended in `halt`.
pub open spec fn halts<T>(step: Step<T>, halt: Halt) -> bool {
    match (step, halt) {
        (Step::Fail(e), Halt::Error(f)) => f@ == e,
        (Step::Unsupported, Halt::Unsupported) => true,
        _ => false,
    }
}

impl Halt {
    /// The error that a step ended in.
    pub fn into_error(self) -> (r: Error)
        requires
            self is Error,
        ensures
            self == Halt::Error(r),
    {
        match self {
            Halt::Error(e) => e,
            Halt::Unsupported => vstd::pervasive::unreached(),
        }
    }
}

} // verus!
