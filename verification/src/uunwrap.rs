//! Unchecked unwrapping: extraction of the success payload of an `Option` or
//! `Result` whose contract rules the failing case out, so no panic machinery
//! is ever reached.

use vstd::prelude::*;

verus! {

/// A container whose single payload can be taken when it is known present.
pub trait UUnwrap: Sized {
    type Inner;

    /// The payload is present.
    spec fn has_inner(&self) -> bool;

    /// The payload.
    spec fn inner(&self) -> Self::Inner;

    /// Takes the payload; callers must prove it present.
    fn uunwrap(self) -> (r: Self::Inner)
        requires
            self.has_inner(),
        ensures
            r == self.inner(),
    ;
}

impl<T> UUnwrap for Option<T> {
    type Inner = T;

    open spec fn has_inner(&self) -> bool {
        self is Some
    }

    open spec fn inner(&self) -> T {
        self->0
    }

    fn uunwrap(self) -> (r: T) {
        match self {
            Some(v) => v,
            None => vstd::pervasive::unreached(),
        }
    }
}

impl<T, U> UUnwrap for Result<T, U> {
    type Inner = T;

    open spec fn has_inner(&self) -> bool {
        self is Ok
    }

    open spec fn inner(&self) -> T {
        self->Ok_0
    }

    fn uunwrap(self) -> (r: T) {
        match self {
            Ok(v) => v,
            Err(_) => vstd::pervasive::unreached(),
        }
    }
}

} // verus!
