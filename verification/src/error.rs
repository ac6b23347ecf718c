use vstd::prelude::*;

verus! {

/// The category of a failure.
#[derive(Debug)]
pub enum ErrorKind {
    General,
    Timeout,
    Abort,
}

/// An error of some category wrapping an inner cause.
#[derive(Debug)]
pub struct Error<E> {
    pub kind: ErrorKind,
    pub inner: E,
}

impl<E> Error<E> {
    /// Wraps `error` under the given kind.
    pub fn new(kind: ErrorKind, error: E) -> (r: Self)
        ensures
            r.kind == kind,
            r.inner == error,
    {
        Error { kind, inner: error }
    }

    /// Wraps `error` as a general failure.
    pub fn general(error: E) -> (r: Self)
        ensures
            r.kind == ErrorKind::General,
            r.inner == error,
    {
        Self::new(ErrorKind::General, error)
    }

    /// Wraps `error` as a timeout.
    pub fn timeout(error: E) -> (r: Self)
        ensures
            r.kind == ErrorKind::Timeout,
            r.inner == error,
    {
        Self::new(ErrorKind::Timeout, error)
    }

    /// Wraps `error` as an abort.
    pub fn abort(error: E) -> (r: Self)
        ensures
            r.kind == ErrorKind::Abort,
            r.inner == error,
    {
        Self::new(ErrorKind::Abort, error)
    }
}

} // verus!
