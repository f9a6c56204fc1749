//! Failures of a parser, and how far they may be recovered from.

use vstd::prelude::*;

verus! {

/// Whether a failure leaves room for another way to parse the same input.
#[derive(Clone, Copy, Debug, PartialEq, Eq, Structural)]
pub enum Recover {
    /// This branch did not match; an alternative may still succeed.
    Recoverable,
    /// The grammar had committed to this path; no alternative is tried.
    Fatal,
}

/// One failed attempt to parse: what went wrong, whether alternatives may
/// still be tried, and the offset at which the failure was detected.
#[derive(Debug, PartialEq, Eq)]
pub struct Error<E> {
    pub inner: E,
    pub recover: Recover,
    pub at: usize,
}

/// What a parser returns: its output with the offset behind what it
/// consumed, or the failure.
pub type ParseResult<O, E> = Result<(O, usize), Error<E>>;

impl<E: Clone> Clone for Error<E> {
    fn clone(&self) -> (r: Self)
        ensures
            cloned(self.inner, r.inner),
            r.recover == self.recover,
            r.at == self.at,
    {
        Error { inner: self.inner.clone(), recover: self.recover, at: self.at }
    }
}

impl<E> Error<E> {
    /// A recoverable failure at offset `at`.
    pub fn new(inner: E, at: usize) -> (r: Self)
        ensures
            r == (Error { inner, recover: Recover::Recoverable, at }),
    {
        Self { inner, recover: Recover::Recoverable, at }
    }

    /// Map the error's inner value; recoverability and offset stay.
    pub fn map<F, E1>(self, f: F) -> (r: Error<E1>) where F: Fn(E) -> E1
        requires
            call_requires(f, (self.inner,)),
        ensures
            call_ensures(f, (self.inner,), r.inner),
            r.recover == self.recover,
            r.at == self.at,
    {
        let Error { inner, recover, at } = self;
        Error { inner: f(inner), recover, at }
    }

    /// Make this error fatal; its inner value and offset stay.
    #[must_use]
    pub fn fail(self) -> (r: Error<E>)
        ensures
            r == (Error { inner: self.inner, recover: Recover::Fatal, at: self.at }),
    {
        Error { recover: Recover::Fatal, ..self }
    }
}

} // verus!
