//! Alternation: `or`, `optional` and `expect`.

use crate::error::{Error, ParseResult, Recover};
use crate::parser::Parser;
use vstd::prelude::*;

verus! {

impl<'a, I: Copy + 'a, O: 'a, E: 'a> Parser<'a, I, O, E> {
    /// Whether `self`, and `other` behind it, may be run: `self` at the offset
    /// of the call, and `other` there too if `self` can fail recoverably. A
    /// parser whose failures are all fatal keeps `other` from ever running.
    pub open spec fn or_accepts(&self, other: &Self, input: I, at: usize) -> bool {
        &&& self.accepts(input, at)
        &&& forall|ra: ParseResult<O, E>| #[trigger]
            self.yields(input, at, ra) ==> (ra matches Err(e) && e.recover == Recover::Recoverable
                ==> other.accepts(input, at))
    }

    /// The results of `self.or(other)`: a success or a fatal failure of
    /// `self` as it is, and behind a recoverable failure of `self` whatever
    /// `other` returns from the same offset.
    pub open spec fn or_yields(
        &self,
        other: &Self,
        input: I,
        at: usize,
        r: ParseResult<O, E>,
    ) -> bool {
        exists|ra: ParseResult<O, E>| #[trigger]
            self.yields(input, at, ra) && match ra {
                Ok(_) => r == ra,
                Err(e) => match e.recover {
                    Recover::Recoverable => other.yields(input, at, r),
                    Recover::Fatal => r == ra,
                },
            }
    }

    /// Parse with `self`; on failure, parse with `other`.
    /// Fatal errors will short-circuit.
    pub fn or(self, other: Parser<'a, I, O, E>) -> (p: Parser<'a, I, O, E>)
        ensures
            forall|input: I, at: usize|
                self.or_accepts(&other, input, at) ==> #[trigger] p.accepts(input, at),
            forall|input: I, at: usize, r: ParseResult<O, E>| #[trigger]
                p.yields(input, at, r) ==> self.or_yields(&other, input, at, r),
            forall|inv: spec_fn(I, usize) -> bool|
                self.preserves(inv) && other.preserves(inv) ==> #[trigger] p.preserves(inv),
            forall|input: I| self.single(input) && other.single(input) ==> #[trigger] p.single(input),
    {
        let run = move |input: I, at: usize| -> (r: ParseResult<O, E>)
            requires
                self.or_accepts(&other, input, at),
            ensures
                self.or_yields(&other, input, at, r),
            {
                match self.parse_at(input, at) {
                    Ok(ok) => Ok(ok),
                    Err(err) => match err.recover {
                        Recover::Recoverable => other.parse_at(input, at),
                        Recover::Fatal => Err(err),
                    },
                }
            };
        Parser::new(run)
    }

    /// The results of `self.optional()`: the output of `self` in `Some`, or
    /// `None` at the offset of the call behind a recoverable failure, or the
    /// fatal failure of `self`.
    pub open spec fn optional_yields(
        &self,
        input: I,
        at: usize,
        r: ParseResult<Option<O>, E>,
    ) -> bool {
        exists|ra: ParseResult<O, E>| #[trigger]
            self.yields(input, at, ra) && r == match ra {
                Ok((o, rest)) => Ok::<(Option<O>, usize), Error<E>>((Some(o), rest)),
                Err(e) => match e.recover {
                    Recover::Recoverable => Ok((None, at)),
                    Recover::Fatal => Err(e),
                },
            }
    }

    /// Make this parser optional. Succeeds on recoverable errors, with
    /// `None` and the offset of the call; fatal errors pass through.
    pub fn optional(self) -> (p: Parser<'a, I, Option<O>, E>)
        ensures
            forall|input: I, at: usize| self.accepts(input, at) ==> #[trigger] p.accepts(input, at),
            forall|input: I, at: usize, r: ParseResult<Option<O>, E>| #[trigger]
                p.yields(input, at, r) ==> self.optional_yields(input, at, r),
            forall|input: I, at: usize, r: ParseResult<Option<O>, E>| #[trigger]
                p.yields(input, at, r) ==> match r {
                    Ok((None, rest)) => rest == at,
                    Ok(_) => true,
                    Err(e) => e.recover == Recover::Fatal,
                },
            forall|inv: spec_fn(I, usize) -> bool|
                self.preserves(inv) ==> #[trigger] p.preserves(inv),
            forall|input: I| self.single(input) ==> #[trigger] p.single(input),
    {
        let run = move |input: I, at: usize| -> (r: ParseResult<Option<O>, E>)
            requires
                self.accepts(input, at),
            ensures
                self.optional_yields(input, at, r),
            {
                match self.parse_at(input, at) {
                    Ok((o, rest)) => Ok((Some(o), rest)),
                    Err(err) => match err.recover {
                        Recover::Recoverable => Ok((None, at)),
                        Recover::Fatal => Err(err),
                    },
                }
            };
        Parser::new(run)
    }

    /// The results of `self.expect()`: those of `self`, with every failure
    /// made fatal.
    pub open spec fn expect_yields(&self, input: I, at: usize, r: ParseResult<O, E>) -> bool {
        exists|ra: ParseResult<O, E>| #[trigger]
            self.yields(input, at, ra) && match ra {
                Ok(_) => r == ra,
                Err(e) => r == Err::<(O, usize), Error<E>>(
                    Error { inner: e.inner, recover: Recover::Fatal, at: e.at },
                ),
            }
    }

    /// Make a parser yield a fatal error on failure. This should be used in
    /// situations where a previous parser guarantees that this is the only
    /// correct parsing path.
    ///
    /// The failure keeps its inner value and its offset; a success is left
    /// as it is.
    pub fn expect(self) -> (p: Parser<'a, I, O, E>)
        ensures
            forall|input: I, at: usize| self.accepts(input, at) ==> #[trigger] p.accepts(input, at),
            forall|input: I, at: usize, r: ParseResult<O, E>| #[trigger]
                p.yields(input, at, r) ==> self.expect_yields(input, at, r),
            forall|inv: spec_fn(I, usize) -> bool|
                self.preserves(inv) ==> #[trigger] p.preserves(inv),
            forall|input: I| self.single(input) ==> #[trigger] p.single(input),
    {
        let run = move |input: I, at: usize| -> (r: ParseResult<O, E>)
            requires
                self.accepts(input, at),
            ensures
                self.expect_yields(input, at, r),
            {
                match self.parse_at(input, at) {
                    Ok(ok) => Ok(ok),
                    Err(err) => Err(err.fail()),
                }
            };
        Parser::new(run)
    }
}

} // verus!
