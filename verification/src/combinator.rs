//! Combinators that change what a parser returns: its output, its error, or
//! whether a success counts.

use crate::error::{Error, ParseResult, Recover};
use crate::parser::Parser;
use vstd::prelude::*;

verus! {

impl<'a, I: Copy + 'a, O: 'a, E: 'a> Parser<'a, I, O, E> {
    /// Whether `self` may be run and `f` may be given every output of it.
    pub open spec fn map_accepts<O1, F: Fn(O) -> O1>(&self, f: &F, input: I, at: usize) -> bool {
        &&& self.accepts(input, at)
        &&& forall|ra: ParseResult<O, E>| #[trigger]
            self.yields(input, at, ra) ==> (ra matches Ok((o, _)) ==> call_requires(*f, (o,)))
    }

    /// The results of `self.map(f)`: a success of `self` with what `f` makes of
    /// its output, at the same offset, or the failure of `self`.
    pub open spec fn map_yields<O1, F: Fn(O) -> O1>(
        &self,
        f: &F,
        input: I,
        at: usize,
        r: ParseResult<O1, E>,
    ) -> bool {
        exists|ra: ParseResult<O, E>| #[trigger]
            self.yields(input, at, ra) && match ra {
                Ok((o, rest)) => r matches Ok((o1, rest1)) && rest1 == rest && call_ensures(
                    *f,
                    (o,),
                    o1,
                ),
                Err(e) => r == Err::<(O1, usize), Error<E>>(e),
            }
    }

    /// Map the parser's output, i.e. turn a `Parser<I, O, E>` into a `Parser<I, O1, E>`.
    /// Offsets and failures pass through unchanged.
    pub fn map<O1: 'a, F>(self, f: F) -> (p: Parser<'a, I, O1, E>) where F: Fn(O) -> O1 + 'a
        ensures
            forall|input: I, at: usize|
                self.map_accepts(&f, input, at) ==> #[trigger] p.accepts(input, at),
            forall|input: I, at: usize, r: ParseResult<O1, E>| #[trigger]
                p.yields(input, at, r) ==> self.map_yields(&f, input, at, r),
            (forall|o: O| call_requires(f, (o,))) ==> forall|inv: spec_fn(I, usize) -> bool|
                self.preserves(inv) ==> #[trigger] p.preserves(inv),
            (forall|o: O, a: O1, b: O1|
                call_ensures(f, (o,), a) && call_ensures(f, (o,), b) ==> a == b)
                ==> forall|input: I| self.single(input) ==> #[trigger] p.single(input),
    {
        let run = move |input: I, at: usize| -> (r: ParseResult<O1, E>)
            requires
                self.map_accepts(&f, input, at),
            ensures
                self.map_yields(&f, input, at, r),
            {
                match self.parse_at(input, at) {
                    Ok((o, rest)) => Ok((f(o), rest)),
                    Err(e) => Err(e),
                }
            };
        Parser::new(run)
    }

    /// Whether `self` may be run and `f` may be given the inner value of every
    /// failure of it.
    pub open spec fn map_err_accepts<E1, F: Fn(E) -> E1>(&self, f: &F, input: I, at: usize) -> bool {
        &&& self.accepts(input, at)
        &&& forall|ra: ParseResult<O, E>| #[trigger]
            self.yields(input, at, ra) ==> (ra matches Err(e) ==> call_requires(*f, (e.inner,)))
    }

    /// The results of `self.map_err(f)`: the success of `self`, or a failure
    /// of `self` with what `f` makes of its inner value, as recoverable as it
    /// was and at the same offset.
    pub open spec fn map_err_yields<E1, F: Fn(E) -> E1>(
        &self,
        f: &F,
        input: I,
        at: usize,
        r: ParseResult<O, E1>,
    ) -> bool {
        exists|ra: ParseResult<O, E>| #[trigger]
            self.yields(input, at, ra) && match ra {
                Ok(ok) => r == Ok::<(O, usize), Error<E1>>(ok),
                Err(e) => r matches Err(e1) && e1.recover == e.recover && e1.at == e.at
                    && call_ensures(*f, (e.inner,), e1.inner),
            }
    }

    /// Map the parser's error, if any, i.e. turn a `Parser<I, O, E>` into a `Parser<I, O, E1>`.
    /// Successes, and the recoverability and offset of a failure, pass
    /// through unchanged.
    pub fn map_err<E1: 'a, F>(self, f: F) -> (p: Parser<'a, I, O, E1>) where F: Fn(E) -> E1 + 'a
        ensures
            forall|input: I, at: usize|
                self.map_err_accepts(&f, input, at) ==> #[trigger] p.accepts(input, at),
            forall|input: I, at: usize, r: ParseResult<O, E1>| #[trigger]
                p.yields(input, at, r) ==> self.map_err_yields(&f, input, at, r),
            (forall|e: E| call_requires(f, (e,))) ==> forall|inv: spec_fn(I, usize) -> bool|
                self.preserves(inv) ==> #[trigger] p.preserves(inv),
            (forall|e: E, a: E1, b: E1|
                call_ensures(f, (e,), a) && call_ensures(f, (e,), b) ==> a == b)
                ==> forall|input: I| self.single(input) ==> #[trigger] p.single(input),
    {
        let run = move |input: I, at: usize| -> (r: ParseResult<O, E1>)
            requires
                self.map_err_accepts(&f, input, at),
            ensures
                self.map_err_yields(&f, input, at, r),
            {
                match self.parse_at(input, at) {
                    Ok(ok) => Ok(ok),
                    Err(Error { inner, recover, at }) => Err(Error { inner: f(inner), recover, at }),
                }
            };
        Parser::new(run)
    }
    /// Whether `self` may be run, `f` may be given every output of it, and
    /// each parser that `f` makes may be run from the offset that `self`
    /// reached.
    pub open spec fn flat_map_accepts<O1, F: Fn(O) -> Parser<'a, I, O1, E>>(
        &self,
        f: &F,
        input: I,
        at: usize,
    ) -> bool {
        &&& self.accepts(input, at)
        &&& forall|ra: ParseResult<O, E>| #[trigger]
            self.yields(input, at, ra) ==> (ra matches Ok((o, rest)) ==> {
                &&& call_requires(*f, (o,))
                &&& forall|next: Parser<'a, I, O1, E>| #[trigger]
                    call_ensures(*f, (o,), next) ==> next.accepts(input, rest)
            })
    }

    /// The results of `self.flat_map(f)`: the failure of `self`, or what a
    /// parser that `f` makes from the output of `self` returns from the
    /// offset that `self` reached.
    pub open spec fn flat_map_yields<O1, F: Fn(O) -> Parser<'a, I, O1, E>>(
        &self,
        f: &F,
        input: I,
        at: usize,
        r: ParseResult<O1, E>,
    ) -> bool {
        exists|ra: ParseResult<O, E>| #[trigger]
            self.yields(input, at, ra) && match ra {
                Ok((o, rest)) => exists|next: Parser<'a, I, O1, E>| #[trigger]
                    call_ensures(*f, (o,), next) && next.yields(input, rest, r),
                Err(e) => r == Err::<(O1, usize), Error<E>>(e),
            }
    }

    /// Run `self`; on success, make a parser from its output with `f` and
    /// run that one from the offset reached.
    pub fn flat_map<O1: 'a, F>(self, f: F) -> (p: Parser<'a, I, O1, E>) where
        F: Fn(O) -> Parser<'a, I, O1, E> + 'a,

        ensures
            forall|input: I, at: usize|
                self.flat_map_accepts(&f, input, at) ==> #[trigger] p.accepts(input, at),
            forall|input: I, at: usize, r: ParseResult<O1, E>| #[trigger]
                p.yields(input, at, r) ==> self.flat_map_yields(&f, input, at, r),
            forall|inv: spec_fn(I, usize) -> bool|
                {
                    &&& self.preserves(inv)
                    &&& forall|o: O| call_requires(f, (o,))
                    &&& forall|o: O, next: Parser<'a, I, O1, E>|
                        call_ensures(f, (o,), next) ==> next.preserves(inv)
                } ==> #[trigger] p.preserves(inv),
    {
        let run = move |input: I, at: usize| -> (r: ParseResult<O1, E>)
            requires
                self.flat_map_accepts(&f, input, at),
            ensures
                self.flat_map_yields(&f, input, at, r),
            {
                match self.parse_at(input, at) {
                    Ok((o, rest)) => {
                        let next = f(o);
                        next.parse_at(input, rest)
                    },
                    Err(e) => Err(e),
                }
            };
        Parser::new(run)
    }

    /// Whether `self` may be run and `predicate` may be asked of every output
    /// of it.
    pub open spec fn filter_accepts<P: Fn(&O) -> bool>(
        &self,
        predicate: &P,
        input: I,
        at: usize,
    ) -> bool {
        &&& self.accepts(input, at)
        &&& forall|ra: ParseResult<O, E>| #[trigger]
            self.yields(input, at, ra) ==> (ra matches Ok((o, _)) ==> call_requires(
                *predicate,
                (&o,),
            ))
    }

    /// The results of `self.filter(predicate)`: a success of `self` of which
    /// `predicate` holds, a recoverable failure at the offset of the call
    /// where it does not hold, or a failure of `self` without its inner
    /// value.
    pub open spec fn filter_yields<P: Fn(&O) -> bool>(
        &self,
        predicate: &P,
        input: I,
        at: usize,
        r: ParseResult<O, ()>,
    ) -> bool {
        exists|ra: ParseResult<O, E>| #[trigger]
            self.yields(input, at, ra) && match ra {
                Ok((o, rest)) => exists|keep: bool| #[trigger]
                    call_ensures(*predicate, (&o,), keep) && r == if keep {
                        Ok::<(O, usize), Error<()>>((o, rest))
                    } else {
                        Err(Error { inner: (), recover: Recover::Recoverable, at })
                    },
                Err(e) => r == Err::<(O, usize), Error<()>>(
                    Error { inner: (), recover: e.recover, at: e.at },
                ),
            }
    }

    /// Make a parser fail if its output does not satisfy `predicate`.
    ///
    /// An output that is refused gives a recoverable failure at the offset
    /// the parser was called at, as if it had never run. A failure of
    /// `self` keeps its recoverability and its offset, and loses its inner
    /// value.
    pub fn filter<P>(self, predicate: P) -> (p: Parser<'a, I, O, ()>) where P: Fn(&O) -> bool + 'a
        ensures
            forall|input: I, at: usize|
                self.filter_accepts(&predicate, input, at) ==> #[trigger] p.accepts(input, at),
            forall|input: I, at: usize, r: ParseResult<O, ()>| #[trigger]
                p.yields(input, at, r) ==> self.filter_yields(&predicate, input, at, r),
            (forall|o: O| call_requires(predicate, (&o,))) ==> forall|
                inv: spec_fn(I, usize) -> bool,
            |
                self.preserves(inv) ==> #[trigger] p.preserves(inv),
            (forall|o: O, a: bool, b: bool|
                call_ensures(predicate, (&o,), a) && call_ensures(predicate, (&o,), b) ==> a == b)
                ==> forall|input: I| self.single(input) ==> #[trigger] p.single(input),
    {
        let run = move |input: I, at: usize| -> (r: ParseResult<O, ()>)
            requires
                self.filter_accepts(&predicate, input, at),
            ensures
                self.filter_yields(&predicate, input, at, r),
            {
                match self.parse_at(input, at) {
                    Ok((o, rest)) => {
                        if predicate(&o) {
                            Ok((o, rest))
                        } else {
                            Err(Error::new((), at))
                        }
                    },
                    Err(e) => Err(Error { inner: (), recover: e.recover, at: e.at }),
                }
            };
        Parser::new(run)
    }

    /// The results of `self.filter_map(f)`: a success of `self` with what `f`
    /// makes of its output, a recoverable failure at the offset of the call
    /// where `f` gives `None`, or a failure of `self` without its inner
    /// value.
    pub open spec fn filter_map_yields<O1, F: Fn(O) -> Option<O1>>(
        &self,
        f: &F,
        input: I,
        at: usize,
        r: ParseResult<O1, ()>,
    ) -> bool {
        exists|ra: ParseResult<O, E>| #[trigger]
            self.yields(input, at, ra) && match ra {
                Ok((o, rest)) => exists|kept: Option<O1>| #[trigger]
                    call_ensures(*f, (o,), kept) && r == match kept {
                        Some(o1) => Ok::<(O1, usize), Error<()>>((o1, rest)),
                        None => Err(Error { inner: (), recover: Recover::Recoverable, at }),
                    },
                Err(e) => r == Err::<(O1, usize), Error<()>>(
                    Error { inner: (), recover: e.recover, at: e.at },
                ),
            }
    }

    /// Map the parser's output with `f`, and fail where `f` gives `None`.
    ///
    /// Failures are those of [`Parser::filter`]: recoverable at the offset
    /// of the call where `f` refuses, and that of `self` without its inner
    /// value where `self` fails.
    pub fn filter_map<O1: 'a, F>(self, f: F) -> (p: Parser<'a, I, O1, ()>) where
        F: Fn(O) -> Option<O1> + 'a,

        ensures
            forall|input: I, at: usize|
                self.map_accepts(&f, input, at) ==> #[trigger] p.accepts(input, at),
            forall|input: I, at: usize, r: ParseResult<O1, ()>| #[trigger]
                p.yields(input, at, r) ==> self.filter_map_yields(&f, input, at, r),
            (forall|o: O| call_requires(f, (o,))) ==> forall|inv: spec_fn(I, usize) -> bool|
                self.preserves(inv) ==> #[trigger] p.preserves(inv),
            (forall|o: O, a: Option<O1>, b: Option<O1>|
                call_ensures(f, (o,), a) && call_ensures(f, (o,), b) ==> a == b)
                ==> forall|input: I| self.single(input) ==> #[trigger] p.single(input),
    {
        let run = move |input: I, at: usize| -> (r: ParseResult<O1, ()>)
            requires
                self.map_accepts(&f, input, at),
            ensures
                self.filter_map_yields(&f, input, at, r),
            {
                match self.parse_at(input, at) {
                    Ok((o, rest)) => match f(o) {
                        Some(o1) => Ok((o1, rest)),
                        None => Err(Error::new((), at)),
                    },
                    Err(e) => Err(Error { inner: (), recover: e.recover, at: e.at }),
                }
            };
        Parser::new(run)
    }
    /// The results of `self.ignore()`: those of `self`, without the output.
    pub open spec fn ignore_yields(&self, input: I, at: usize, r: ParseResult<(), E>) -> bool {
        exists|ra: ParseResult<O, E>| #[trigger]
            self.yields(input, at, ra) && r == match ra {
                Ok((_, rest)) => Ok::<((), usize), Error<E>>(((), rest)),
                Err(e) => Err(e),
            }
    }

    /// Drop this parser's output.
    pub fn ignore(self) -> (p: Parser<'a, I, (), E>)
        ensures
            forall|input: I, at: usize| self.accepts(input, at) ==> #[trigger] p.accepts(input, at),
            forall|input: I, at: usize, r: ParseResult<(), E>| #[trigger]
                p.yields(input, at, r) ==> self.ignore_yields(input, at, r),
            forall|inv: spec_fn(I, usize) -> bool|
                self.preserves(inv) ==> #[trigger] p.preserves(inv),
            forall|input: I| self.single(input) ==> #[trigger] p.single(input),
    {
        let drop = |_o: O| -> (u: ()) { () };
        self.map(drop)
    }

    /// The results of `self.ignore_err()`: those of `self`, without the inner
    /// value of a failure.
    pub open spec fn ignore_err_yields(&self, input: I, at: usize, r: ParseResult<O, ()>) -> bool {
        exists|ra: ParseResult<O, E>| #[trigger]
            self.yields(input, at, ra) && r == match ra {
                Ok(ok) => Ok::<(O, usize), Error<()>>(ok),
                Err(e) => Err(Error { inner: (), recover: e.recover, at: e.at }),
            }
    }

    /// Drop this parser's error: a failure keeps its recoverability and
    /// its offset, and loses its inner value.
    pub fn ignore_err(self) -> (p: Parser<'a, I, O, ()>)
        ensures
            forall|input: I, at: usize| self.accepts(input, at) ==> #[trigger] p.accepts(input, at),
            forall|input: I, at: usize, r: ParseResult<O, ()>| #[trigger]
                p.yields(input, at, r) ==> self.ignore_err_yields(input, at, r),
            forall|inv: spec_fn(I, usize) -> bool|
                self.preserves(inv) ==> #[trigger] p.preserves(inv),
            forall|input: I| self.single(input) ==> #[trigger] p.single(input),
    {
        let drop = |_e: E| -> (u: ()) { () };
        self.map_err(drop)
    }
}

} // verus!
