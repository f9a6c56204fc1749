//! Sequencing: `then`, `left`, `right`, `surround` and `with_span`.

use crate::error::{Error, ParseResult};
use crate::parser::Parser;
use std::ops::Range;
use vstd::prelude::*;

verus! {

impl<'a, I: Copy + 'a, O: 'a, E: 'a> Parser<'a, I, O, E> {
    /// Whether `self` and then `snd` may be run: `self` where the call
    /// starts, `snd` wherever `self` can arrive.
    pub open spec fn then_accepts<O1>(
        &self,
        snd: &Parser<'a, I, O1, E>,
        input: I,
        at: usize,
    ) -> bool {
        &&& self.accepts(input, at)
        &&& forall|ra: ParseResult<O, E>| #[trigger]
            self.yields(input, at, ra) ==> (ra matches Ok((_, mid)) ==> snd.accepts(input, mid))
    }

    /// The results of `self.then(snd)`: the failure of `self`, or behind a
    /// success of `self` the failure of `snd` run from the offset reached,
    /// or both outputs with the offset that `snd` reached.
    pub open spec fn then_yields<O1>(
        &self,
        snd: &Parser<'a, I, O1, E>,
        input: I,
        at: usize,
        r: ParseResult<(O, O1), E>,
    ) -> bool {
        exists|ra: ParseResult<O, E>| #[trigger]
            self.yields(input, at, ra) && match ra {
                Ok((o, mid)) => exists|rb: ParseResult<O1, E>| #[trigger]
                    snd.yields(input, mid, rb) && r == match rb {
                        Ok((o1, rest)) => Ok::<((O, O1), usize), Error<E>>(((o, o1), rest)),
                        Err(e) => Err(e),
                    },
                Err(e) => r == Err::<((O, O1), usize), Error<E>>(e),
            }
    }

    /// Parse with `self`, then parse the remaining input with `other`,
    /// gathering both outputs into a tuple.
    pub fn then<O1: 'a>(self, snd: Parser<'a, I, O1, E>) -> (p: Parser<'a, I, (O, O1), E>)
        ensures
            forall|input: I, at: usize|
                self.then_accepts(&snd, input, at) ==> #[trigger] p.accepts(input, at),
            forall|input: I, at: usize, r: ParseResult<(O, O1), E>| #[trigger]
                p.yields(input, at, r) ==> self.then_yields(&snd, input, at, r),
            forall|inv: spec_fn(I, usize) -> bool|
                self.preserves(inv) && snd.preserves(inv) ==> #[trigger] p.preserves(inv),
            forall|input: I| self.single(input) && snd.single(input) ==> #[trigger] p.single(input),
    {
        let run = move |input: I, at: usize| -> (r: ParseResult<(O, O1), E>)
            requires
                self.then_accepts(&snd, input, at),
            ensures
                self.then_yields(&snd, input, at, r),
            {
                let (o, rest) = self.parse_at(input, at)?;
                let (o1, rest) = snd.parse_at(input, rest)?;
                Ok(((o, o1), rest))
            };
        Parser::new(run)
    }

    /// The results of `self.left(right)`: those of `self.then(right)`, with
    /// the output of `self` alone.
    pub open spec fn left_yields<O1>(
        &self,
        right: &Parser<'a, I, O1, E>,
        input: I,
        at: usize,
        r: ParseResult<O, E>,
    ) -> bool {
        exists|ra: ParseResult<O, E>| #[trigger]
            self.yields(input, at, ra) && match ra {
                Ok((o, mid)) => exists|rb: ParseResult<O1, E>| #[trigger]
                    right.yields(input, mid, rb) && r == match rb {
                        Ok((_, rest)) => Ok::<(O, usize), Error<E>>((o, rest)),
                        Err(e) => Err(e),
                    },
                Err(e) => r == ra,
            }
    }

    /// Parse with `self`, then parse with `right`, ignoring its output and
    /// returning the output of self.
    pub fn left<O1: 'a>(self, right: Parser<'a, I, O1, E>) -> (p: Parser<'a, I, O, E>)
        ensures
            forall|input: I, at: usize|
                self.then_accepts(&right, input, at) ==> #[trigger] p.accepts(input, at),
            forall|input: I, at: usize, r: ParseResult<O, E>| #[trigger]
                p.yields(input, at, r) ==> self.left_yields(&right, input, at, r),
            forall|inv: spec_fn(I, usize) -> bool|
                self.preserves(inv) && right.preserves(inv) ==> #[trigger] p.preserves(inv),
            forall|input: I| self.single(input) && right.single(input) ==> #[trigger] p.single(input),
    {
        let run = move |input: I, at: usize| -> (r: ParseResult<O, E>)
            requires
                self.then_accepts(&right, input, at),
            ensures
                self.left_yields(&right, input, at, r),
            {
                let (o, rest) = self.parse_at(input, at)?;
                let (_o1, rest) = right.parse_at(input, rest)?;
                Ok((o, rest))
            };
        Parser::new(run)
    }

    /// The results of `self.right(right)`: the failure of `self`, or what
    /// `right` returns from the offset that `self` reached.
    pub open spec fn right_yields<O1>(
        &self,
        right: &Parser<'a, I, O1, E>,
        input: I,
        at: usize,
        r: ParseResult<O1, E>,
    ) -> bool {
        exists|ra: ParseResult<O, E>| #[trigger]
            self.yields(input, at, ra) && match ra {
                Ok((_, mid)) => right.yields(input, mid, r),
                Err(e) => r == Err::<(O1, usize), Error<E>>(e),
            }
    }

    /// Parse with `self`, ignoring its output, then parse with `right`,
    /// returning its output.
    pub fn right<O1: 'a>(self, right: Parser<'a, I, O1, E>) -> (p: Parser<'a, I, O1, E>)
        ensures
            forall|input: I, at: usize|
                self.then_accepts(&right, input, at) ==> #[trigger] p.accepts(input, at),
            forall|input: I, at: usize, r: ParseResult<O1, E>| #[trigger]
                p.yields(input, at, r) ==> self.right_yields(&right, input, at, r),
            forall|inv: spec_fn(I, usize) -> bool|
                self.preserves(inv) && right.preserves(inv) ==> #[trigger] p.preserves(inv),
            forall|input: I| self.single(input) && right.single(input) ==> #[trigger] p.single(input),
    {
        let run = move |input: I, at: usize| -> (r: ParseResult<O1, E>)
            requires
                self.then_accepts(&right, input, at),
            ensures
                self.right_yields(&right, input, at, r),
            {
                let (_o, rest) = self.parse_at(input, at)?;
                let (o, rest) = right.parse_at(input, rest)?;
                Ok((o, rest))
            };
        Parser::new(run)
    }

    /// The results of `self.with_span()`: those of `self`, the output paired
    /// with the range from the offset of the call to the offset reached.
    pub open spec fn with_span_yields(
        &self,
        input: I,
        at: usize,
        r: ParseResult<(O, Range<usize>), E>,
    ) -> bool {
        exists|ra: ParseResult<O, E>| #[trigger]
            self.yields(input, at, ra) && r == match ra {
                Ok((o, rest)) => Ok::<((O, Range<usize>), usize), Error<E>>(
                    ((o, Range { start: at, end: rest }), rest),
                ),
                Err(e) => Err(e),
            }
    }

    /// Associate the output with the range of indices that the parser consumed.
    pub fn with_span(self) -> (p: Parser<'a, I, (O, Range<usize>), E>)
        ensures
            forall|input: I, at: usize| self.accepts(input, at) ==> #[trigger] p.accepts(input, at),
            forall|input: I, at: usize, r: ParseResult<(O, Range<usize>), E>| #[trigger]
                p.yields(input, at, r) ==> self.with_span_yields(input, at, r),
            forall|inv: spec_fn(I, usize) -> bool|
                self.preserves(inv) ==> #[trigger] p.preserves(inv),
            forall|input: I| self.single(input) ==> #[trigger] p.single(input),
    {
        let run = move |input: I, at: usize| -> (r: ParseResult<(O, Range<usize>), E>)
            requires
                self.accepts(input, at),
            ensures
                self.with_span_yields(input, at, r),
            {
                let (o, rest) = self.parse_at(input, at)?;
                Ok(((o, at..rest), rest))
            };
        Parser::new(run)
    }
    /// Whether `left`, `self` and `right` may be run one after the other.
    pub open spec fn surround_accepts<OLeft, ORight>(
        &self,
        left: &Parser<'a, I, OLeft, E>,
        right: &Parser<'a, I, ORight, E>,
        input: I,
        at: usize,
    ) -> bool {
        &&& left.accepts(input, at)
        &&& forall|rl: ParseResult<OLeft, E>| #[trigger]
            left.yields(input, at, rl) ==> (rl matches Ok((_, from)) ==> self.then_accepts(
                right,
                input,
                from,
            ))
    }

    /// The results of `self.surround(left, right)`: the failure of `left`,
    /// or what `self.left(right)` returns from the offset that `left`
    /// reached.
    pub open spec fn surround_yields<OLeft, ORight>(
        &self,
        left: &Parser<'a, I, OLeft, E>,
        right: &Parser<'a, I, ORight, E>,
        input: I,
        at: usize,
        r: ParseResult<O, E>,
    ) -> bool {
        exists|rl: ParseResult<OLeft, E>| #[trigger]
            left.yields(input, at, rl) && match rl {
                Ok((_, from)) => self.left_yields(right, input, from, r),
                Err(e) => r == Err::<(O, usize), Error<E>>(e),
            }
    }

    /// Surround a parser with delimiter parsers: `left`, then `self`, then
    /// `right`, keeping the output of `self`. The first of the three that
    /// fails gives the failure.
    pub fn surround<OLeft: 'a, ORight: 'a>(
        self,
        left: Parser<'a, I, OLeft, E>,
        right: Parser<'a, I, ORight, E>,
    ) -> (p: Parser<'a, I, O, E>)
        ensures
            forall|input: I, at: usize|
                self.surround_accepts(&left, &right, input, at) ==> #[trigger] p.accepts(input, at),
            forall|input: I, at: usize, r: ParseResult<O, E>| #[trigger]
                p.yields(input, at, r) ==> self.surround_yields(&left, &right, input, at, r),
            forall|inv: spec_fn(I, usize) -> bool|
                self.preserves(inv) && left.preserves(inv) && right.preserves(inv)
                    ==> #[trigger] p.preserves(inv),
            forall|input: I|
                self.single(input) && left.single(input) && right.single(input)
                    ==> #[trigger] p.single(input),
    {
        left.right(self).left(right)
    }
}

} // verus!
