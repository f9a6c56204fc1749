//! The parser type and how it is run.

use crate::error::{Error, ParseResult};
use std::rc::Rc;
use vstd::prelude::*;

verus! {

/// A parsing function behind a parser: from the input and a start offset to
/// an output with the offset reached, or a failure.
trait ParseFn<I, O, E> {
    /// The calls that the function may be given.
    spec fn accepts(&self, input: I, at: usize) -> bool;

    /// The results that a call may return.
    spec fn yields(&self, input: I, at: usize, r: ParseResult<O, E>) -> bool;

    fn run(&self, input: I, at: usize) -> (r: ParseResult<O, E>)
        requires
            self.accepts(input, at),
        ensures
            self.yields(input, at, r),
    ;
}

/// A function value seen as a `ParseFn`, under its own contract.
struct Call<F> {
    f: F,
}

impl<I, O, E, F: Fn(I, usize) -> ParseResult<O, E>> ParseFn<I, O, E> for Call<F> {
    closed spec fn accepts(&self, input: I, at: usize) -> bool {
        call_requires(self.f, (input, at))
    }

    closed spec fn yields(&self, input: I, at: usize, r: ParseResult<O, E>) -> bool {
        call_ensures(self.f, (input, at), r)
    }

    fn run(&self, input: I, at: usize) -> (r: ParseResult<O, E>) {
        (self.f)(input, at)
    }
}

/// The type of any parser: a shared handle to a parsing function. To run the
/// parser, call [`Parser::parse`].
#[verifier::reject_recursive_types(I)]
#[verifier::reject_recursive_types(O)]
#[verifier::reject_recursive_types(E)]
#[must_use]
pub struct Parser<'a, I, O, E> {
    run: Rc<Box<dyn ParseFn<I, O, E> + 'a>>,
}

impl<'a, I, O, E> Clone for Parser<'a, I, O, E> {
    /// Another handle to the same parsing function.
    fn clone(&self) -> (r: Self)
        ensures
            r == *self,
    {
        Self { run: Rc::clone(&self.run) }
    }
}

impl<'a, I: Copy + 'a, O: 'a, E: 'a> Parser<'a, I, O, E> {
    /// Whether the parser may be run on `input` from offset `at`.
    pub closed spec fn accepts(&self, input: I, at: usize) -> bool {
        self.run.accepts(input, at)
    }

    /// Whether `r` is a result that running the parser on `input` from
    /// offset `at` may return.
    pub closed spec fn yields(&self, input: I, at: usize, r: ParseResult<O, E>) -> bool {
        self.run.yields(input, at, r)
    }

    /// Whether `inv` is an invariant of the offsets that the parser works
    /// on: it may be run wherever `inv` holds, and where it succeeds `inv`
    /// holds of the offset it reaches.
    pub open spec fn preserves(&self, inv: spec_fn(I, usize) -> bool) -> bool {
        forall|input: I, at: usize| #[trigger]
            inv(input, at) ==> {
                &&& self.accepts(input, at)
                &&& forall|r: ParseResult<O, E>| #[trigger]
                    self.yields(input, at, r) ==> (r matches Ok((_, rest)) ==> inv(input, rest))
            }
    }

    /// Whether the parser has one result at most on `input` from each
    /// offset.
    pub open spec fn single(&self, input: I) -> bool {
        forall|at: usize, r1: ParseResult<O, E>, r2: ParseResult<O, E>|
            #![trigger self.yields(input, at, r1), self.yields(input, at, r2)]
            self.yields(input, at, r1) && self.yields(input, at, r2) ==> r1 == r2
    }

    /// Wrap a parsing function. The parser accepts what the function
    /// requires and yields what the function ensures.
    pub fn new<P>(p: P) -> (parser: Self) where P: Fn(I, usize) -> ParseResult<O, E> + 'a
        ensures
            forall|input: I, at: usize| #[trigger]
                parser.accepts(input, at) == call_requires(p, (input, at)),
            forall|input: I, at: usize, r: ParseResult<O, E>| #[trigger]
                parser.yields(input, at, r) == call_ensures(p, (input, at), r),
    {
        Parser { run: Rc::new(Box::new(Call { f: p })) }
    }

    /// Parse starting at an offset. This should be used when calling a parser
    /// inside another parser.
    pub fn parse_at(&self, i: I, n: usize) -> (r: ParseResult<O, E>)
        requires
            self.accepts(i, n),
        ensures
            self.yields(i, n, r),
    {
        self.run.run(i, n)
    }

    /// What `parse` makes of a result of `parse_at`.
    pub open spec fn collect(ra: ParseResult<O, E>) -> Result<O, (E, usize)> {
        match ra {
            Ok((o, _)) => Ok(o),
            Err(e) => Err((e.inner, e.at)),
        }
    }

    /// Parse from the beginning, and collect the output.
    pub fn parse(&self, i: I) -> (r: Result<O, (E, usize)>)
        requires
            self.accepts(i, 0),
        ensures
            exists|ra: ParseResult<O, E>| #[trigger] self.yields(i, 0, ra) && r == Self::collect(ra),
    {
        match self.parse_at(i, 0) {
            Ok((o, _)) => Ok(o),
            Err(Error { inner, at, .. }) => Err((inner, at)),
        }
    }
}

} // verus!
