//! Parsers on slices: the boundaries they keep to, and `input`.

use crate::error::{Error, ParseResult};
use crate::parser::Parser;
use crate::slice::Slice;
use vstd::prelude::*;

verus! {

/// The invariant of the offsets into a slice: an offset is an item boundary
/// of the input, and not before `from`.
pub open spec fn on_boundary<'a, S: Slice<'a> + ?Sized>(from: usize) -> spec_fn(
    &'a S,
    usize,
) -> bool {
    |input: &'a S, at: usize| from <= at && S::aligned(input.units(), at as int)
}

/// Implementations on parsers that accept slices as input.
impl<'a, S: Slice<'a> + ?Sized, O: 'a, E: 'a> Parser<'a, &'a S, O, E> {
    /// Whether the parser keeps to the boundaries of its input: it may be
    /// run at every boundary, and where it succeeds it has reached a
    /// boundary that is not before the one it started at.
    pub open spec fn sound(&self) -> bool {
        forall|from: usize| #[trigger] self.preserves(on_boundary::<S>(from))
    }

    /// What soundness says of one run.
    pub proof fn lemma_sound(&self, input: &'a S, at: usize)
        requires
            self.sound(),
            S::aligned(input.units(), at as int),
        ensures
            self.accepts(input, at),
            forall|r: ParseResult<O, E>| #[trigger]
                self.yields(input, at, r) ==> (r matches Ok((_, rest)) ==> at <= rest && S::aligned(
                    input.units(),
                    rest as int,
                )),
    {
        assert(self.preserves(on_boundary::<S>(at)));
        assert(on_boundary::<S>(at)(input, at));
    }

    /// Whether the parser may be run and what it consumes may be cut out
    /// of the input: the run starts on a boundary, and ends on one that is
    /// not before it.
    pub open spec fn input_accepts(&self, input: &'a S, at: usize) -> bool {
        &&& self.accepts(input, at)
        &&& S::aligned(input.units(), at as int)
        &&& forall|ra: ParseResult<O, E>| #[trigger]
            self.yields(input, at, ra) ==> (ra matches Ok((_, rest)) ==> at <= rest && S::aligned(
                input.units(),
                rest as int,
            ))
    }

    /// The results of `input`: where the parser succeeds, the part of the
    /// input between the offset of the call and the offset reached,
    /// whatever the output was; where it fails, its failure.
    pub open spec fn input_yields(
        &self,
        input: &'a S,
        at: usize,
        r: ParseResult<&'a S, E>,
    ) -> bool {
        exists|ra: ParseResult<O, E>| #[trigger]
            self.yields(input, at, ra) && match ra {
                Ok((_, rest)) => r matches Ok((found, end)) && end == rest && found.units()
                    == input.units().subrange(at as int, rest as int),
                Err(e) => r == Err::<(&'a S, usize), Error<E>>(e),
            }
    }

    /// Replace the output with the part of the input that the parser
    /// consumed.
    pub fn input(self) -> (p: Parser<'a, &'a S, &'a S, E>)
        ensures
            forall|input: &'a S, at: usize|
                self.input_accepts(input, at) ==> #[trigger] p.accepts(input, at),
            forall|input: &'a S, at: usize, r: ParseResult<&'a S, E>| #[trigger]
                p.yields(input, at, r) ==> self.input_yields(input, at, r),
            self.sound() ==> p.sound(),
    {
        let run = move |input: &'a S, at: usize| -> (r: ParseResult<&'a S, E>)
            requires
                self.input_accepts(input, at),
            ensures
                self.input_yields(input, at, r),
            {
                let (_o, rest) = self.parse_at(input, at)?;
                Ok((input.index_between(at, rest), rest))
            };
        let p = Parser::new(run);
        proof {
            if self.sound() {
                assert forall|from: usize| #[trigger] p.preserves(on_boundary::<S>(from)) by {
                    assert(self.preserves(on_boundary::<S>(from)));
                    assert forall|input: &'a S, at: usize| #[trigger]
                        on_boundary::<S>(from)(input, at) implies {
                        &&& p.accepts(input, at)
                        &&& forall|r: ParseResult<&'a S, E>| #[trigger]
                            p.yields(input, at, r) ==> (r matches Ok((_, rest)) ==> on_boundary::<
                                S,
                            >(from)(input, rest))
                    } by {
                        self.lemma_sound(input, at);
                    }
                }
            }
        }
        p
    }
}

} // verus!
