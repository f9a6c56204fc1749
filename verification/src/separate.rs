//! Lists of elements with separators between them.

use crate::error::{Error, ParseResult, Recover};
use crate::parser::Parser;
use vstd::prelude::*;

verus! {

impl<'a, I: Copy + 'a, O: 'a, E: 'a> Parser<'a, I, O, E> {
    /// Whether `outs` are the outputs of successive elements parsed by
    /// `self`, and `seps` those of the separators parsed by `by` behind
    /// them: element `k` goes from `starts[k]` to `ends[k]`, the separator
    /// behind it from `ends[k]` to `starts[k + 1]`, and the first element
    /// starts at `at`. Behind the last element a separator may or may not
    /// have been parsed.
    pub open spec fn separated<O1>(
        &self,
        by: &Parser<'a, I, O1, E>,
        input: I,
        at: usize,
        outs: Seq<O>,
        seps: Seq<O1>,
        starts: Seq<usize>,
        ends: Seq<usize>,
    ) -> bool {
        &&& ends.len() == outs.len()
        &&& starts.len() == seps.len() + 1
        &&& seps.len() <= outs.len() <= seps.len() + 1
        &&& starts[0] == at
        &&& forall|k: int|
            0 <= k < outs.len() ==> self.yields(input, starts[k], Ok((#[trigger] outs[k], ends[k])))
        &&& forall|k: int|
            0 <= k < seps.len() ==> by.yields(input, ends[k], Ok((#[trigger] seps[k], starts[k + 1])))
    }

    /// The offset that a separated list has consumed up to: the end of its
    /// last element, or the offset of the call when it has none.
    pub open spec fn separated_end(at: usize, ends: Seq<usize>) -> usize {
        if ends.len() == 0 {
            at
        } else {
            ends.last()
        }
    }

    /// Whether a separated list may be started: `self` may be run where
    /// an element is due, and `by` behind every element.
    pub open spec fn separate_accepts<O1>(
        &self,
        by: &Parser<'a, I, O1, E>,
        input: I,
        at: usize,
    ) -> bool {
        forall|outs: Seq<O>, seps: Seq<O1>, starts: Seq<usize>, ends: Seq<usize>| #[trigger]
            self.separated(by, input, at, outs, seps, starts, ends) ==> if starts.len() > outs.len() {
                self.accepts(input, starts.last())
            } else {
                by.accepts(input, ends.last())
            }
    }

    /// What a separated list returns once either parser has failed with
    /// `e` behind the elements that gave `outs`: on a recoverable failure
    /// `outs` and the offset behind the last element, on a fatal failure
    /// `e` itself.
    pub open spec fn separate_settles(
        at: usize,
        outs: Seq<O>,
        ends: Seq<usize>,
        e: Error<E>,
        r: ParseResult<Vec<O>, E>,
    ) -> bool {
        match e.recover {
            Recover::Recoverable => r matches Ok((v, rest)) && v@ == outs && rest
                == Self::separated_end(at, ends),
            Recover::Fatal => r == Err::<(Vec<O>, usize), Error<E>>(e),
        }
    }

    /// Whether a separated list stops behind the elements and separators
    /// given, with `r`: the parser whose turn it is fails, `self` where a
    /// separator came last or nothing came yet, `by` where an element came
    /// last.
    pub open spec fn separate_stops<O1>(
        &self,
        by: &Parser<'a, I, O1, E>,
        input: I,
        at: usize,
        outs: Seq<O>,
        starts: Seq<usize>,
        ends: Seq<usize>,
        r: ParseResult<Vec<O>, E>,
    ) -> bool {
        if starts.len() > outs.len() {
            exists|e: Error<E>| #[trigger]
                self.yields(input, starts.last(), Err(e)) && Self::separate_settles(
                    at,
                    outs,
                    ends,
                    e,
                    r,
                )
        } else {
            exists|e: Error<E>| #[trigger]
                by.yields(input, ends.last(), Err::<(O1, usize), Error<E>>(e))
                    && Self::separate_settles(at, outs, ends, e, r)
        }
    }

    /// The results of a separated list: there are elements and separators
    /// in turn, behind which the list stops. A recoverable failure ends
    /// the list with the outputs of the elements and the offset behind the
    /// last of them, so that a separator which no element follows is not
    /// consumed; a fatal failure is the result.
    pub open spec fn separate_yields<O1>(
        &self,
        by: &Parser<'a, I, O1, E>,
        input: I,
        at: usize,
        r: ParseResult<Vec<O>, E>,
    ) -> bool {
        exists|outs: Seq<O>, seps: Seq<O1>, starts: Seq<usize>, ends: Seq<usize>| #[trigger]
            self.separated(by, input, at, outs, seps, starts, ends) && self.separate_stops(
                by,
                input,
                at,
                outs,
                starts,
                ends,
                r,
            )
    }

    /// Two separated lists of parsers with one result at most go the same
    /// way as far as both go.
    pub proof fn lemma_separated_single<O1>(
        &self,
        by: &Parser<'a, I, O1, E>,
        input: I,
        at: usize,
        outs1: Seq<O>,
        seps1: Seq<O1>,
        starts1: Seq<usize>,
        ends1: Seq<usize>,
        outs2: Seq<O>,
        seps2: Seq<O1>,
        starts2: Seq<usize>,
        ends2: Seq<usize>,
        k: int,
    )
        requires
            self.single(input),
            by.single(input),
            self.separated(by, input, at, outs1, seps1, starts1, ends1),
            self.separated(by, input, at, outs2, seps2, starts2, ends2),
            0 <= k < starts1.len(),
            k < starts2.len(),
        ensures
            starts1[k] == starts2[k],
            forall|j: int| 0 <= j < k ==> outs1[j] == outs2[j] && ends1[j] == ends2[j],
            k < outs1.len() && k < outs2.len() ==> outs1[k] == outs2[k] && ends1[k] == ends2[k],
        decreases k,
    {
        if k > 0 {
            self.lemma_separated_single(
                by,
                input,
                at,
                outs1,
                seps1,
                starts1,
                ends1,
                outs2,
                seps2,
                starts2,
                ends2,
                k - 1,
            );
            assert(by.yields(input, ends1[k - 1], Ok((seps1[k - 1], starts1[k - 1 + 1]))));
            assert(by.yields(input, ends2[k - 1], Ok((seps2[k - 1], starts2[k - 1 + 1]))));
        }
        if k < outs1.len() && k < outs2.len() {
            assert(self.yields(input, starts1[k], Ok((outs1[k], ends1[k]))));
            assert(self.yields(input, starts2[k], Ok((outs2[k], ends2[k]))));
        }
    }

    /// Of two separated lists of parsers with one result at most, behind
    /// each of which the list stops, the second has no more elements than
    /// the first.
    proof fn lemma_separate_stops_single<O1>(
        &self,
        by: &Parser<'a, I, O1, E>,
        input: I,
        at: usize,
        outs1: Seq<O>,
        seps1: Seq<O1>,
        starts1: Seq<usize>,
        ends1: Seq<usize>,
        r1: ParseResult<Vec<O>, E>,
        outs2: Seq<O>,
        seps2: Seq<O1>,
        starts2: Seq<usize>,
        ends2: Seq<usize>,
    )
        requires
            self.single(input),
            by.single(input),
            self.separated(by, input, at, outs1, seps1, starts1, ends1),
            self.separate_stops(by, input, at, outs1, starts1, ends1, r1),
            self.separated(by, input, at, outs2, seps2, starts2, ends2),
        ensures
            outs2.len() <= outs1.len(),
            starts2.len() <= starts1.len(),
    {
        let n = starts1.len() - 1;
        if n < starts2.len() {
            self.lemma_separated_single(
                by,
                input,
                at,
                outs1,
                seps1,
                starts1,
                ends1,
                outs2,
                seps2,
                starts2,
                ends2,
                n,
            );
            if starts1.len() > outs1.len() {
                if n < outs2.len() {
                    assert(self.yields(input, starts2[n], Ok((outs2[n], ends2[n]))));
                }
            } else {
                if n < seps2.len() {
                    assert(by.yields(input, ends2[n], Ok((seps2[n], starts2[n + 1]))));
                }
            }
        }
    }

    /// A separated list of parsers with one result at most has one result
    /// at most, but for the vector that holds the outputs.
    pub proof fn lemma_separate_single<O1>(
        &self,
        by: &Parser<'a, I, O1, E>,
        input: I,
        at: usize,
        r1: ParseResult<Vec<O>, E>,
        r2: ParseResult<Vec<O>, E>,
    )
        requires
            self.single(input),
            by.single(input),
            self.separate_yields(by, input, at, r1),
            self.separate_yields(by, input, at, r2),
        ensures
            Self::agree(r1, r2),
    {
        let (outs1, seps1, starts1, ends1) = choose|
            outs: Seq<O>,
            seps: Seq<O1>,
            starts: Seq<usize>,
            ends: Seq<usize>,
        | #[trigger]
            self.separated(by, input, at, outs, seps, starts, ends) && self.separate_stops(
                by,
                input,
                at,
                outs,
                starts,
                ends,
                r1,
            );
        let (outs2, seps2, starts2, ends2) = choose|
            outs: Seq<O>,
            seps: Seq<O1>,
            starts: Seq<usize>,
            ends: Seq<usize>,
        | #[trigger]
            self.separated(by, input, at, outs, seps, starts, ends) && self.separate_stops(
                by,
                input,
                at,
                outs,
                starts,
                ends,
                r2,
            );
        self.lemma_separate_stops_single(
            by,
            input,
            at,
            outs1,
            seps1,
            starts1,
            ends1,
            r1,
            outs2,
            seps2,
            starts2,
            ends2,
        );
        self.lemma_separate_stops_single(
            by,
            input,
            at,
            outs2,
            seps2,
            starts2,
            ends2,
            r2,
            outs1,
            seps1,
            starts1,
            ends1,
        );
        self.lemma_separated_single(
            by,
            input,
            at,
            outs1,
            seps1,
            starts1,
            ends1,
            outs2,
            seps2,
            starts2,
            ends2,
            starts1.len() - 1,
        );
        assert(outs1 =~= outs2);
        assert(ends1 =~= ends2);
    }

    /// A separated list that awaits an element grows by that element.
    pub proof fn lemma_separated_element<O1>(
        &self,
        by: &Parser<'a, I, O1, E>,
        input: I,
        at: usize,
        outs: Seq<O>,
        seps: Seq<O1>,
        starts: Seq<usize>,
        ends: Seq<usize>,
        o: O,
        end: usize,
    )
        requires
            self.separated(by, input, at, outs, seps, starts, ends),
            starts.len() > outs.len(),
            self.yields(input, starts.last(), Ok((o, end))),
        ensures
            self.separated(by, input, at, outs.push(o), seps, starts, ends.push(end)),
    {
        let outs1 = outs.push(o);
        let ends1 = ends.push(end);
        assert forall|k: int| 0 <= k < outs1.len() implies self.yields(
            input,
            starts[k],
            Ok((#[trigger] outs1[k], ends1[k])),
        ) by {
            if k < outs.len() {
                assert(outs1[k] == outs[k]);
            }
        }
    }

    /// A separated list that ends in an element grows by a separator.
    pub proof fn lemma_separated_separator<O1>(
        &self,
        by: &Parser<'a, I, O1, E>,
        input: I,
        at: usize,
        outs: Seq<O>,
        seps: Seq<O1>,
        starts: Seq<usize>,
        ends: Seq<usize>,
        sep: O1,
        next: usize,
    )
        requires
            self.separated(by, input, at, outs, seps, starts, ends),
            starts.len() == outs.len(),
            by.yields(input, ends.last(), Ok((sep, next))),
        ensures
            self.separated(by, input, at, outs, seps.push(sep), starts.push(next), ends),
    {
        let seps1 = seps.push(sep);
        let starts1 = starts.push(next);
        assert forall|k: int| 0 <= k < outs.len() implies self.yields(
            input,
            starts1[k],
            Ok((#[trigger] outs[k], ends[k])),
        ) by {
            assert(starts1[k] == starts[k]);
        }
        assert forall|k: int| 0 <= k < seps1.len() implies by.yields(
            input,
            ends[k],
            Ok((#[trigger] seps1[k], starts1[k + 1])),
        ) by {
            if k < seps.len() {
                assert(seps1[k] == seps[k]);
                assert(starts1[k + 1] == starts[k + 1]);
            }
        }
    }

    /// An invariant of both parsers holds at every offset of a separated
    /// list that starts where it holds.
    pub proof fn lemma_separated_preserves<O1>(
        &self,
        by: &Parser<'a, I, O1, E>,
        inv: spec_fn(I, usize) -> bool,
        input: I,
        at: usize,
        outs: Seq<O>,
        seps: Seq<O1>,
        starts: Seq<usize>,
        ends: Seq<usize>,
        k: int,
    )
        requires
            self.preserves(inv),
            by.preserves(inv),
            inv(input, at),
            self.separated(by, input, at, outs, seps, starts, ends),
            0 <= k < starts.len(),
        ensures
            inv(input, starts[k]),
            k < ends.len() ==> inv(input, ends[k]),
        decreases k,
    {
        if k > 0 {
            self.lemma_separated_preserves(by, inv, input, at, outs, seps, starts, ends, k - 1);
            assert(by.yields(input, ends[k - 1], Ok((seps[k - 1], starts[k - 1 + 1]))));
        }
        if k < ends.len() {
            assert(self.yields(input, starts[k], Ok((outs[k], ends[k]))));
        }
    }

    /// Parse zero or more `self`s, separated with `by`. This allows a trailing
    /// separator, and leaves it unconsumed.
    pub fn separate<O1: 'a>(self, by: Parser<'a, I, O1, E>) -> (p: Parser<'a, I, Vec<O>, E>)
        ensures
            forall|input: I, at: usize|
                self.separate_accepts(&by, input, at) ==> #[trigger] p.accepts(input, at),
            forall|input: I, at: usize, r: ParseResult<Vec<O>, E>| #[trigger]
                p.yields(input, at, r) ==> self.separate_yields(&by, input, at, r),
            forall|inv: spec_fn(I, usize) -> bool|
                self.preserves(inv) && by.preserves(inv) ==> #[trigger] p.preserves(inv),
    {
        let run = move |input: I, at: usize| -> (r: ParseResult<Vec<O>, E>)
            requires
                self.separate_accepts(&by, input, at),
            ensures
                self.separate_yields(&by, input, at, r),
            {
                let mut os: Vec<O> = Vec::new();
                let mut next: usize = at;
                let mut end: usize = at;
                let ghost mut starts: Seq<usize> = seq![at];
                let ghost mut ends: Seq<usize> = Seq::empty();
                let ghost mut seps: Seq<O1> = Seq::empty();
                // `next` is where the next element is due, `end` where the
                // last one ended: a separator moves `next` alone, so that
                // it is left unconsumed where no element follows it.
                loop
                    invariant_except_break
                        starts.len() == os.len() + 1,
                        starts.last() == next,
                    invariant
                        self.separate_accepts(&by, input, at),
                        self.separated(&by, input, at, os@, seps, starts, ends),
                        end == Self::separated_end(at, ends),
                    ensures
                        if starts.len() > os.len() {
                            exists|e: Error<E>| #[trigger]
                                self.yields(input, starts.last(), Err(e)) && e.recover
                                    == Recover::Recoverable
                        } else {
                            exists|e: Error<E>| #[trigger]
                                by.yields(input, ends.last(), Err::<(O1, usize), Error<E>>(e))
                                    && e.recover == Recover::Recoverable
                        },
                    decreases usize::MAX - os.len(),
                {
                    match self.parse_at(input, next) {
                        Ok((o, rest)) => {
                            proof {
                                self.lemma_separated_element(
                                    &by,
                                    input,
                                    at,
                                    os@,
                                    seps,
                                    starts,
                                    ends,
                                    o,
                                    rest,
                                );
                                ends = ends.push(rest);
                            }
                            os.push(o);
                            end = rest;
                        },
                        Err(err) => match err.recover {
                            Recover::Recoverable => {
                                break;
                            },
                            Recover::Fatal => {
                                return Err(err.fail());
                            },
                        },
                    }
                    match by.parse_at(input, end) {
                        Ok((sep, rest)) => {
                            proof {
                                self.lemma_separated_separator(
                                    &by,
                                    input,
                                    at,
                                    os@,
                                    seps,
                                    starts,
                                    ends,
                                    sep,
                                    rest,
                                );
                                seps = seps.push(sep);
                                starts = starts.push(rest);
                            }
                            next = rest;
                        },
                        Err(err) => match err.recover {
                            Recover::Recoverable => {
                                break;
                            },
                            Recover::Fatal => {
                                return Err(err.fail());
                            },
                        },
                    }
                }
                Ok((os, end))
            };
        let p = Parser::new(run);
        proof {
            assert forall|inv: spec_fn(I, usize) -> bool|
                self.preserves(inv) && by.preserves(inv) implies #[trigger] p.preserves(inv) by {
                assert forall|input: I, at: usize| #[trigger] inv(input, at) implies {
                    &&& p.accepts(input, at)
                    &&& forall|r: ParseResult<Vec<O>, E>| #[trigger]
                        p.yields(input, at, r) ==> (r matches Ok((_, rest)) ==> inv(input, rest))
                } by {
                    assert forall|
                        outs: Seq<O>,
                        seps: Seq<O1>,
                        starts: Seq<usize>,
                        ends: Seq<usize>,
                    | #[trigger]
                        self.separated(&by, input, at, outs, seps, starts, ends) implies inv(
                        input,
                        starts.last(),
                    ) && inv(input, Self::separated_end(at, ends)) by {
                        self.lemma_separated_preserves(
                            &by,
                            inv,
                            input,
                            at,
                            outs,
                            seps,
                            starts,
                            ends,
                            starts.len() - 1,
                        );
                        if ends.len() > 0 {
                            self.lemma_separated_preserves(
                                &by,
                                inv,
                                input,
                                at,
                                outs,
                                seps,
                                starts,
                                ends,
                                ends.len() - 1,
                            );
                        }
                    }
                }
            }
        }
        p
    }
}

} // verus!
