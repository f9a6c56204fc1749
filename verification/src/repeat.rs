//! Repetition: `many` and `many_with`.

use crate::error::{Error, ParseResult, Recover};
use crate::parser::Parser;
use vstd::prelude::*;

verus! {

impl<'a, I: Copy + 'a, O: 'a, E: 'a> Parser<'a, I, O, E> {
    /// Whether `outs` are the outputs of successive successful runs of the
    /// parser on `input`, each from the offset that the one before reached:
    /// run `k` goes from `offs[k]` to `offs[k + 1]`, and the first starts
    /// at `at`.
    pub open spec fn chain(&self, input: I, at: usize, outs: Seq<O>, offs: Seq<usize>) -> bool {
        &&& offs.len() == outs.len() + 1
        &&& offs[0] == at
        &&& forall|k: int|
            0 <= k < outs.len() ==> self.yields(input, offs[k], Ok((#[trigger] outs[k], offs[k + 1])))
    }

    /// A chain grows by one more successful run from its end.
    pub proof fn lemma_chain_push(
        &self,
        input: I,
        at: usize,
        outs: Seq<O>,
        offs: Seq<usize>,
        o: O,
        rest: usize,
    )
        requires
            self.chain(input, at, outs, offs),
            self.yields(input, offs.last(), Ok((o, rest))),
        ensures
            self.chain(input, at, outs.push(o), offs.push(rest)),
    {
        let outs1 = outs.push(o);
        let offs1 = offs.push(rest);
        assert forall|k: int| 0 <= k < outs1.len() implies self.yields(
            input,
            offs1[k],
            Ok((#[trigger] outs1[k], offs1[k + 1])),
        ) by {
            if k < outs.len() {
                assert(outs1[k] == outs[k]);
            }
        }
    }

    /// An invariant of the parser holds all along a chain that starts
    /// where it holds.
    pub proof fn lemma_chain_preserves(
        &self,
        inv: spec_fn(I, usize) -> bool,
        input: I,
        at: usize,
        outs: Seq<O>,
        offs: Seq<usize>,
        k: int,
    )
        requires
            self.preserves(inv),
            inv(input, at),
            self.chain(input, at, outs, offs),
            0 <= k <= outs.len(),
        ensures
            inv(input, offs[k]),
        decreases k,
    {
        if k > 0 {
            self.lemma_chain_preserves(inv, input, at, outs, offs, k - 1);
            assert(self.yields(input, offs[k - 1], Ok((outs[k - 1], offs[k - 1 + 1]))));
        }
    }

    /// Whether a repetition that has made `count` runs has reached its
    /// upper bound.
    pub open spec fn full(count: nat, at_most: Option<usize>) -> bool {
        at_most matches Some(max) && max <= count
    }

    /// Whether a repetition of at most `at_most` runs may be started: the
    /// parser may be run at the end of every chain that can still grow.
    pub open spec fn many_accepts(&self, at_most: Option<usize>, input: I, at: usize) -> bool {
        forall|outs: Seq<O>, offs: Seq<usize>| #[trigger]
            self.chain(input, at, outs, offs) && !Self::full(outs.len(), at_most)
                ==> self.accepts(input, offs.last())
    }

    /// What a repetition returns once it has stopped after the runs that
    /// gave `outs` and led to `end`: a recoverable failure at the offset of
    /// the call where these are fewer than `at_least`, else `outs` and
    /// `end`.
    pub open spec fn many_settles(
        at_least: Option<usize>,
        at: usize,
        outs: Seq<O>,
        end: usize,
        r: ParseResult<Vec<O>, Option<E>>,
    ) -> bool {
        if at_least matches Some(min) && outs.len() < min {
            r == Err::<(Vec<O>, usize), Error<Option<E>>>(
                Error { inner: None, recover: Recover::Recoverable, at },
            )
        } else {
            r matches Ok((v, rest)) && v@ == outs && rest == end
        }
    }

    /// Whether a repetition stops behind the chain of runs that gave `outs`,
    /// with `r`. It stops when the chain has `at_most` runs, without
    /// running the parser again, or when the next run fails. A recoverable
    /// failure ends the repetition; a fatal one is its result, with the
    /// inner value in `Some`.
    pub open spec fn many_stops(
        &self,
        at_least: Option<usize>,
        at_most: Option<usize>,
        input: I,
        at: usize,
        outs: Seq<O>,
        offs: Seq<usize>,
        r: ParseResult<Vec<O>, Option<E>>,
    ) -> bool {
        &&& at_most matches Some(max) ==> outs.len() <= max
        &&& if Self::full(outs.len(), at_most) {
            Self::many_settles(at_least, at, outs, offs.last(), r)
        } else {
            exists|e: Error<E>| #[trigger]
                self.yields(input, offs.last(), Err(e)) && match e.recover {
                    Recover::Recoverable => Self::many_settles(at_least, at, outs, offs.last(), r),
                    Recover::Fatal => r == Err::<(Vec<O>, usize), Error<Option<E>>>(
                        Error { inner: Some(e.inner), recover: Recover::Fatal, at: e.at },
                    ),
                }
        }
    }

    /// The results of a repetition: there is a chain of runs, no longer
    /// than `at_most`, behind which the repetition stops.
    pub open spec fn many_yields(
        &self,
        at_least: Option<usize>,
        at_most: Option<usize>,
        input: I,
        at: usize,
        r: ParseResult<Vec<O>, Option<E>>,
    ) -> bool {
        exists|outs: Seq<O>, offs: Seq<usize>| #[trigger]
            self.chain(input, at, outs, offs) && self.many_stops(
                at_least,
                at_most,
                input,
                at,
                outs,
                offs,
                r,
            )
    }

    /// Whether a number of outputs lies within the bounds of a repetition.
    pub open spec fn within(count: nat, at_least: Option<usize>, at_most: Option<usize>) -> bool {
        &&& at_least matches Some(min) ==> min <= count
        &&& at_most matches Some(max) ==> count <= max
    }

    /// A repetition that succeeds has collected a number of outputs within
    /// its bounds. One that fails recoverably has missed its lower bound,
    /// and says so with `None` at the offset of the call; one that fails
    /// fatally carries the failure of the parser in `Some`.
    pub proof fn lemma_many_with_count(
        &self,
        at_least: Option<usize>,
        at_most: Option<usize>,
        input: I,
        at: usize,
        r: ParseResult<Vec<O>, Option<E>>,
    )
        requires
            self.many_yields(at_least, at_most, input, at, r),
        ensures
            r matches Ok((v, _)) ==> Self::within(v@.len(), at_least, at_most),
            r matches Err(e) ==> match e.recover {
                Recover::Recoverable => at_least is Some && e.inner is None && e.at == at,
                Recover::Fatal => e.inner is Some,
            },
    {
    }

    /// Where fewer runs than `min` can follow one another from `at`, a
    /// repetition of at least `min` fails, and where its failure is
    /// recoverable it is the miss of the lower bound.
    pub proof fn lemma_many_with_short(
        &self,
        min: usize,
        at_most: Option<usize>,
        input: I,
        at: usize,
        r: ParseResult<Vec<O>, Option<E>>,
    )
        requires
            self.many_yields(Some(min), at_most, input, at, r),
            forall|outs: Seq<O>, offs: Seq<usize>| #[trigger]
                self.chain(input, at, outs, offs) ==> outs.len() < min,
        ensures
            r matches Err(e) && (e.recover == Recover::Recoverable ==> r == Err::<
                (Vec<O>, usize),
                Error<Option<E>>,
            >(Error { inner: None, recover: Recover::Recoverable, at })),
    {
    }

    /// Whether two results of a repetition are the same but for the
    /// vectors that hold the outputs: the same outputs and offset, or the
    /// same failure.
    pub open spec fn agree<X>(r1: ParseResult<Vec<O>, X>, r2: ParseResult<Vec<O>, X>) -> bool {
        match r1 {
            Ok((v1, rest1)) => r2 matches Ok((v2, rest2)) && v1@ == v2@ && rest1 == rest2,
            Err(e) => r2 == Err::<(Vec<O>, usize), Error<X>>(e),
        }
    }

    /// Two chains of a parser with one result at most go the same way as
    /// far as both go.
    pub proof fn lemma_chain_single(
        &self,
        input: I,
        at: usize,
        outs1: Seq<O>,
        offs1: Seq<usize>,
        outs2: Seq<O>,
        offs2: Seq<usize>,
        k: int,
    )
        requires
            self.single(input),
            self.chain(input, at, outs1, offs1),
            self.chain(input, at, outs2, offs2),
            0 <= k <= outs1.len(),
            k <= outs2.len(),
        ensures
            offs1[k] == offs2[k],
            forall|j: int| 0 <= j < k ==> outs1[j] == outs2[j],
        decreases k,
    {
        if k > 0 {
            self.lemma_chain_single(input, at, outs1, offs1, outs2, offs2, k - 1);
            assert(self.yields(input, offs1[k - 1], Ok((outs1[k - 1], offs1[k - 1 + 1]))));
            assert(self.yields(input, offs2[k - 1], Ok((outs2[k - 1], offs2[k - 1 + 1]))));
        }
    }

    /// Two chains of a parser with one result at most, behind each of
    /// which a repetition stops, are the same chain.
    proof fn lemma_stops_single(
        &self,
        at_least: Option<usize>,
        at_most: Option<usize>,
        input: I,
        at: usize,
        outs1: Seq<O>,
        offs1: Seq<usize>,
        r1: ParseResult<Vec<O>, Option<E>>,
        outs2: Seq<O>,
        offs2: Seq<usize>,
        r2: ParseResult<Vec<O>, Option<E>>,
    )
        requires
            self.single(input),
            self.chain(input, at, outs1, offs1),
            self.many_stops(at_least, at_most, input, at, outs1, offs1, r1),
            self.chain(input, at, outs2, offs2),
            self.many_stops(at_least, at_most, input, at, outs2, offs2, r2),
            outs1.len() <= outs2.len(),
        ensures
            outs1 == outs2,
            offs1.last() == offs2.last(),
    {
        let n = outs1.len() as int;
        self.lemma_chain_single(input, at, outs1, offs1, outs2, offs2, n);
        if n < outs2.len() {
            assert(self.yields(input, offs2[n], Ok((outs2[n], offs2[n + 1]))));
        }
        assert(outs1 =~= outs2);
    }

    /// A repetition of a parser with one result at most has one result at
    /// most, but for the vector that holds the outputs.
    pub proof fn lemma_many_with_single(
        &self,
        at_least: Option<usize>,
        at_most: Option<usize>,
        input: I,
        at: usize,
        r1: ParseResult<Vec<O>, Option<E>>,
        r2: ParseResult<Vec<O>, Option<E>>,
    )
        requires
            self.single(input),
            self.many_yields(at_least, at_most, input, at, r1),
            self.many_yields(at_least, at_most, input, at, r2),
        ensures
            Self::agree(r1, r2),
    {
        let (outs1, offs1) = choose|outs: Seq<O>, offs: Seq<usize>| #[trigger]
            self.chain(input, at, outs, offs) && self.many_stops(
                at_least,
                at_most,
                input,
                at,
                outs,
                offs,
                r1,
            );
        let (outs2, offs2) = choose|outs: Seq<O>, offs: Seq<usize>| #[trigger]
            self.chain(input, at, outs, offs) && self.many_stops(
                at_least,
                at_most,
                input,
                at,
                outs,
                offs,
                r2,
            );
        if outs1.len() <= outs2.len() {
            self.lemma_stops_single(
                at_least,
                at_most,
                input,
                at,
                outs1,
                offs1,
                r1,
                outs2,
                offs2,
                r2,
            );
        } else {
            self.lemma_stops_single(
                at_least,
                at_most,
                input,
                at,
                outs2,
                offs2,
                r2,
                outs1,
                offs1,
                r1,
            );
        }
    }

    /// Repeat this parser until `at_most` is met. If the parser fails before
    /// `at_least` outputs were collected, the parser fails with `None`,
    /// recoverably, at the offset it was called at.
    pub fn many_with(self, at_least: Option<usize>, at_most: Option<usize>) -> (p: Parser<
        'a,
        I,
        Vec<O>,
        Option<E>,
    >)
        ensures
            forall|input: I, at: usize|
                self.many_accepts(at_most, input, at) ==> #[trigger] p.accepts(input, at),
            forall|input: I, at: usize, r: ParseResult<Vec<O>, Option<E>>| #[trigger]
                p.yields(input, at, r) ==> self.many_yields(at_least, at_most, input, at, r),
            forall|input: I, at: usize, r: ParseResult<Vec<O>, Option<E>>| #[trigger]
                p.yields(input, at, r) ==> (r matches Ok((v, _)) ==> Self::within(
                    v@.len(),
                    at_least,
                    at_most,
                )),
            forall|inv: spec_fn(I, usize) -> bool|
                self.preserves(inv) ==> #[trigger] p.preserves(inv),
    {
        let run = move |input: I, at: usize| -> (r: ParseResult<Vec<O>, Option<E>>)
            requires
                self.many_accepts(at_most, input, at),
            ensures
                self.many_yields(at_least, at_most, input, at, r),
            {
                let mut os: Vec<O> = Vec::new();
                let mut rest: usize = at;
                let ghost mut offs: Seq<usize> = seq![at];
                // Every turn but the last adds an output, and a vector has
                // room for `usize::MAX` of them.
                loop
                    invariant
                        self.many_accepts(at_most, input, at),
                        self.chain(input, at, os@, offs),
                        offs.last() == rest,
                        at_most matches Some(max) ==> os.len() <= max,
                    ensures
                        self.chain(input, at, os@, offs),
                        offs.last() == rest,
                        !Self::full(os@.len(), at_most) ==> exists|e: Error<E>| #[trigger]
                            self.yields(input, rest, Err(e)) && e.recover == Recover::Recoverable,
                    decreases usize::MAX - os.len(),
                {
                    if at_most.is_some() && os.len() >= at_most.unwrap() {
                        break;
                    }
                    match self.parse_at(input, rest) {
                        Ok((o, r)) => {
                            proof {
                                self.lemma_chain_push(input, at, os@, offs, o, r);
                                offs = offs.push(r);
                            }
                            os.push(o);
                            rest = r;
                        },
                        Err(err) => match err.recover {
                            Recover::Recoverable => {
                                break;
                            },
                            Recover::Fatal => {
                                return Err(
                                    Error { inner: Some(err.inner), recover: err.recover, at: err.at },
                                );
                            },
                        },
                    }
                }
                if at_least.is_some() && os.len() < at_least.unwrap() {
                    Err(Error { inner: None, recover: Recover::Recoverable, at })
                } else {
                    Ok((os, rest))
                }
            };
        let p = Parser::new(run);
        proof {
            assert forall|inv: spec_fn(I, usize) -> bool| self.preserves(inv) implies #[trigger]
                p.preserves(inv) by {
                assert forall|input: I, at: usize| #[trigger] inv(input, at) implies {
                    &&& p.accepts(input, at)
                    &&& forall|r: ParseResult<Vec<O>, Option<E>>| #[trigger]
                        p.yields(input, at, r) ==> (r matches Ok((_, rest)) ==> inv(input, rest))
                } by {
                    assert forall|outs: Seq<O>, offs: Seq<usize>| #[trigger]
                        self.chain(input, at, outs, offs) implies inv(input, offs.last()) by {
                        self.lemma_chain_preserves(inv, input, at, outs, offs, outs.len() as int);
                    }
                }
            }
        }
        p
    }
    /// Whether an unbounded repetition stops behind the chain of runs that
    /// gave `outs`, with `r`: the next run fails, and a recoverable failure
    /// ends the repetition with `outs` and the offset reached, while a
    /// fatal one is its result.
    pub open spec fn many_all_stops(
        &self,
        input: I,
        outs: Seq<O>,
        offs: Seq<usize>,
        r: ParseResult<Vec<O>, E>,
    ) -> bool {
        exists|e: Error<E>| #[trigger]
            self.yields(input, offs.last(), Err(e)) && match e.recover {
                Recover::Recoverable => r matches Ok((v, rest)) && v@ == outs && rest
                    == offs.last(),
                Recover::Fatal => r == Err::<(Vec<O>, usize), Error<E>>(e),
            }
    }

    /// The results of an unbounded repetition: there is a chain of runs
    /// behind which the repetition stops.
    pub open spec fn many_all_yields(
        &self,
        input: I,
        at: usize,
        r: ParseResult<Vec<O>, E>,
    ) -> bool {
        exists|outs: Seq<O>, offs: Seq<usize>| #[trigger]
            self.chain(input, at, outs, offs) && self.many_all_stops(input, outs, offs, r)
    }

    /// An unbounded repetition of a parser with one result at most has one
    /// result at most, but for the vector that holds the outputs.
    pub proof fn lemma_many_single(
        &self,
        input: I,
        at: usize,
        r1: ParseResult<Vec<O>, E>,
        r2: ParseResult<Vec<O>, E>,
    )
        requires
            self.single(input),
            self.many_all_yields(input, at, r1),
            self.many_all_yields(input, at, r2),
        ensures
            Self::agree(r1, r2),
    {
        let (outs1, offs1) = choose|outs: Seq<O>, offs: Seq<usize>| #[trigger]
            self.chain(input, at, outs, offs) && self.many_all_stops(input, outs, offs, r1);
        let (outs2, offs2) = choose|outs: Seq<O>, offs: Seq<usize>| #[trigger]
            self.chain(input, at, outs, offs) && self.many_all_stops(input, outs, offs, r2);
        let n1 = outs1.len() as int;
        let n2 = outs2.len() as int;
        let n = if n1 <= n2 {
            n1
        } else {
            n2
        };
        self.lemma_chain_single(input, at, outs1, offs1, outs2, offs2, n);
        if n < n2 {
            assert(self.yields(input, offs2[n], Ok((outs2[n], offs2[n + 1]))));
        }
        if n < n1 {
            assert(self.yields(input, offs1[n], Ok((outs1[n], offs1[n + 1]))));
        }
        assert(outs1 =~= outs2);
    }

    /// Repeat this parser indefinitely until failure.
    /// This is equivalent to `.many_with(None, None)`, but for the type of
    /// the error: with no bound to miss, the only failure is a fatal one of
    /// the parser itself.
    pub fn many(self) -> (p: Parser<'a, I, Vec<O>, E>)
        ensures
            forall|input: I, at: usize|
                self.many_accepts(None, input, at) ==> #[trigger] p.accepts(input, at),
            forall|input: I, at: usize, r: ParseResult<Vec<O>, E>| #[trigger]
                p.yields(input, at, r) ==> self.many_all_yields(input, at, r),
            forall|inv: spec_fn(I, usize) -> bool|
                self.preserves(inv) ==> #[trigger] p.preserves(inv),
    {
        let unwrap = |e: Option<E>| -> (inner: E)
            requires
                e is Some,
            ensures
                e == Some(inner),
            { e.unwrap() };
        let bounded = self.many_with(None, None);
        let p = bounded.map_err(unwrap);
        proof {
            assert forall|input: I, at: usize, rb: ParseResult<Vec<O>, Option<E>>| #[trigger]
                bounded.yields(input, at, rb) implies (rb matches Err(e) ==> e.recover
                == Recover::Fatal && e.inner is Some) by {
                self.lemma_many_with_count(None, None, input, at, rb);
            }
            assert forall|inv: spec_fn(I, usize) -> bool| self.preserves(inv) implies #[trigger]
                p.preserves(inv) by {
                assert(bounded.preserves(inv));
            }
        }
        p
    }
}

} // verus!
