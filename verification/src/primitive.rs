//! These can be used as a starting point for building parsers.

use crate::error::{Error, ParseResult, Recover};
use crate::parser::Parser;
use crate::slice::Slice;
use vstd::prelude::*;

verus! {

/// Successfully parse nothing.
pub fn identity<'a, I: Copy + 'a>() -> (p: Parser<'a, I, (), ()>)
    ensures
        forall|input: I, at: usize| #[trigger] p.accepts(input, at),
        forall|input: I, at: usize, r: ParseResult<(), ()>| #[trigger]
            p.yields(input, at, r) ==> r == Ok::<((), usize), Error<()>>(((), at)),
        forall|inv: spec_fn(I, usize) -> bool| #[trigger] p.preserves(inv),
        forall|input: I| #[trigger] p.single(input),
{
    let run = |_input: I, at: usize| -> (r: ParseResult<(), ()>)
        ensures
            r == Ok::<((), usize), Error<()>>(((), at)),
        { Ok(((), at)) };
    Parser::new(run)
}

/// What `unit` returns on `input` from offset `at`: the item that starts
/// there and the offset behind it, or a recoverable failure at `at` where
/// the input ends.
pub open spec fn unit_result<'a, S: Slice<'a> + ?Sized>(input: &'a S, at: usize) -> ParseResult<
    S::Item,
    (),
> {
    match S::decode(input.units().skip(at as int)) {
        Some((c, len)) => Ok((c, (at + len) as usize)),
        None => Err(Error { inner: (), recover: Recover::Recoverable, at }),
    }
}

/// Parse and consume a single unit of the input.
/// For `&[T]`, this is `&T`; for `&str`, this is `char`.
pub fn unit<'a, S: Slice<'a> + ?Sized>() -> (p: Parser<'a, &'a S, S::Item, ()>)
    ensures
        forall|input: &'a S, at: usize|
            S::aligned(input.units(), at as int) ==> #[trigger] p.accepts(input, at),
        forall|input: &'a S, at: usize, r: ParseResult<S::Item, ()>| #[trigger]
            p.yields(input, at, r) ==> r == unit_result(input, at),
        p.sound(),
        forall|input: &'a S| #[trigger] p.single(input),
{
    let run = |input: &'a S, at: usize| -> (r: ParseResult<S::Item, ()>)
        requires
            S::aligned(input.units(), at as int),
        ensures
            r == unit_result(input, at),
            r matches Ok((_, rest)) ==> at < rest && S::aligned(input.units(), rest as int),
        {
            proof {
                input.lemma_aligned_bounds(at as int);
                input.lemma_decode_step(at as int);
            }
            let rest = input.index_from(at);
            if let Some((c, len)) = rest.first() {
                Ok((c, at + len))
            } else {
                Err(Error::new((), at))
            }
        };
    Parser::new(run)
}

/// Whether the whole input has been consumed.
pub fn end<'a, S: Slice<'a> + ?Sized>() -> (p: Parser<'a, &'a S, (), ()>)
    ensures
        forall|input: &'a S, at: usize| #[trigger] p.accepts(input, at),
        forall|input: &'a S, at: usize, r: ParseResult<(), ()>| #[trigger]
            p.yields(input, at, r) ==> r == if input.units().len() == at {
                Ok::<((), usize), Error<()>>(((), at))
            } else {
                Err(Error { inner: (), recover: Recover::Recoverable, at })
            },
        forall|inv: spec_fn(&'a S, usize) -> bool| #[trigger] p.preserves(inv),
        forall|input: &'a S| #[trigger] p.single(input),
{
    let run = |input: &'a S, at: usize| -> (r: ParseResult<(), ()>)
        ensures
            r == if input.units().len() == at {
                Ok::<((), usize), Error<()>>(((), at))
            } else {
                Err(Error { inner: (), recover: Recover::Recoverable, at })
            },
        {
            if input.len() == at {
                Ok(((), at))
            } else {
                Err(Error::new((), at))
            }
        };
    Parser::new(run)
}

/// A recoverable failure without detail at offset `at`.
pub open spec fn miss<O>(at: usize) -> ParseResult<O, ()> {
    Err(Error { inner: (), recover: Recover::Recoverable, at })
}

/// The results of `just(expected)` on `input` from offset `at`. Where the
/// input holds as many units behind `at` as `expected` has, and these end
/// on a boundary, they are compared with `expected` by `==`: the outcome
/// is `expected` and the offset behind them where they are equal, and a
/// recoverable failure at `at` where they are not. Everywhere else it is
/// that failure.
pub open spec fn just_yields<'a, S>(
    expected: &'a S,
    input: &'a S,
    at: usize,
    r: ParseResult<&'a S, ()>,
) -> bool where S: Slice<'a> + PartialEq<S> + ?Sized {
    let end = at + expected.units().len();
    if end <= input.units().len() && S::aligned(input.units(), end) {
        exists|found: &'a S, same: bool| #[trigger]
            call_ensures(S::eq, (found, expected), same) && found.units()
                == input.units().subrange(at as int, end) && r == if same {
                Ok::<(&'a S, usize), Error<()>>((expected, end as usize))
            } else {
                miss(at)
            }
    } else {
        r == miss::<&'a S>(at)
    }
}

/// If the remaining input starts with `expected`, output the match.
pub fn just<'a, 'b: 'a, S>(expected: &'b S) -> (p: Parser<'a, &'a S, &'a S, ()>) where
    S: Slice<'a> + PartialEq<S> + ?Sized,

    ensures
        forall|input: &'a S, at: usize|
            S::aligned(input.units(), at as int) ==> #[trigger] p.accepts(input, at),
        forall|input: &'a S, at: usize, r: ParseResult<&'a S, ()>| #[trigger]
            p.yields(input, at, r) ==> just_yields(expected, input, at, r),
        p.sound(),
{
    let run = move |input: &'a S, at: usize| -> (r: ParseResult<&'a S, ()>)
        requires
            S::aligned(input.units(), at as int),
        ensures
            just_yields(expected, input, at, r),
            r matches Ok((_, rest)) ==> at <= rest && S::aligned(input.units(), rest as int),
        {
            proof {
                input.lemma_aligned_bounds(at as int);
            }
            let len = expected.len();
            if input.len() - at >= len && input.is_boundary(at + len) {
                let found = input.index_between(at, at + len);
                if S::eq(found, expected) {
                    return Ok((expected, at + len));
                }
            }
            Err(Error::new((), at))
        };
    Parser::new(run)
}

/// Whether `errs` are recoverable failures of the first parsers of
/// `parsers`, one of each in their order, on `input` from offset `at`.
pub open spec fn passed_over<'a, I: Copy + 'a, O: 'a, E: 'a>(
    parsers: Seq<Parser<'a, I, O, E>>,
    input: I,
    at: usize,
    errs: Seq<Error<E>>,
) -> bool {
    &&& errs.len() <= parsers.len()
    &&& forall|k: int|
        0 <= k < errs.len() ==> parsers[k].yields(input, at, Err(#[trigger] errs[k]))
            && errs[k].recover == Recover::Recoverable
}

/// Whether the alternatives may be tried in turn: each parser may be run
/// at `at` once all before it have failed recoverably there.
pub open spec fn any_accepts<'a, I: Copy + 'a, O: 'a, E: 'a>(
    parsers: Seq<Parser<'a, I, O, E>>,
    input: I,
    at: usize,
) -> bool {
    forall|errs: Seq<Error<E>>| #[trigger]
        passed_over(parsers, input, at, errs) && errs.len() < parsers.len()
            ==> parsers[errs.len() as int].accepts(input, at)
}

/// Whether trying the alternatives ends behind the failures `errs` with
/// `r`: `r` is a result of the parser whose turn it is, and where `r` is
/// itself a recoverable failure that parser is the last.
pub open spec fn any_ends<'a, I: Copy + 'a, O: 'a, E: 'a>(
    parsers: Seq<Parser<'a, I, O, E>>,
    input: I,
    at: usize,
    errs: Seq<Error<E>>,
    r: ParseResult<O, E>,
) -> bool {
    &&& errs.len() < parsers.len()
    &&& parsers[errs.len() as int].yields(input, at, r)
    &&& (r matches Err(e) && e.recover == Recover::Recoverable) ==> errs.len() == parsers.len() - 1
}

/// The results of trying the alternatives in turn: `r` is a result of one
/// of the parsers, all parsers before it have failed recoverably, and
/// where `r` is itself a recoverable failure that parser is the last.
pub open spec fn any_yields<'a, I: Copy + 'a, O: 'a, E: 'a>(
    parsers: Seq<Parser<'a, I, O, E>>,
    input: I,
    at: usize,
    r: ParseResult<O, E>,
) -> bool {
    exists|errs: Seq<Error<E>>| #[trigger]
        passed_over(parsers, input, at, errs) && any_ends(parsers, input, at, errs, r)
}

/// Alternatives that have one result at most each have one result at most
/// together.
pub proof fn lemma_any_single<'a, I: Copy + 'a, O: 'a, E: 'a>(
    parsers: Seq<Parser<'a, I, O, E>>,
    input: I,
    at: usize,
    r1: ParseResult<O, E>,
    r2: ParseResult<O, E>,
)
    requires
        forall|k: int| 0 <= k < parsers.len() ==> (#[trigger] parsers[k]).single(input),
        any_yields(parsers, input, at, r1),
        any_yields(parsers, input, at, r2),
    ensures
        r1 == r2,
{
    let errs1 = choose|errs: Seq<Error<E>>| #[trigger]
        passed_over(parsers, input, at, errs) && any_ends(parsers, input, at, errs, r1);
    let errs2 = choose|errs: Seq<Error<E>>| #[trigger]
        passed_over(parsers, input, at, errs) && any_ends(parsers, input, at, errs, r2);
    let k1 = errs1.len() as int;
    let k2 = errs2.len() as int;
    assert(parsers[k1].single(input));
    assert(parsers[k2].single(input));
    if k1 < k2 {
        assert(parsers[k1].yields(input, at, Err(errs2[k1])));
    }
    if k2 < k1 {
        assert(parsers[k2].yields(input, at, Err(errs1[k2])));
    }
}

/// Two alternatives tried in turn are the first `or` the second: `any` of
/// the two may be run where `or` may, and returns what `or` returns.
pub proof fn lemma_any_of_two<'a, I: Copy + 'a, O: 'a, E: 'a>(
    first: Parser<'a, I, O, E>,
    second: Parser<'a, I, O, E>,
    input: I,
    at: usize,
    r: ParseResult<O, E>,
)
    ensures
        any_accepts(seq![first, second], input, at) <==> first.or_accepts(&second, input, at),
        any_yields(seq![first, second], input, at, r) <==> first.or_yields(&second, input, at, r),
{
    let both = seq![first, second];
    assert(both[0] == first && both[1] == second);
    let none = Seq::<Error<E>>::empty();
    assert(passed_over(both, input, at, none));
    if any_accepts(both, input, at) {
        assert forall|ra: ParseResult<O, E>| #[trigger]
            first.yields(input, at, ra) implies (ra matches Err(e) && e.recover
            == Recover::Recoverable ==> second.accepts(input, at)) by {
            if let Err(e) = ra {
                if e.recover == Recover::Recoverable {
                    assert(seq![e][0] == e);
                    assert(passed_over(both, input, at, seq![e]));
                }
            }
        }
    }
    if first.or_accepts(&second, input, at) {
        assert forall|errs: Seq<Error<E>>| #[trigger]
            passed_over(both, input, at, errs) && errs.len() < both.len() implies both[errs.len() as int]
            .accepts(input, at) by {
            if errs.len() == 1 {
                assert(first.yields(input, at, Err(errs[0])));
            }
        }
    }
    if any_yields(both, input, at, r) {
        let errs = choose|errs: Seq<Error<E>>| #[trigger]
            passed_over(both, input, at, errs) && any_ends(both, input, at, errs, r);
        if errs.len() == 1 {
            assert(first.yields(input, at, Err(errs[0])));
        }
    }
    if first.or_yields(&second, input, at, r) {
        let ra = choose|ra: ParseResult<O, E>| #[trigger]
            first.yields(input, at, ra) && match ra {
                Ok(_) => r == ra,
                Err(e) => match e.recover {
                    Recover::Recoverable => second.yields(input, at, r),
                    Recover::Fatal => r == ra,
                },
            };
        match ra {
            Err(e) if e.recover == Recover::Recoverable => {
                assert(seq![e][0] == e);
                assert(passed_over(both, input, at, seq![e]));
                assert(any_ends(both, input, at, seq![e], r));
            },
            _ => {
                assert(any_ends(both, input, at, none, r));
            },
        }
    }
}

/// Try all parsers in sequence. Equivalent to `a.or(b).or(c)...`.
///
/// The first success wins, a fatal failure ends the search at once, and
/// where every parser fails recoverably the failure of the last is
/// returned. There must be at least one parser.
pub fn any<'a, I: Copy + 'a, O: 'a, E: 'a>(parsers: Vec<Parser<'a, I, O, E>>) -> (p: Parser<
    'a,
    I,
    O,
    E,
>)
    requires
        parsers.len() > 0,
    ensures
        forall|input: I, at: usize|
            any_accepts(parsers@, input, at) ==> #[trigger] p.accepts(input, at),
        forall|input: I, at: usize, r: ParseResult<O, E>| #[trigger]
            p.yields(input, at, r) ==> any_yields(parsers@, input, at, r),
        forall|inv: spec_fn(I, usize) -> bool|
            (forall|k: int| 0 <= k < parsers.len() ==> (#[trigger] parsers[k]).preserves(inv))
                ==> #[trigger] p.preserves(inv),
{
    let run = move |input: I, at: usize| -> (r: ParseResult<O, E>)
        requires
            parsers.len() > 0,
            any_accepts(parsers@, input, at),
        ensures
            any_yields(parsers@, input, at, r),
        {
            let mut k: usize = 0;
            let ghost mut errs: Seq<Error<E>> = Seq::empty();
            loop
                invariant
                    k < parsers.len(),
                    errs.len() == k,
                    passed_over(parsers@, input, at, errs),
                    any_accepts(parsers@, input, at),
                decreases parsers.len() - k,
            {
                match parsers[k].parse_at(input, at) {
                    Ok((o, rest)) => {
                        return Ok((o, rest));
                    },
                    Err(err) => match err.recover {
                        Recover::Recoverable => {
                            if k + 1 == parsers.len() {
                                return Err(err);
                            }
                            proof {
                                errs = errs.push(err);
                            }
                            k += 1;
                        },
                        Recover::Fatal => {
                            return Err(err);
                        },
                    },
                }
            }
        };
    Parser::new(run)
}

} // verus!
