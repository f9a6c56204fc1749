//! Parsers that are not primitives, but may still be useful.

use crate::error::{Error, ParseResult};
use crate::parser::Parser;
use crate::primitive::{miss, unit, unit_result};
use crate::slice::Slice;
use vstd::prelude::*;

verus! {

/// Whether `items` are successive items of `input`, the first at `at`, of
/// each of which `predicate` holds: item `k` lies between `offs[k]` and
/// `offs[k + 1]`.
pub open spec fn accepted_run<'a, S, P>(
    predicate: &P,
    input: &'a S,
    at: usize,
    items: Seq<S::Item>,
    offs: Seq<usize>,
) -> bool where S: Slice<'a> + ?Sized, P: Fn(&S::Item) -> bool {
    &&& offs.len() == items.len() + 1
    &&& offs[0] == at
    &&& forall|k: int|
        0 <= k < items.len() ==> unit_result(input, offs[k]) == Ok::<(S::Item, usize), Error<()>>(
            (#[trigger] items[k], offs[k + 1]),
        ) && call_ensures(*predicate, (&items[k],), true)
}

/// Whether a run of accepted items cannot go on at `end`: the input ends
/// there, or `predicate` does not hold of the item that starts there.
pub open spec fn run_ends<'a, S, P>(predicate: &P, input: &'a S, end: usize) -> bool where
    S: Slice<'a> + ?Sized,
    P: Fn(&S::Item) -> bool,
 {
    match unit_result(input, end) {
        Ok((c, _)) => call_ensures(*predicate, (&c,), false),
        Err(_) => true,
    }
}

/// The results of `recognize_input`: the longest run of items from `at` of
/// which `predicate` holds is cut out of the input, and an empty run is a
/// recoverable failure at `at`.
pub open spec fn recognized<'a, S, P>(
    predicate: &P,
    input: &'a S,
    at: usize,
    r: ParseResult<&'a S, ()>,
) -> bool where S: Slice<'a> + ?Sized, P: Fn(&S::Item) -> bool {
    exists|items: Seq<S::Item>, offs: Seq<usize>| #[trigger]
        accepted_run(predicate, input, at, items, offs) && run_ends(predicate, input, offs.last())
            && if items.len() == 0 {
            r == miss::<&'a S>(at)
        } else {
            r matches Ok((found, end)) && end == offs.last() && found.units()
                == input.units().subrange(at as int, end as int)
        }
}

/// Consume one or more units of input while `predicate` is true.
pub fn recognize_input<'a, S, P>(predicate: P) -> (p: Parser<'a, &'a S, &'a S, ()>) where
    S: Slice<'a> + ?Sized,
    P: Fn(&S::Item) -> bool + 'a,

    ensures
        (forall|c: S::Item| call_requires(predicate, (&c,))) ==> p.sound(),
        forall|input: &'a S, at: usize, r: ParseResult<&'a S, ()>| #[trigger]
            p.yields(input, at, r) ==> recognized(&predicate, input, at, r),
{
    let one = unit::<S>();
    let kept = one.filter(predicate);
    let item = kept.ignore();
    let run = item.many_with(Some(1), None);
    let found = run.input();
    let drop = |_e: Option<()>| -> (u: ()) { () };
    let p = found.map_err(drop);
    proof {
        assert forall|input: &'a S, at: usize, r: ParseResult<&'a S, ()>| #[trigger]
            p.yields(input, at, r) implies recognized(&predicate, input, at, r) by {
            let rf = choose|rf: ParseResult<&'a S, Option<()>>| #[trigger]
                found.yields(input, at, rf) && match rf {
                    Ok(ok) => r == Ok::<(&'a S, usize), Error<()>>(ok),
                    Err(e) => r matches Err(e1) && e1.recover == e.recover && e1.at == e.at,
                };
            let rr = choose|rr: ParseResult<Vec<()>, Option<()>>| #[trigger]
                run.yields(input, at, rr) && match rr {
                    Ok((_, rest)) => rf matches Ok((found, end)) && end == rest && found.units()
                        == input.units().subrange(at as int, rest as int),
                    Err(e) => rf == Err::<(&'a S, usize), Error<Option<()>>>(e),
                };
            let (outs, offs) = choose|outs: Seq<()>, offs: Seq<usize>| #[trigger]
                item.chain(input, at, outs, offs) && item.many_stops(
                    Some(1),
                    None,
                    input,
                    at,
                    outs,
                    offs,
                    rr,
                );
            let items = Seq::new(outs.len(), |k: int| unit_result(input, offs[k])->Ok_0.0);
            assert forall|k: int| 0 <= k < items.len() implies unit_result(input, offs[k]) == Ok::<
                (S::Item, usize),
                Error<()>,
            >((#[trigger] items[k], offs[k + 1])) && call_ensures(predicate, (&items[k],), true) by {
                assert(item.yields(input, offs[k], Ok((outs[k], offs[k + 1]))));
            }
            assert(accepted_run(&predicate, input, at, items, offs));
        }
    }
    p
}

} // verus!
