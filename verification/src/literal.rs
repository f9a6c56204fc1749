//! What `just` does on text and on arrays.

use crate::error::{Error, ParseResult};
use crate::primitive::{just_yields, miss};
use vstd::prelude::*;
use vstd::std_specs::cmp::PartialEqSpec;
use vstd::string::*;
use vstd::utf8::*;

verus! {

/// Whether the units of `literal` stand in `units` from offset `at` on.
pub open spec fn stands_at<T>(units: Seq<T>, at: int, literal: Seq<T>) -> bool {
    at + literal.len() <= units.len() && units.subrange(at, at + literal.len()) == literal
}

/// A text that starts with all of another text has a boundary where that
/// one ends.
proof fn lemma_prefix_ends_on_boundary(bytes: Seq<u8>, literal: Seq<u8>)
    requires
        valid_utf8(bytes),
        valid_utf8(literal),
        stands_at(bytes, 0, literal),
    ensures
        is_char_boundary(bytes, literal.len() as int),
    decreases literal.len(),
{
    if literal.len() != 0 {
        assert(bytes.subrange(0, 0int + literal.len()) == literal);
        assert(forall|i: int| 0 <= i < literal.len() ==> bytes[i] == bytes.subrange(
            0,
            0int + literal.len(),
        )[i]);
        let width = length_of_first_scalar(literal);
        assert(length_of_first_scalar(bytes) == width);
        let rest = pop_first_scalar(bytes);
        let tail = pop_first_scalar(literal);
        assert(rest.subrange(0, 0int + tail.len()) =~= tail);
        lemma_prefix_ends_on_boundary(rest, tail);
    }
}

/// Where a text stands in another from a boundary on, it also ends on one.
pub proof fn lemma_literal_ends_on_boundary(bytes: Seq<u8>, at: int, literal: Seq<u8>)
    requires
        valid_utf8(bytes),
        valid_utf8(literal),
        0 <= at,
        is_char_boundary(bytes, at),
        stands_at(bytes, at, literal),
    ensures
        is_char_boundary(bytes, at + literal.len()),
{
    let suffix = bytes.skip(at);
    valid_utf8_split(bytes, at);
    assert(suffix.subrange(0, 0int + literal.len()) =~= bytes.subrange(at, at + literal.len()));
    lemma_prefix_ends_on_boundary(suffix, literal);
    is_char_boundary_start_end_of_seq(bytes);
    if at + literal.len() < bytes.len() {
        is_char_boundary_iff_not_is_continuation_byte(bytes, at + literal.len());
        is_char_boundary_iff_not_is_continuation_byte(suffix, literal.len() as int);
    }
}

/// On text, `just(expected)` run from a boundary succeeds exactly where
/// the bytes of `expected` stand in the input from `at` on, with
/// `expected` and the offset behind them; everywhere else it fails
/// recoverably at `at`.
pub proof fn lemma_just_text<'a>(
    expected: &'a str,
    input: &'a str,
    at: usize,
    r: ParseResult<&'a str, ()>,
)
    requires
        is_char_boundary(input.spec_bytes(), at as int),
        just_yields(expected, input, at, r),
    ensures
        r == if stands_at(input.spec_bytes(), at as int, expected.spec_bytes()) {
            Ok::<(&'a str, usize), Error<()>>(
                (expected, (at + expected.spec_bytes().len()) as usize),
            )
        } else {
            miss(at)
        },
{
    let bytes = input.spec_bytes();
    let literal = expected.spec_bytes();
    let end = at + literal.len();
    encode_utf8_valid_utf8(input@);
    encode_utf8_valid_utf8(expected@);
    if stands_at(bytes, at as int, literal) {
        lemma_literal_ends_on_boundary(bytes, at as int, literal);
    }
    if end <= bytes.len() && is_char_boundary(bytes, end) {
        let (found, same) = choose|found: &'a str, same: bool| #[trigger]
            call_ensures(str::eq, (found, expected), same) && found.spec_bytes() == bytes.subrange(
                at as int,
                end,
            ) && r == if same {
                Ok::<(&'a str, usize), Error<()>>((expected, end as usize))
            } else {
                miss(at)
            };
        encode_utf8_decode_utf8(found@);
        encode_utf8_decode_utf8(expected@);
    }
}

/// On an array whose elements are compared as their specification says,
/// `just(expected)` succeeds exactly where the input holds, from `at` on,
/// as many elements as `expected` has, each equal to the one of
/// `expected` at its place; it then returns `expected` and the offset
/// behind them. Everywhere else it fails recoverably at `at`.
pub proof fn lemma_just_array<'a, T: PartialEq>(
    expected: &'a [T],
    input: &'a [T],
    at: usize,
    r: ParseResult<&'a [T], ()>,
)
    requires
        T::obeys_eq_spec(),
        just_yields(expected, input, at, r),
    ensures
        r == if at + expected@.len() <= input@.len() && forall|i: int|
            0 <= i < expected@.len() ==> (#[trigger] input@[at + i]).eq_spec(&expected@[i]) {
            Ok::<(&'a [T], usize), Error<()>>((expected, (at + expected@.len()) as usize))
        } else {
            miss(at)
        },
{
    let end = at + expected@.len();
    if end <= input@.len() {
        let (found, same) = choose|found: &'a [T], same: bool| #[trigger]
            call_ensures(<[T] as PartialEq<[T]>>::eq, (found, expected), same) && found@
                == input@.subrange(at as int, end) && r == if same {
                Ok::<(&'a [T], usize), Error<()>>((expected, end as usize))
            } else {
                miss(at)
            };
        assert(forall|i: int| 0 <= i < expected@.len() ==> found@[i] == input@[at + i]);
        if same {
            assert forall|i: int| 0 <= i < expected@.len() implies (#[trigger] input@[at
                + i]).eq_spec(&expected@[i]) by {
                assert(found@[i].eq_spec(&expected@[i]));
            }
        } else {
            if forall|i: int|
                0 <= i < expected@.len() ==> (#[trigger] input@[at + i]).eq_spec(&expected@[i]) {
                assert forall|i: int| 0 <= i < found@.len() implies (#[trigger] found@[i]).eq_spec(
                    &expected@[i],
                ) by {
                    assert(input@[at + i].eq_spec(&expected@[i]));
                }
            }
        }
    }
}

} // verus!
