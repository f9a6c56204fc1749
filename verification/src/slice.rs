//! See [`Slice`].

use vstd::prelude::*;
use vstd::string::*;
use vstd::utf8::*;

verus! {

/// Generalizes types that can be an `I` in some primitive parsers,
/// e.g. [`unit`](crate::primitive::unit).
/// Combinators that operate on `Slice`s will return a
/// `Parser<&S, _> where S: Slice`.
///
/// Positions in a slice are counted in *units*: elements for an array, bytes
/// for text. Items are decoded from one or more units, so only some
/// positions are item boundaries; every offset handed to the indexing
/// operations must be one. The indexing operations copy nothing, and each
/// of them also says that the units of a slice are no more than a `usize`
/// counts.
pub trait Slice<'a> {
    /// What a parser reads from the front of the slice.
    type Item;

    /// What one step of an offset addresses.
    type Unit;

    /// The contents of the slice, one entry per offset.
    spec fn units(&self) -> Seq<Self::Unit>;

    /// Whether `n` is an item boundary of a slice that holds `units`.
    spec fn aligned(units: Seq<Self::Unit>, n: int) -> bool;

    /// The leading item of a slice that holds `units`, with its width in
    /// units; `None` when there is none.
    spec fn decode(units: Seq<Self::Unit>) -> Option<(Self::Item, usize)>;

    /// Both ends of a slice are boundaries, and no boundary lies outside it.
    proof fn lemma_aligned_bounds(&self, n: int)
        ensures
            Self::aligned(self.units(), 0),
            Self::aligned(self.units(), self.units().len() as int),
            Self::aligned(self.units(), n) ==> 0 <= n <= self.units().len(),
    ;

    /// At a boundary either the slice ends, or an item starts that is at
    /// least one unit wide and ends on a boundary inside the slice.
    proof fn lemma_decode_step(&self, n: int)
        requires
            Self::aligned(self.units(), n),
        ensures
            match Self::decode(self.units().skip(n)) {
                None => n == self.units().len(),
                Some((_, w)) => 1 <= w && n + w <= self.units().len() && Self::aligned(
                    self.units(),
                    n + w,
                ),
            },
    ;

    /// Whether the slice holds no units.
    fn is_empty(&'a self) -> (r: bool)
        ensures
            r == (self.units().len() == 0),
    ;

    /// The number of units in the slice.
    fn len(&'a self) -> (r: usize)
        ensures
            r == self.units().len(),
    ;

    /// The leading item and its width in units, or `None` when the slice
    /// is empty.
    fn first(&'a self) -> (r: Option<(Self::Item, usize)>)
        ensures
            r == Self::decode(self.units()),
            r is None <==> self.units().len() == 0,
    ;

    /// Whether `n` is an offset that the indexing operations accept.
    fn is_boundary(&'a self, n: usize) -> (r: bool)
        ensures
            r == Self::aligned(self.units(), n as int),
    ;

    /// `slice[..n]`.
    fn index_to(&'a self, n: usize) -> (r: &Self)
        requires
            Self::aligned(self.units(), n as int),
        ensures
            r.units() == self.units().take(n as int),
            self.units().len() <= usize::MAX,
    ;

    /// `slice[n..]`.
    fn index_from(&'a self, n: usize) -> (r: &Self)
        requires
            Self::aligned(self.units(), n as int),
        ensures
            r.units() == self.units().skip(n as int),
            self.units().len() <= usize::MAX,
    ;

    /// `slice[n..o]`.
    fn index_between(&'a self, n: usize, o: usize) -> (r: &Self)
        requires
            n <= o,
            Self::aligned(self.units(), n as int),
            Self::aligned(self.units(), o as int),
        ensures
            r.units() == self.units().subrange(n as int, o as int),
            self.units().len() <= usize::MAX,
    ;
}

impl<'a, T: 'a> Slice<'a> for [T] {
    type Item = &'a T;

    type Unit = T;

    open spec fn units(&self) -> Seq<T> {
        self@
    }

    open spec fn aligned(units: Seq<T>, n: int) -> bool {
        0 <= n <= units.len()
    }

    open spec fn decode(units: Seq<T>) -> Option<(&'a T, usize)> {
        if units.len() == 0 {
            None
        } else {
            Some((&units[0], 1))
        }
    }

    proof fn lemma_aligned_bounds(&self, n: int) {
    }

    proof fn lemma_decode_step(&self, n: int) {
    }

    fn is_empty(&'a self) -> (r: bool) {
        self.is_empty()
    }

    fn len(&'a self) -> (r: usize) {
        self.len()
    }

    fn first(&'a self) -> (r: Option<(&'a T, usize)>) {
        match self.first() {
            Some(t) => Some((t, 1)),
            None => None,
        }
    }

    fn is_boundary(&'a self, n: usize) -> (r: bool) {
        n <= self.len()
    }

    fn index_to(&'a self, n: usize) -> (r: &Self) {
        assert(self@.len() == self.len());
        &self[0..n]
    }

    fn index_from(&'a self, n: usize) -> (r: &Self) {
        &self[n..self.len()]
    }

    fn index_between(&'a self, n: usize, o: usize) -> (r: &Self) {
        assert(self@.len() == self.len());
        &self[n..o]
    }
}

/// `char::len_utf8`: the number of bytes that the UTF-8 encoding of `c` takes.
pub assume_specification[ char::len_utf8 ](c: char) -> (n: usize)
    ensures
        n == encode_scalar(c as u32).len(),
;

/// Every boundary of a text lies inside it.
proof fn lemma_boundary_in_range(bytes: Seq<u8>, n: int)
    requires
        valid_utf8(bytes),
        is_char_boundary(bytes, n),
    ensures
        0 <= n <= bytes.len(),
    decreases bytes.len(),
{
    if n != 0 && bytes.len() != 0 {
        lemma_boundary_in_range(pop_first_scalar(bytes), n - length_of_first_scalar(bytes));
    }
}

/// A boundary of a text stays one in every prefix that reaches it.
proof fn lemma_prefix_boundary(bytes: Seq<u8>, n: int, o: int)
    requires
        valid_utf8(bytes),
        n <= o,
        is_char_boundary(bytes, n),
        is_char_boundary(bytes, o),
    ensures
        valid_utf8(bytes.subrange(0, o)),
        is_char_boundary(bytes.subrange(0, o), n),
{
    let prefix = bytes.subrange(0, o);
    valid_utf8_split(bytes, o);
    is_char_boundary_start_end_of_seq(prefix);
    is_char_boundary_start_end_of_seq(bytes);
    if 0 < n < o {
        is_char_boundary_iff_not_is_continuation_byte(bytes, n);
        is_char_boundary_iff_not_is_continuation_byte(prefix, n);
    }
}

/// A boundary of a text, counted from an earlier boundary, is one of the
/// suffix that starts there, and the other way round.
proof fn lemma_suffix_boundary(bytes: Seq<u8>, n: int, k: int)
    requires
        valid_utf8(bytes),
        is_char_boundary(bytes, n),
        0 <= k,
    ensures
        valid_utf8(bytes.skip(n)),
        is_char_boundary(bytes.skip(n), k) == is_char_boundary(bytes, n + k),
{
    let suffix = bytes.skip(n);
    valid_utf8_split(bytes, n);
    is_char_boundary_start_end_of_seq(suffix);
    is_char_boundary_start_end_of_seq(bytes);
    if n + k < bytes.len() {
        is_char_boundary_iff_not_is_continuation_byte(bytes, n + k);
        is_char_boundary_iff_not_is_continuation_byte(suffix, k);
    }
}

/// The length of a text in bytes. It is taken from the bytes, because of
/// a byte slice it is known that its length fits a `usize`.
fn byte_len(s: &str) -> (n: usize)
    ensures
        n == s.spec_bytes().len(),
{
    s.as_bytes().len()
}

impl<'a> Slice<'a> for str {
    type Item = char;

    type Unit = u8;

    open spec fn units(&self) -> Seq<u8> {
        self.spec_bytes()
    }

    open spec fn aligned(units: Seq<u8>, n: int) -> bool {
        is_char_boundary(units, n)
    }

    open spec fn decode(units: Seq<u8>) -> Option<(char, usize)> {
        if units.len() == 0 {
            None
        } else {
            Some((decode_first_scalar(units) as char, length_of_first_scalar(units) as usize))
        }
    }

    proof fn lemma_aligned_bounds(&self, n: int) {
        encode_utf8_valid_utf8(self@);
        is_char_boundary_start_end_of_seq(self.spec_bytes());
        if is_char_boundary(self.spec_bytes(), n) {
            lemma_boundary_in_range(self.spec_bytes(), n);
        }
    }

    proof fn lemma_decode_step(&self, n: int) {
        let bytes = self.spec_bytes();
        encode_utf8_valid_utf8(self@);
        if n < bytes.len() {
            let suffix = bytes.skip(n);
            let w = length_of_first_scalar(suffix);
            lemma_suffix_boundary(bytes, n, w);
            reveal_with_fuel(is_char_boundary, 2);
            is_char_boundary_start_end_of_seq(pop_first_scalar(suffix));
        }
    }

    fn is_empty(&'a self) -> (r: bool) {
        proof {
            encode_utf8_decode_utf8(self@);
        }
        self.is_empty()
    }

    fn len(&'a self) -> (r: usize) {
        byte_len(self)
    }

    fn first(&'a self) -> (r: Option<(char, usize)>) {
        if self.is_empty() {
            proof {
                assert(self@ =~= Seq::<char>::empty());
            }
            None
        } else {
            let c = self.get_char(0);
            proof {
                encode_utf8_first_scalar(self@);
                char_u32_cast(c, c as u32);
            }
            Some((c, c.len_utf8()))
        }
    }

    fn is_boundary(&'a self, n: usize) -> (r: bool) {
        self.is_char_boundary(n)
    }

    fn index_to(&'a self, n: usize) -> (r: &Self) {
        let _total = byte_len(self);
        self.split_at(n).0
    }

    fn index_from(&'a self, n: usize) -> (r: &Self) {
        let _total = byte_len(self);
        self.split_at(n).1
    }

    fn index_between(&'a self, n: usize, o: usize) -> (r: &Self) {
        proof {
            encode_utf8_valid_utf8(self@);
            lemma_prefix_boundary(self.spec_bytes(), n as int, o as int);
        }
        let _total = byte_len(self);
        self.split_at(o).0.split_at(n).1
    }
}

} // verus!
