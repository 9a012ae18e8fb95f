//! The input capability contract: the operations a concrete input
//! representation must provide, the element-classifier contract, a reference
//! implementation over a byte slice, and the comparison and scanning
//! operations derived from the contract, written once for every
//! representation.

use crate::model::{
    ascii_lower, count_while, find_sub, is_prefix_of, lemma_count_while_unique,
    lemma_find_sub_none, lemma_find_sub_unique, lowered, match_at, negate, InputModel,
};
use vstd::prelude::*;
use vstd::slice::{slice_index_get, slice_subrange};

verus! {

/// What a caller's input representation must provide: an immutable,
/// cheaply-derivable cursor over a sequence of elements, carrying the
/// end-of-data flag. Every operation that consumes elements produces new
/// values; nothing is mutated in place.
pub trait ParseInput: Sized {
    /// The element sequence this cursor still holds.
    spec fn seq(&self) -> Seq<u8>;

    /// Whether this value is the final chunk of its source, so that no more
    /// data can ever arrive after the elements of `seq`.
    spec fn complete(&self) -> bool;

    /// Number of elements remaining.
    fn input_len(&self) -> (n: usize)
        ensures
            n == self.seq().len(),
    ;

    /// The end-of-data flag.
    fn at_eof(&self) -> (b: bool)
        ensures
            b == self.complete(),
    ;

    /// The element at index `idx`.
    fn byte_at(&self, idx: usize) -> (c: u8)
        requires
            idx < self.seq().len(),
        ensures
            c == self.seq()[idx as int],
    ;

    /// Split at element index `idx` into `(remainder, consumed)`. Both
    /// derived inputs keep the end-of-data flag of the original: they view
    /// the same underlying data.
    fn take_split(&self, idx: usize) -> (r: (Self, Self))
        requires
            idx <= self.seq().len(),
        ensures
            r.0.seq() == self.seq().subrange(idx as int, self.seq().len() as int),
            r.1.seq() == self.seq().subrange(0, idx as int),
            r.0.complete() == self.complete(),
            r.1.complete() == self.complete(),
    ;
}

/// The model of an input value.
pub open spec fn in_model<I: ParseInput>(i: &I) -> InputModel {
    InputModel { data: i.seq(), complete: i.complete() }
}

/// An element classifier: the capability a combinator needs in order to test
/// one element for class membership. The executable test must agree with the
/// spec-level `test_spec`, so a classifier is a pure function of the element.
pub trait Predicate {
    /// What the classifier holds of one element.
    spec fn test_spec(&self, c: u8) -> bool;

    /// Test one element.
    fn test(&self, c: u8) -> (r: bool)
        ensures
            r == self.test_spec(c),
    ;
}

/// The classifier `p`, as a spec-level element predicate.
pub open spec fn pred_of<P: Predicate>(p: &P) -> spec_fn(u8) -> bool {
    |c: u8| p.test_spec(c)
}

/// A reference input implementation: a cursor over a borrowed byte slice,
/// together with the end-of-data flag. Splitting shares the underlying
/// data; nothing is copied.
#[derive(Clone, Copy, PartialEq, Eq, Debug)]
pub struct Bytes<'a> {
    data: &'a [u8],
    end_of_data: bool,
}

impl<'a> Bytes<'a> {
    /// A cursor over `data` known to be the final chunk of its source.
    pub fn new_complete(data: &'a [u8]) -> (r: Bytes<'a>)
        ensures
            r.seq() == data@,
            r.complete(),
    {
        Bytes { data, end_of_data: true }
    }

    /// A cursor over `data` that may be followed by more data later.
    pub fn new_streaming(data: &'a [u8]) -> (r: Bytes<'a>)
        ensures
            r.seq() == data@,
            !r.complete(),
    {
        Bytes { data, end_of_data: false }
    }

    /// The bytes still to be consumed.
    pub fn bytes(&self) -> (r: &'a [u8])
        ensures
            r@ == self.seq(),
    {
        self.data
    }
}

impl<'a> ParseInput for Bytes<'a> {
    closed spec fn seq(&self) -> Seq<u8> {
        self.data@
    }

    closed spec fn complete(&self) -> bool {
        self.end_of_data
    }

    fn input_len(&self) -> usize {
        self.data.len()
    }

    fn at_eof(&self) -> bool {
        self.end_of_data
    }

    fn byte_at(&self, idx: usize) -> u8 {
        *slice_index_get(self.data, idx)
    }

    fn take_split(&self, idx: usize) -> (Bytes<'a>, Bytes<'a>) {
        let prefix = slice_subrange(self.data, 0, idx);
        let suffix = slice_subrange(self.data, idx, self.data.len());
        (
            Bytes { data: suffix, end_of_data: self.end_of_data },
            Bytes { data: prefix, end_of_data: self.end_of_data },
        )
    }
}

/// Membership in an explicit set of bytes: the reference classifier, serving
/// both the allowed sets of `is_a` and the excluded sets of `is_not`.
#[derive(Clone, Copy, Debug)]
pub struct ByteSet<'a> {
    elems: &'a [u8],
}

impl<'a> ByteSet<'a> {
    /// The elements of the set, in the order given to `new`.
    pub closed spec fn as_seq(&self) -> Seq<u8> {
        self.elems@
    }

    /// The set holding exactly the bytes of `elems`.
    pub fn new(elems: &'a [u8]) -> (r: ByteSet<'a>)
        ensures
            r.as_seq() == elems@,
    {
        ByteSet { elems }
    }
}

impl<'a> Predicate for ByteSet<'a> {
    open spec fn test_spec(&self, c: u8) -> bool {
        self.as_seq().contains(c)
    }

    fn test(&self, c: u8) -> (r: bool) {
        let n = self.elems.len();
        let mut k: usize = 0;
        while k < n
            invariant
                k <= n,
                n == self.elems@.len(),
                forall|j: int| 0 <= j < k ==> self.elems@[j] != c,
            decreases n - k,
        {
            if *slice_index_get(self.elems, k) == c {
                assert(self.as_seq()[k as int] == c);
                return true;
            }
            k += 1;
        }
        false
    }
}

/// Verdict of comparing the input's prefix against a literal, element-wise
/// from the start.
#[derive(Clone, Copy, PartialEq, Eq, Structural, Debug)]
pub enum CompareResult {
    /// The whole literal matched a prefix of the input.
    Matches,
    /// Every element compared so far matched, but the input ran out before
    /// the literal did; under streaming semantics this can resolve to a
    /// needs-more-data verdict rather than a failure.
    OutOfData,
    /// Some element differs.
    Differs,
}

/// The comparison verdict, as a function of the two sequences.
pub open spec fn spec_compare(input: Seq<u8>, lit: Seq<u8>) -> CompareResult {
    if is_prefix_of(lit, input) {
        CompareResult::Matches
    } else if is_prefix_of(input, lit) {
        CompareResult::OutOfData
    } else {
        CompareResult::Differs
    }
}

/// Lexicographic element-wise comparison of the input's prefix against a
/// literal.
pub fn compare<I: ParseInput>(i: &I, lit: &[u8]) -> (r: CompareResult)
    ensures
        r == spec_compare(i.seq(), lit@),
{
    let ilen = i.input_len();
    let tlen = lit.len();
    let shorter = if ilen < tlen {
        ilen
    } else {
        tlen
    };
    let mut k: usize = 0;
    while k < shorter
        invariant
            k <= shorter,
            shorter <= ilen,
            shorter <= tlen,
            ilen == i.seq().len(),
            tlen == lit@.len(),
            shorter == if ilen < tlen { ilen } else { tlen },
            forall|j: int| 0 <= j < k ==> i.seq()[j] == lit@[j],
        decreases shorter - k,
    {
        if i.byte_at(k) != *slice_index_get(lit, k) {
            assert(!is_prefix_of(lit@, i.seq())) by {
                assert(is_prefix_of(lit@, i.seq()) ==> i.seq().subrange(0, lit@.len() as int)[
                    k as int] == lit@[k as int]);
            }
            assert(!is_prefix_of(i.seq(), lit@)) by {
                assert(is_prefix_of(i.seq(), lit@) ==> lit@.subrange(0, i.seq().len() as int)[
                    k as int] == i.seq()[k as int]);
            }
            return CompareResult::Differs;
        }
        k += 1;
    }
    if tlen <= ilen {
        assert(i.seq().subrange(0, lit@.len() as int) =~= lit@);
        CompareResult::Matches
    } else {
        assert(lit@.subrange(0, i.seq().len() as int) =~= i.seq());
        assert(!is_prefix_of(lit@, i.seq()));
        CompareResult::OutOfData
    }
}

/// ASCII case folding of one byte.
pub fn lower_byte(c: u8) -> (r: u8)
    ensures
        r == ascii_lower(c),
{
    if 65 <= c && c <= 90 {
        c + 32
    } else {
        c
    }
}

/// Compare the input's prefix against a literal with both sides folded to
/// ASCII lower case.
pub fn compare_no_case<I: ParseInput>(i: &I, lit: &[u8]) -> (r: CompareResult)
    ensures
        r == spec_compare(lowered(i.seq()), lowered(lit@)),
{
    let ilen = i.input_len();
    let tlen = lit.len();
    let ghost fi = lowered(i.seq());
    let ghost fl = lowered(lit@);
    let shorter = if ilen < tlen {
        ilen
    } else {
        tlen
    };
    let mut k: usize = 0;
    while k < shorter
        invariant
            k <= shorter,
            shorter <= ilen,
            shorter <= tlen,
            ilen == i.seq().len(),
            tlen == lit@.len(),
            fi == lowered(i.seq()),
            fl == lowered(lit@),
            shorter == if ilen < tlen { ilen } else { tlen },
            forall|j: int| 0 <= j < k ==> fi[j] == fl[j],
        decreases shorter - k,
    {
        if lower_byte(i.byte_at(k)) != lower_byte(*slice_index_get(lit, k)) {
            assert(fi[k as int] != fl[k as int]);
            assert(!is_prefix_of(fl, fi)) by {
                assert(is_prefix_of(fl, fi) ==> fi.subrange(0, fl.len() as int)[k as int] == fl[
                    k as int]);
            }
            assert(!is_prefix_of(fi, fl)) by {
                assert(is_prefix_of(fi, fl) ==> fl.subrange(0, fi.len() as int)[k as int] == fi[
                    k as int]);
            }
            return CompareResult::Differs;
        }
        assert(fi[k as int] == fl[k as int]);
        k += 1;
    }
    if tlen <= ilen {
        assert(fi.subrange(0, fl.len() as int) =~= fl);
        CompareResult::Matches
    } else {
        assert(fl.subrange(0, fi.len() as int) =~= fi);
        assert(!is_prefix_of(fl, fi));
        CompareResult::OutOfData
    }
}

/// Index of the first element that does not belong to the class, or the
/// input length when every element belongs: the positional scan that the
/// class-consuming combinators split at.
pub fn position_of_mismatch<I: ParseInput, P: Predicate>(i: &I, p: &P) -> (n: usize)
    ensures
        n == count_while(pred_of(p), i.seq()),
{
    let len = i.input_len();
    let mut j: usize = 0;
    while j < len
        invariant
            j <= len,
            len == i.seq().len(),
            forall|k: int| 0 <= k < j ==> pred_of(p)(i.seq()[k]),
        decreases len - j,
    {
        if !p.test(i.byte_at(j)) {
            proof {
                lemma_count_while_unique(pred_of(p), i.seq(), j as int);
            }
            return j;
        }
        j += 1;
    }
    proof {
        lemma_count_while_unique(pred_of(p), i.seq(), len as int);
    }
    len
}

/// Index of the first element that does belong to the class, or the input
/// length when none does.
pub fn position_of_match<I: ParseInput, P: Predicate>(i: &I, p: &P) -> (n: usize)
    ensures
        n == count_while(negate(pred_of(p)), i.seq()),
{
    let len = i.input_len();
    let mut j: usize = 0;
    while j < len
        invariant
            j <= len,
            len == i.seq().len(),
            forall|k: int| 0 <= k < j ==> negate(pred_of(p))(i.seq()[k]),
        decreases len - j,
    {
        if p.test(i.byte_at(j)) {
            proof {
                lemma_count_while_unique(negate(pred_of(p)), i.seq(), j as int);
            }
            return j;
        }
        j += 1;
    }
    proof {
        lemma_count_while_unique(negate(pred_of(p)), i.seq(), len as int);
    }
    len
}

/// The element index corresponding to `count` elements from the start, or
/// `None` when fewer than `count` elements remain. Elements here are single
/// bytes, so the index equals the count.
pub fn slice_index<I: ParseInput>(i: &I, count: usize) -> (r: Option<usize>)
    ensures
        r == (if count <= i.seq().len() {
            Some(count)
        } else {
            None::<usize>
        }),
{
    if count <= i.input_len() {
        Some(count)
    } else {
        None
    }
}

/// Whether `lit` occurs in `i` at element index `j`.
fn matches_at<I: ParseInput>(i: &I, lit: &[u8], j: usize) -> (r: bool)
    requires
        j + lit@.len() <= i.seq().len(),
        i.seq().len() <= usize::MAX,
    ensures
        r == match_at(i.seq(), lit@, j as int),
{
    let tlen = lit.len();
    let mut k: usize = 0;
    while k < tlen
        invariant
            k <= tlen,
            tlen == lit@.len(),
            j + tlen <= i.seq().len(),
            i.seq().len() <= usize::MAX,
            forall|x: int| 0 <= x < k ==> i.seq()[j + x] == lit@[x],
        decreases tlen - k,
    {
        if i.byte_at(j + k) != *slice_index_get(lit, k) {
            assert(!match_at(i.seq(), lit@, j as int)) by {
                assert(match_at(i.seq(), lit@, j as int) ==> i.seq().subrange(
                    j as int,
                    j + lit@.len() as int,
                )[k as int] == lit@[k as int]);
            }
            return false;
        }
        k += 1;
    }
    assert(i.seq().subrange(j as int, j + lit@.len() as int) =~= lit@);
    true
}

/// Element index of the first occurrence of the literal `lit`, or `None`
/// when it never occurs. An empty literal occurs at index 0.
pub fn find_substring<I: ParseInput>(i: &I, lit: &[u8]) -> (r: Option<usize>)
    ensures
        match r {
            Some(j) => find_sub(i.seq(), lit@) == Some(j as int),
            None => find_sub(i.seq(), lit@) is None,
        },
{
    let ilen = i.input_len();
    let tlen = lit.len();
    if tlen > ilen {
        proof {
            assert forall|j: int| !match_at(i.seq(), lit@, j) by {
                assert(match_at(i.seq(), lit@, j) ==> j + lit@.len() <= i.seq().len());
            }
            lemma_find_sub_none(i.seq(), lit@);
        }
        return None;
    }
    if tlen == 0 {
        proof {
            assert(i.seq().subrange(0, 0) =~= lit@);
            lemma_find_sub_unique(i.seq(), lit@, 0);
        }
        return Some(0);
    }
    let last = ilen - tlen;
    let mut j: usize = 0;
    while j <= last
        invariant
            j <= last + 1,
            last == ilen - tlen,
            1 <= tlen <= ilen,
            ilen == i.seq().len(),
            tlen == lit@.len(),
            forall|j2: int| 0 <= j2 < j ==> !match_at(i.seq(), lit@, j2),
        decreases last + 1 - j,
    {
        if matches_at(i, lit, j) {
            proof {
                lemma_find_sub_unique(i.seq(), lit@, j as int);
            }
            return Some(j);
        }
        j += 1;
    }
    proof {
        assert forall|j2: int| !match_at(i.seq(), lit@, j2) by {
            if j2 > last as int {
                assert(match_at(i.seq(), lit@, j2) ==> j2 + lit@.len() <= i.seq().len());
            }
        }
        lemma_find_sub_none(i.seq(), lit@);
    }
    None
}

} // verus!
