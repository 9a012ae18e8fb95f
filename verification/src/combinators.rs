//! The primitive combinators: each is a factory that captures its
//! configuration once and yields a reusable parser value whose `apply`
//! operation consumes a prefix of one input according to the matching rule.
//! Every `apply` pins its outcome to a spec-level model function of the
//! configuration and the input model alone, so outcomes are deterministic
//! and the inputs handed in are never mutated, only split.

use crate::error::{out_model, ErrorKind, ParseError, ParseOutcome};
use crate::input::{
    compare, compare_no_case, find_substring, in_model, position_of_match, position_of_mismatch,
    pred_of, slice_index, spec_compare, ByteSet, CompareResult, ParseInput, Predicate,
};
use crate::model::{
    count_while, find_sub, lemma_count_while_ext, lemma_count_while_props, lemma_find_sub_props,
    lowered, negate, set_absent, set_member, success_at, InputModel, NeededModel, OutcomeModel,
};
use vstd::prelude::*;

verus! {

/// Recognizes an exact literal prefix, case-sensitively. Built by [`tag`].
pub struct Tag<'t> {
    /// The literal the input's prefix must equal.
    pub literal: &'t [u8],
}

/// The outcome of matching the literal `lit` against the input `m`: a split
/// at the literal's length when the literal is a prefix of the input, and a
/// literal-mismatch failure otherwise (also when the input ran out first:
/// this is the complete-input policy).
pub open spec fn tag_model(lit: Seq<u8>, m: InputModel) -> OutcomeModel {
    if spec_compare(m.data, lit) == CompareResult::Matches {
        success_at(m, lit.len() as int)
    } else {
        OutcomeModel::Failure(m, ErrorKind::Tag)
    }
}

impl<'t> Tag<'t> {
    /// Consume exactly the configured literal from the front of `i`.
    pub fn apply<I: ParseInput>(&self, i: I) -> (r: ParseOutcome<I>)
        ensures
            out_model(&r) == tag_model(self.literal@, in_model(&i)),
    {
        match compare(&i, self.literal) {
            CompareResult::Matches => {
                let (rem, cons) = i.take_split(self.literal.len());
                ParseOutcome::Success(rem, cons)
            },
            _ => ParseOutcome::Failure(ParseError::from_error_kind(i, ErrorKind::Tag)),
        }
    }
}

/// Recognize an exact literal prefix, case-sensitively.
pub fn tag<'t>(literal: &'t [u8]) -> (r: Tag<'t>)
    ensures
        r.literal@ == literal@,
{
    Tag { literal }
}

/// Recognizes a literal prefix up to ASCII case. Built by [`tag_no_case`].
pub struct TagNoCase<'t> {
    /// The literal the input's prefix must equal after case folding.
    pub literal: &'t [u8],
}

/// The outcome of matching `lit` case-insensitively: the comparison verdict
/// on the two case-folded sequences, with the split still taken on the
/// original input.
pub open spec fn tag_no_case_model(lit: Seq<u8>, m: InputModel) -> OutcomeModel {
    if spec_compare(lowered(m.data), lowered(lit)) == CompareResult::Matches {
        success_at(m, lit.len() as int)
    } else {
        OutcomeModel::Failure(m, ErrorKind::Tag)
    }
}

impl<'t> TagNoCase<'t> {
    /// Consume the configured literal from the front of `i`, ignoring ASCII
    /// case.
    pub fn apply<I: ParseInput>(&self, i: I) -> (r: ParseOutcome<I>)
        ensures
            out_model(&r) == tag_no_case_model(self.literal@, in_model(&i)),
    {
        match compare_no_case(&i, self.literal) {
            CompareResult::Matches => {
                let (rem, cons) = i.take_split(self.literal.len());
                ParseOutcome::Success(rem, cons)
            },
            _ => ParseOutcome::Failure(ParseError::from_error_kind(i, ErrorKind::Tag)),
        }
    }
}

/// Recognize a literal prefix up to ASCII case.
pub fn tag_no_case<'t>(literal: &'t [u8]) -> (r: TagNoCase<'t>)
    ensures
        r.literal@ == literal@,
{
    TagNoCase { literal }
}

/// Consumes the maximal prefix of elements belonging to a set; empty matches
/// fail. Built by [`is_a`].
pub struct IsA<'a> {
    /// The set of allowed elements.
    pub set: ByteSet<'a>,
}

/// The outcome of consuming elements of `set`: a split at the maximal
/// in-set prefix, or a class-violation failure when the very first element
/// is already outside the set (or the input is empty).
pub open spec fn is_a_model(set: Seq<u8>, m: InputModel) -> OutcomeModel {
    let n = count_while(set_member(set), m.data);
    if n == 0 {
        OutcomeModel::Failure(m, ErrorKind::IsA)
    } else {
        success_at(m, n)
    }
}

impl<'a> IsA<'a> {
    /// Consume the longest prefix of `i` made of allowed elements.
    pub fn apply<I: ParseInput>(&self, i: I) -> (r: ParseOutcome<I>)
        ensures
            out_model(&r) == is_a_model(self.set.as_seq(), in_model(&i)),
    {
        let n = position_of_mismatch(&i, &self.set);
        proof {
            lemma_count_while_ext(pred_of(&self.set), set_member(self.set.as_seq()), i.seq());
            lemma_count_while_props(set_member(self.set.as_seq()), i.seq());
        }
        if n == 0 {
            ParseOutcome::Failure(ParseError::from_error_kind(i, ErrorKind::IsA))
        } else {
            let (rem, cons) = i.take_split(n);
            ParseOutcome::Success(rem, cons)
        }
    }
}

/// Consume the maximal prefix of elements that belong to `arr`; fail on an
/// empty match.
pub fn is_a<'a>(arr: &'a [u8]) -> (r: IsA<'a>)
    ensures
        r.set.as_seq() == arr@,
{
    IsA { set: ByteSet::new(arr) }
}

/// Consumes the maximal prefix of elements outside a set; empty matches
/// fail. Built by [`is_not`].
pub struct IsNot<'a> {
    /// The set of excluded elements.
    pub set: ByteSet<'a>,
}

/// The outcome of consuming elements not in `set`: a split at the maximal
/// out-of-set prefix, or a class-violation failure on an empty match.
pub open spec fn is_not_model(set: Seq<u8>, m: InputModel) -> OutcomeModel {
    let n = count_while(set_absent(set), m.data);
    if n == 0 {
        OutcomeModel::Failure(m, ErrorKind::IsNot)
    } else {
        success_at(m, n)
    }
}

impl<'a> IsNot<'a> {
    /// Consume the longest prefix of `i` free of excluded elements.
    pub fn apply<I: ParseInput>(&self, i: I) -> (r: ParseOutcome<I>)
        ensures
            out_model(&r) == is_not_model(self.set.as_seq(), in_model(&i)),
    {
        let n = position_of_match(&i, &self.set);
        proof {
            lemma_count_while_ext(
                negate(pred_of(&self.set)),
                set_absent(self.set.as_seq()),
                i.seq(),
            );
            lemma_count_while_props(set_absent(self.set.as_seq()), i.seq());
        }
        if n == 0 {
            ParseOutcome::Failure(ParseError::from_error_kind(i, ErrorKind::IsNot))
        } else {
            let (rem, cons) = i.take_split(n);
            ParseOutcome::Success(rem, cons)
        }
    }
}

/// Consume the maximal prefix of elements that do not belong to `arr`; fail
/// on an empty match.
pub fn is_not<'a>(arr: &'a [u8]) -> (r: IsNot<'a>)
    ensures
        r.set.as_seq() == arr@,
{
    IsNot { set: ByteSet::new(arr) }
}

/// Consumes the maximal prefix satisfying a classifier; an empty match is a
/// success. Built by [`take_while`].
pub struct TakeWhile<P: Predicate> {
    /// The element classifier; consumption stops at the first element it
    /// rejects.
    pub cond: P,
}

/// The outcome of consuming while `pf` holds: always a split at the maximal
/// satisfying prefix, possibly of length zero.
pub open spec fn take_while_model(pf: spec_fn(u8) -> bool, m: InputModel) -> OutcomeModel {
    success_at(m, count_while(pf, m.data))
}

impl<P: Predicate> TakeWhile<P> {
    /// Consume the longest prefix of `i` whose elements the classifier
    /// accepts.
    pub fn apply<I: ParseInput>(&self, i: I) -> (r: ParseOutcome<I>)
        ensures
            out_model(&r) == take_while_model(pred_of(&self.cond), in_model(&i)),
    {
        let n = position_of_mismatch(&i, &self.cond);
        proof {
            lemma_count_while_props(pred_of(&self.cond), i.seq());
        }
        let (rem, cons) = i.take_split(n);
        ParseOutcome::Success(rem, cons)
    }
}

/// Consume the maximal prefix whose elements satisfy `cond`; a zero-length
/// match succeeds.
pub fn take_while<P: Predicate>(cond: P) -> (r: TakeWhile<P>)
    ensures
        r.cond == cond,
{
    TakeWhile { cond }
}

/// Like [`TakeWhile`], but an empty match fails. Built by [`take_while1`].
pub struct TakeWhile1<P: Predicate> {
    /// The element classifier; consumption stops at the first element it
    /// rejects.
    pub cond: P,
}

/// The outcome of consuming while `pf` holds with at least one element
/// required: a class-violation failure on a zero-length match.
pub open spec fn take_while1_model(pf: spec_fn(u8) -> bool, m: InputModel) -> OutcomeModel {
    let n = count_while(pf, m.data);
    if n == 0 {
        OutcomeModel::Failure(m, ErrorKind::TakeWhile1)
    } else {
        success_at(m, n)
    }
}

impl<P: Predicate> TakeWhile1<P> {
    /// Consume the longest accepted prefix of `i`, requiring at least one
    /// element.
    pub fn apply<I: ParseInput>(&self, i: I) -> (r: ParseOutcome<I>)
        ensures
            out_model(&r) == take_while1_model(pred_of(&self.cond), in_model(&i)),
    {
        let n = position_of_mismatch(&i, &self.cond);
        proof {
            lemma_count_while_props(pred_of(&self.cond), i.seq());
        }
        if n == 0 {
            ParseOutcome::Failure(ParseError::from_error_kind(i, ErrorKind::TakeWhile1))
        } else {
            let (rem, cons) = i.take_split(n);
            ParseOutcome::Success(rem, cons)
        }
    }
}

/// Consume the maximal prefix whose elements satisfy `cond`; fail on a
/// zero-length match.
pub fn take_while1<P: Predicate>(cond: P) -> (r: TakeWhile1<P>)
    ensures
        r.cond == cond,
{
    TakeWhile1 { cond }
}

/// Consumes up to the first element satisfying a classifier; an empty match
/// is a success. Built by [`take_till`].
pub struct TakeTill<P: Predicate> {
    /// The element classifier; consumption stops at the first element it
    /// accepts.
    pub cond: P,
}

/// The outcome of consuming until `pf` holds: a split at the first
/// satisfying element, or at the end when no element satisfies `pf`.
pub open spec fn take_till_model(pf: spec_fn(u8) -> bool, m: InputModel) -> OutcomeModel {
    success_at(m, count_while(negate(pf), m.data))
}

impl<P: Predicate> TakeTill<P> {
    /// Consume the prefix of `i` up to the first element the classifier
    /// accepts.
    pub fn apply<I: ParseInput>(&self, i: I) -> (r: ParseOutcome<I>)
        ensures
            out_model(&r) == take_till_model(pred_of(&self.cond), in_model(&i)),
    {
        let n = position_of_match(&i, &self.cond);
        proof {
            lemma_count_while_props(negate(pred_of(&self.cond)), i.seq());
        }
        let (rem, cons) = i.take_split(n);
        ParseOutcome::Success(rem, cons)
    }
}

/// Consume the maximal prefix whose elements do not satisfy `cond`; a
/// zero-length match succeeds.
pub fn take_till<P: Predicate>(cond: P) -> (r: TakeTill<P>)
    ensures
        r.cond == cond,
{
    TakeTill { cond }
}

/// Like [`TakeTill`], but an empty match fails. Built by [`take_till1`].
pub struct TakeTill1<P: Predicate> {
    /// The element classifier; consumption stops at the first element it
    /// accepts.
    pub cond: P,
}

/// The outcome of consuming until `pf` holds with at least one element
/// required: a class-violation failure on a zero-length match.
pub open spec fn take_till1_model(pf: spec_fn(u8) -> bool, m: InputModel) -> OutcomeModel {
    let n = count_while(negate(pf), m.data);
    if n == 0 {
        OutcomeModel::Failure(m, ErrorKind::TakeTill1)
    } else {
        success_at(m, n)
    }
}

impl<P: Predicate> TakeTill1<P> {
    /// Consume the prefix of `i` up to the first accepted element, requiring
    /// at least one consumed element.
    pub fn apply<I: ParseInput>(&self, i: I) -> (r: ParseOutcome<I>)
        ensures
            out_model(&r) == take_till1_model(pred_of(&self.cond), in_model(&i)),
    {
        let n = position_of_match(&i, &self.cond);
        proof {
            lemma_count_while_props(negate(pred_of(&self.cond)), i.seq());
        }
        if n == 0 {
            ParseOutcome::Failure(ParseError::from_error_kind(i, ErrorKind::TakeTill1))
        } else {
            let (rem, cons) = i.take_split(n);
            ParseOutcome::Success(rem, cons)
        }
    }
}

/// Consume the maximal prefix whose elements do not satisfy `cond`; fail on
/// a zero-length match.
pub fn take_till1<P: Predicate>(cond: P) -> (r: TakeTill1<P>)
    ensures
        r.cond == cond,
{
    TakeTill1 { cond }
}

/// Consumes a fixed number of elements. Built by [`take`].
pub struct Take {
    /// How many elements to consume.
    pub count: usize,
}

/// The outcome of consuming exactly `count` elements: a split at `count`, or
/// an insufficient-length failure when fewer elements remain.
pub open spec fn take_model(count: int, m: InputModel) -> OutcomeModel {
    if count <= m.data.len() {
        success_at(m, count)
    } else {
        OutcomeModel::Failure(m, ErrorKind::Eof)
    }
}

impl Take {
    /// Consume exactly the configured number of elements from `i`.
    pub fn apply<I: ParseInput>(&self, i: I) -> (r: ParseOutcome<I>)
        ensures
            out_model(&r) == take_model(self.count as int, in_model(&i)),
    {
        match slice_index(&i, self.count) {
            None => ParseOutcome::Failure(ParseError::from_error_kind(i, ErrorKind::Eof)),
            Some(index) => {
                let (rem, cons) = i.take_split(index);
                ParseOutcome::Success(rem, cons)
            },
        }
    }
}

/// Consume exactly `count` elements; fail when fewer remain.
pub fn take(count: usize) -> (r: Take)
    ensures
        r.count == count,
{
    Take { count }
}

/// Consumes up to (not including) the first occurrence of a literal. Built
/// by [`take_until`].
pub struct TakeUntil<'t> {
    /// The delimiter to search for.
    pub literal: &'t [u8],
}

/// The outcome of searching for the delimiter `lit`: a split just before its
/// first occurrence, or a delimiter-not-found failure when it never occurs.
pub open spec fn take_until_model(lit: Seq<u8>, m: InputModel) -> OutcomeModel {
    match find_sub(m.data, lit) {
        Some(j) => success_at(m, j),
        None => OutcomeModel::Failure(m, ErrorKind::TakeUntil),
    }
}

impl<'t> TakeUntil<'t> {
    /// Consume the prefix of `i` that precedes the first occurrence of the
    /// configured delimiter.
    pub fn apply<I: ParseInput>(&self, i: I) -> (r: ParseOutcome<I>)
        ensures
            out_model(&r) == take_until_model(self.literal@, in_model(&i)),
    {
        match find_substring(&i, self.literal) {
            None => ParseOutcome::Failure(ParseError::from_error_kind(i, ErrorKind::TakeUntil)),
            Some(index) => {
                proof {
                    lemma_find_sub_props(i.seq(), self.literal@);
                }
                let (rem, cons) = i.take_split(index);
                ParseOutcome::Success(rem, cons)
            },
        }
    }
}

/// Consume up to (not including) the first occurrence of `literal`; fail
/// when it never occurs.
pub fn take_until<'t>(literal: &'t [u8]) -> (r: TakeUntil<'t>)
    ensures
        r.literal@ == literal@,
{
    TakeUntil { literal }
}

/// Bounded class repetition: between `at_least` and `at_most` elements
/// satisfying a classifier. Built by [`take_while_m_n`].
pub struct TakeWhileMN<P: Predicate> {
    /// The minimum number of elements that must match.
    pub at_least: usize,
    /// The maximum number of elements consumed, even when more would match.
    pub at_most: usize,
    /// The element classifier.
    pub cond: P,
}

/// The outcome of a bounded repetition with bounds `m ≤ n` over `pf`. With
/// `run` the maximal satisfying prefix: when the run ends inside the input,
/// split at `run` when `m ≤ run ≤ n`, cap at `n` when `run > n`, and fail
/// when `run < m`; when the whole input satisfies `pf`, split at `n` when
/// enough elements remain, otherwise accept everything on an end-of-data
/// input iff `m ≤ len ≤ n`, and on a streaming input ask for enough further
/// elements to reach `m`, or for one more.
pub open spec fn take_while_m_n_model(
    m: int,
    n: int,
    pf: spec_fn(u8) -> bool,
    inp: InputModel,
) -> OutcomeModel {
    let run = count_while(pf, inp.data);
    let len = inp.data.len() as int;
    if run < len {
        if run >= m {
            if run <= n {
                success_at(inp, run)
            } else {
                success_at(inp, n)
            }
        } else {
            OutcomeModel::Failure(inp, ErrorKind::TakeWhileMN)
        }
    } else if len >= n {
        success_at(inp, n)
    } else if inp.complete {
        if m <= len && len <= n {
            success_at(inp, len)
        } else {
            OutcomeModel::Failure(inp, ErrorKind::TakeWhileMN)
        }
    } else {
        OutcomeModel::Incomplete(
            NeededModel::Size(
                if m > len {
                    m - len
                } else {
                    1
                },
            ),
        )
    }
}

impl<P: Predicate> TakeWhileMN<P> {
    /// Consume between `at_least` and `at_most` accepted elements from `i`.
    pub fn apply<I: ParseInput>(&self, i: I) -> (r: ParseOutcome<I>)
        ensures
            out_model(&r) == take_while_m_n_model(
                self.at_least as int,
                self.at_most as int,
                pred_of(&self.cond),
                in_model(&i),
            ),
    {
        let run = position_of_mismatch(&i, &self.cond);
        let len = i.input_len();
        proof {
            lemma_count_while_props(pred_of(&self.cond), i.seq());
        }
        if run < len {
            if run >= self.at_least {
                if run <= self.at_most {
                    let (rem, cons) = i.take_split(run);
                    ParseOutcome::Success(rem, cons)
                } else {
                    let (rem, cons) = i.take_split(self.at_most);
                    ParseOutcome::Success(rem, cons)
                }
            } else {
                ParseOutcome::Failure(ParseError::from_error_kind(i, ErrorKind::TakeWhileMN))
            }
        } else if len >= self.at_most {
            let (rem, cons) = i.take_split(self.at_most);
            ParseOutcome::Success(rem, cons)
        } else if i.at_eof() {
            if self.at_least <= len && len <= self.at_most {
                let (rem, cons) = i.take_split(len);
                ParseOutcome::Success(rem, cons)
            } else {
                ParseOutcome::Failure(ParseError::from_error_kind(i, ErrorKind::TakeWhileMN))
            }
        } else {
            let needed = if self.at_least > len {
                self.at_least - len
            } else {
                1
            };
            ParseOutcome::Incomplete(crate::error::Needed::Size(needed))
        }
    }
}

/// Consume between `at_least` and `at_most` elements satisfying `cond`:
/// greedy, but capped at `at_most`; failing when the matching run is shorter
/// than `at_least`; and, on a streaming input that matches entirely but has
/// not reached `at_most`, asking for more data instead of deciding.
pub fn take_while_m_n<P: Predicate>(at_least: usize, at_most: usize, cond: P) -> (r: TakeWhileMN<
    P,
>)
    ensures
        r.at_least == at_least,
        r.at_most == at_most,
        r.cond == cond,
{
    TakeWhileMN { at_least, at_most, cond }
}

} // verus!
