//! Mathematical models of inputs and outcomes, and the sequence-scanning
//! spec functions every combinator contract is stated over.

use crate::error::ErrorKind;
use vstd::prelude::*;

verus! {

/// The mathematical content of an input value: the element sequence still to
/// be consumed, and whether the value is the final chunk of its source
/// (`complete` is true when no further elements can ever arrive after it).
pub ghost struct InputModel {
    pub data: Seq<u8>,
    pub complete: bool,
}

/// How much more input is required before a verdict can be reached: an
/// unspecified positive amount, or an exact element count.
pub ghost enum NeededModel {
    Unknown,
    Size(int),
}

/// The mathematical content of a parse outcome. `Success` carries the
/// remainder first and the consumed prefix second.
pub ghost enum OutcomeModel {
    Success(InputModel, InputModel),
    Failure(InputModel, ErrorKind),
    Incomplete(NeededModel),
}

/// The successful outcome that splits `m` at element index `idx`: the
/// consumed prefix is `m.data[..idx]`, the remainder `m.data[idx..]`, and
/// both derived inputs keep the end-of-data flag of the original.
pub open spec fn success_at(m: InputModel, idx: int) -> OutcomeModel
    recommends
        0 <= idx <= m.data.len(),
{
    OutcomeModel::Success(
        InputModel { data: m.data.subrange(idx, m.data.len() as int), complete: m.complete },
        InputModel { data: m.data.subrange(0, idx), complete: m.complete },
    )
}

/// `p` is a prefix of `s`.
pub open spec fn is_prefix_of(p: Seq<u8>, s: Seq<u8>) -> bool {
    p.len() <= s.len() && s.subrange(0, p.len() as int) == p
}

/// ASCII case folding of one byte: upper-case letters map to lower case,
/// every other byte is unchanged.
pub open spec fn ascii_lower(c: u8) -> u8 {
    if 65 <= c <= 90 {
        (c + 32) as u8
    } else {
        c
    }
}

/// ASCII case folding of a whole sequence.
pub open spec fn lowered(s: Seq<u8>) -> Seq<u8> {
    s.map_values(|c: u8| ascii_lower(c))
}

/// Length of the maximal prefix of `s` whose elements all satisfy `p`:
/// equivalently, the index of the first element that does not, or `s.len()`
/// when every element does.
pub open spec fn count_while(p: spec_fn(u8) -> bool, s: Seq<u8>) -> int
    decreases s.len(),
{
    if s.len() == 0 {
        0
    } else if !p(s[0]) {
        0
    } else {
        1 + count_while(p, s.drop_first())
    }
}

/// Pointwise negation of an element predicate.
pub open spec fn negate(p: spec_fn(u8) -> bool) -> spec_fn(u8) -> bool {
    |c: u8| !p(c)
}

/// Membership in the byte set `set`, as an element predicate.
pub open spec fn set_member(set: Seq<u8>) -> spec_fn(u8) -> bool {
    |c: u8| set.contains(c)
}

/// Absence from the byte set `set`, as an element predicate.
pub open spec fn set_absent(set: Seq<u8>) -> spec_fn(u8) -> bool {
    |c: u8| !set.contains(c)
}

/// `count_while` names the maximal satisfying prefix: every element before it
/// satisfies `p`, and the element at it (when one exists) does not.
pub proof fn lemma_count_while_props(p: spec_fn(u8) -> bool, s: Seq<u8>)
    ensures
        0 <= count_while(p, s) <= s.len(),
        forall|k: int| 0 <= k < count_while(p, s) ==> p(s[k]),
        count_while(p, s) < s.len() ==> !p(s[count_while(p, s)]),
    decreases s.len(),
{
    if s.len() == 0 {
    } else if !p(s[0]) {
    } else {
        lemma_count_while_props(p, s.drop_first());
        assert forall|k: int| 0 <= k < count_while(p, s) implies p(s[k]) by {
            if k > 0 {
                assert(s.drop_first()[k - 1] == s[k]);
            }
        }
        if count_while(p, s) < s.len() {
            assert(s.drop_first()[count_while(p, s.drop_first())] == s[count_while(p, s)]);
        }
    }
}

/// Any index with the maximal-prefix shape is `count_while`: the split point
/// is unique.
pub proof fn lemma_count_while_unique(p: spec_fn(u8) -> bool, s: Seq<u8>, j: int)
    requires
        0 <= j <= s.len(),
        forall|k: int| 0 <= k < j ==> p(s[k]),
        j < s.len() ==> !p(s[j]),
    ensures
        j == count_while(p, s),
{
    lemma_count_while_props(p, s);
    let c = count_while(p, s);
    if j < c {
        assert(p(s[j]));
    } else if c < j {
        assert(p(s[c]));
    }
}

/// Pointwise equal predicates scan to the same split point.
pub proof fn lemma_count_while_ext(p1: spec_fn(u8) -> bool, p2: spec_fn(u8) -> bool, s: Seq<u8>)
    requires
        forall|c: u8| #[trigger] p1(c) == p2(c),
    ensures
        count_while(p1, s) == count_while(p2, s),
    decreases s.len(),
{
    if s.len() == 0 {
    } else {
        assert(p1(s[0]) == p2(s[0]));
        lemma_count_while_ext(p1, p2, s.drop_first());
    }
}

/// The literal `lit` occurs in `s` at element index `j`.
pub open spec fn match_at(s: Seq<u8>, lit: Seq<u8>, j: int) -> bool {
    0 <= j && j + lit.len() <= s.len() && s.subrange(j, j + lit.len()) == lit
}

/// Element index of the first occurrence of `lit` in `s`, or `None` when it
/// never occurs. An empty literal occurs at index 0.
pub open spec fn find_sub(s: Seq<u8>, lit: Seq<u8>) -> Option<int>
    decreases s.len(),
{
    if match_at(s, lit, 0) {
        Some(0int)
    } else if s.len() == 0 {
        None
    } else {
        match find_sub(s.drop_first(), lit) {
            Some(j) => Some(j + 1),
            None => None,
        }
    }
}

/// Occurrences shift by one when the first element is dropped.
proof fn lemma_match_at_shift(s: Seq<u8>, lit: Seq<u8>, j: int)
    requires
        s.len() > 0,
        j >= 0,
    ensures
        match_at(s.drop_first(), lit, j) <==> match_at(s, lit, j + 1),
{
    if j + lit.len() <= s.len() - 1 {
        assert(s.drop_first().subrange(j, j + lit.len() as int) =~= s.subrange(
            j + 1,
            j + 1 + lit.len() as int,
        ));
    }
}

/// `find_sub` names the first occurrence: the literal occurs there and
/// nowhere earlier, and a `None` verdict means it occurs nowhere.
pub proof fn lemma_find_sub_props(s: Seq<u8>, lit: Seq<u8>)
    ensures
        match find_sub(s, lit) {
            Some(j) => match_at(s, lit, j) && forall|j2: int|
                0 <= j2 < j ==> !match_at(s, lit, j2),
            None => forall|j: int| !match_at(s, lit, j),
        },
    decreases s.len(),
{
    if match_at(s, lit, 0) {
    } else if s.len() == 0 {
        assert forall|j: int| !match_at(s, lit, j) by {
            if 0 <= j && j + lit.len() <= s.len() {
                assert(s.subrange(j, j + lit.len() as int) =~= lit ==> lit.len() == 0);
                assert(!match_at(s, lit, 0));
            }
        }
    } else {
        lemma_find_sub_props(s.drop_first(), lit);
        match find_sub(s.drop_first(), lit) {
            Some(j) => {
                lemma_match_at_shift(s, lit, j);
                assert forall|j2: int| 0 <= j2 < j + 1 implies !match_at(s, lit, j2) by {
                    if j2 > 0 {
                        lemma_match_at_shift(s, lit, j2 - 1);
                    }
                }
            },
            None => {
                assert forall|j: int| !match_at(s, lit, j) by {
                    if j > 0 {
                        lemma_match_at_shift(s, lit, j - 1);
                    }
                }
            },
        }
    }
}

/// Any index with the first-occurrence shape is what `find_sub` returns.
pub proof fn lemma_find_sub_unique(s: Seq<u8>, lit: Seq<u8>, j: int)
    requires
        match_at(s, lit, j),
        forall|j2: int| 0 <= j2 < j ==> !match_at(s, lit, j2),
    ensures
        find_sub(s, lit) == Some(j),
{
    lemma_find_sub_props(s, lit);
}

/// When the literal occurs nowhere, `find_sub` reports so.
pub proof fn lemma_find_sub_none(s: Seq<u8>, lit: Seq<u8>)
    requires
        forall|j: int| !match_at(s, lit, j),
    ensures
        find_sub(s, lit) is None,
{
    lemma_find_sub_props(s, lit);
}

/// The two halves of `success_at` lose, duplicate and reorder nothing: the
/// consumed prefix followed by the remainder is the original sequence.
pub proof fn lemma_success_at_reconstructs(m: InputModel, idx: int)
    requires
        0 <= idx <= m.data.len(),
    ensures
        success_at(m, idx) matches OutcomeModel::Success(rem, cons) ==> {
            &&& cons.data + rem.data == m.data
            &&& cons.data.len() + rem.data.len() == m.data.len()
        },
{
    assert(m.data.subrange(0, idx) + m.data.subrange(idx, m.data.len() as int) =~= m.data);
}

} // verus!
