//! Laws that hold of every combinator: the splitting invariant (the consumed
//! prefix and the remainder reassemble the original input with no element
//! lost, duplicated or reordered), determinism of outcomes, and the agreement
//! of `is_a` and `is_not` over complementary sets.

use crate::combinators::{
    is_a_model, is_not_model, tag_model, tag_no_case_model, take_model, take_till1_model,
    take_till_model, take_until_model, take_while1_model, take_while_m_n_model, take_while_model,
};
use crate::error::ErrorKind;
use crate::input::{spec_compare, CompareResult};
use crate::model::{
    count_while, find_sub, lemma_count_while_ext, lemma_count_while_props, lemma_find_sub_props,
    lemma_success_at_reconstructs, lowered, negate, set_absent, set_member, InputModel,
    OutcomeModel,
};
use vstd::prelude::*;

verus! {

/// The splitting invariant on one outcome: on success, the consumed prefix
/// followed by the remainder is exactly the original sequence, the lengths
/// add up, and the two parts are the prefix and suffix of the original at
/// the split point.
pub open spec fn reconstructs(r: OutcomeModel, m: InputModel) -> bool {
    r matches OutcomeModel::Success(rem, cons) ==> {
        &&& cons.data + rem.data == m.data
        &&& cons.data.len() + rem.data.len() == m.data.len()
        &&& cons.data == m.data.subrange(0, cons.data.len() as int)
        &&& rem.data == m.data.subrange(cons.data.len() as int, m.data.len() as int)
    }
}

/// `tag` splits its input without loss, duplication or reordering.
pub proof fn lemma_tag_reconstructs(lit: Seq<u8>, m: InputModel)
    ensures
        reconstructs(tag_model(lit, m), m),
{
    if spec_compare(m.data, lit) == CompareResult::Matches {
        lemma_success_at_reconstructs(m, lit.len() as int);
    }
}

/// `tag_no_case` splits its input without loss, duplication or reordering.
pub proof fn lemma_tag_no_case_reconstructs(lit: Seq<u8>, m: InputModel)
    ensures
        reconstructs(tag_no_case_model(lit, m), m),
{
    if spec_compare(lowered(m.data), lowered(lit)) == CompareResult::Matches {
        assert(lowered(lit).len() == lit.len());
        assert(lowered(m.data).len() == m.data.len());
        lemma_success_at_reconstructs(m, lit.len() as int);
    }
}

/// `is_a` splits its input without loss, duplication or reordering.
pub proof fn lemma_is_a_reconstructs(set: Seq<u8>, m: InputModel)
    ensures
        reconstructs(is_a_model(set, m), m),
{
    lemma_count_while_props(set_member(set), m.data);
    lemma_success_at_reconstructs(m, count_while(set_member(set), m.data));
}

/// `is_not` splits its input without loss, duplication or reordering.
pub proof fn lemma_is_not_reconstructs(set: Seq<u8>, m: InputModel)
    ensures
        reconstructs(is_not_model(set, m), m),
{
    lemma_count_while_props(set_absent(set), m.data);
    lemma_success_at_reconstructs(m, count_while(set_absent(set), m.data));
}

/// `take_while` splits its input without loss, duplication or reordering.
pub proof fn lemma_take_while_reconstructs(pf: spec_fn(u8) -> bool, m: InputModel)
    ensures
        reconstructs(take_while_model(pf, m), m),
{
    lemma_count_while_props(pf, m.data);
    lemma_success_at_reconstructs(m, count_while(pf, m.data));
}

/// `take_while1` splits its input without loss, duplication or reordering.
pub proof fn lemma_take_while1_reconstructs(pf: spec_fn(u8) -> bool, m: InputModel)
    ensures
        reconstructs(take_while1_model(pf, m), m),
{
    lemma_count_while_props(pf, m.data);
    lemma_success_at_reconstructs(m, count_while(pf, m.data));
}

/// `take_till` splits its input without loss, duplication or reordering.
pub proof fn lemma_take_till_reconstructs(pf: spec_fn(u8) -> bool, m: InputModel)
    ensures
        reconstructs(take_till_model(pf, m), m),
{
    lemma_count_while_props(negate(pf), m.data);
    lemma_success_at_reconstructs(m, count_while(negate(pf), m.data));
}

/// `take_till1` splits its input without loss, duplication or reordering.
pub proof fn lemma_take_till1_reconstructs(pf: spec_fn(u8) -> bool, m: InputModel)
    ensures
        reconstructs(take_till1_model(pf, m), m),
{
    lemma_count_while_props(negate(pf), m.data);
    lemma_success_at_reconstructs(m, count_while(negate(pf), m.data));
}

/// `take` splits its input without loss, duplication or reordering.
pub proof fn lemma_take_reconstructs(count: int, m: InputModel)
    requires
        0 <= count,
    ensures
        reconstructs(take_model(count, m), m),
{
    if 0 <= count <= m.data.len() {
        lemma_success_at_reconstructs(m, count);
    }
}

/// `take_until` splits its input without loss, duplication or reordering.
pub proof fn lemma_take_until_reconstructs(lit: Seq<u8>, m: InputModel)
    ensures
        reconstructs(take_until_model(lit, m), m),
{
    lemma_find_sub_props(m.data, lit);
    if let Some(j) = find_sub(m.data, lit) {
        lemma_success_at_reconstructs(m, j);
    }
}

/// `take_while_m_n` splits its input without loss, duplication or
/// reordering.
pub proof fn lemma_take_while_m_n_reconstructs(
    least: int,
    most: int,
    pf: spec_fn(u8) -> bool,
    m: InputModel,
)
    requires
        0 <= least,
        0 <= most,
    ensures
        reconstructs(take_while_m_n_model(least, most, pf, m), m),
{
    lemma_count_while_props(pf, m.data);
    let run = count_while(pf, m.data);
    let len = m.data.len() as int;
    if run < len {
        if run >= least {
            if run <= most {
                lemma_success_at_reconstructs(m, run);
            } else if 0 <= most {
                lemma_success_at_reconstructs(m, most);
            }
        }
    } else if len >= most {
        if 0 <= most {
            lemma_success_at_reconstructs(m, most);
        }
    } else if m.complete {
        lemma_success_at_reconstructs(m, len);
    }
}

/// Purity of application. Every combinator's `apply` ensures that its
/// outcome's model equals a spec-level function of the captured
/// configuration and the input's model alone; hence two applications of one
/// parser to one input value can only yield one and the same outcome.
pub proof fn lemma_apply_deterministic(expected: OutcomeModel, r1: OutcomeModel, r2: OutcomeModel)
    requires
        r1 == expected,
        r2 == expected,
    ensures
        r1 == r2,
{
}

/// An input marked end-of-data never yields a needs-more-data verdict, from
/// any combinator: a caller holding a complete one-shot buffer may treat
/// `Incomplete` as a logic error in how the flag was set. Only the bounded
/// repetition can answer `Incomplete` at all, and only on a streaming input.
pub proof fn lemma_end_of_data_never_incomplete(
    lit: Seq<u8>,
    set: Seq<u8>,
    pf: spec_fn(u8) -> bool,
    count: int,
    least: int,
    most: int,
    m: InputModel,
)
    requires
        m.complete,
    ensures
        !(tag_model(lit, m) matches OutcomeModel::Incomplete(_)),
        !(tag_no_case_model(lit, m) matches OutcomeModel::Incomplete(_)),
        !(is_a_model(set, m) matches OutcomeModel::Incomplete(_)),
        !(is_not_model(set, m) matches OutcomeModel::Incomplete(_)),
        !(take_while_model(pf, m) matches OutcomeModel::Incomplete(_)),
        !(take_while1_model(pf, m) matches OutcomeModel::Incomplete(_)),
        !(take_till_model(pf, m) matches OutcomeModel::Incomplete(_)),
        !(take_till1_model(pf, m) matches OutcomeModel::Incomplete(_)),
        !(take_model(count, m) matches OutcomeModel::Incomplete(_)),
        !(take_until_model(lit, m) matches OutcomeModel::Incomplete(_)),
        !(take_while_m_n_model(least, most, pf, m) matches OutcomeModel::Incomplete(_)),
{
}

/// Over complementary sets, consuming the allowed elements (`is_a`) and
/// consuming everything outside the excluded elements (`is_not`) are the
/// same act: successes coincide exactly, and failures come together, each
/// under its own kind.
pub proof fn lemma_is_a_is_not_complement(allowed: Seq<u8>, excluded: Seq<u8>, m: InputModel)
    requires
        forall|c: u8| #[trigger] allowed.contains(c) <==> !excluded.contains(c),
    ensures
        is_a_model(allowed, m) matches OutcomeModel::Success(rem, cons) ==> is_not_model(
            excluded,
            m,
        ) == is_a_model(allowed, m),
        is_a_model(allowed, m) matches OutcomeModel::Failure(fm, k) ==> k == ErrorKind::IsA
            && is_not_model(excluded, m) == OutcomeModel::Failure(m, ErrorKind::IsNot),
{
    assert forall|c: u8| #[trigger] set_member(allowed)(c) == set_absent(excluded)(c) by {
        assert(allowed.contains(c) <==> !excluded.contains(c));
    }
    lemma_count_while_ext(set_member(allowed), set_absent(excluded), m.data);
}

/// After a successful `is_a`, every consumed element is in the allowed set,
/// and the consumed prefix is maximal: the first remainder element, when one
/// exists, lies outside the set.
pub proof fn lemma_is_a_boundary(allowed: Seq<u8>, m: InputModel)
    ensures
        is_a_model(allowed, m) matches OutcomeModel::Success(rem, cons) ==> {
            &&& forall|k: int|
                0 <= k < cons.data.len() ==> allowed.contains(#[trigger] cons.data[k])
            &&& rem.data.len() > 0 ==> !allowed.contains(rem.data[0])
        },
{
    let pf = set_member(allowed);
    lemma_count_while_props(pf, m.data);
    let n = count_while(pf, m.data);
    if n != 0 {
        let cons = m.data.subrange(0, n);
        let rem = m.data.subrange(n, m.data.len() as int);
        assert forall|k: int| 0 <= k < cons.len() implies allowed.contains(#[trigger] cons[k]) by {
            assert(cons[k] == m.data[k]);
            assert(pf(m.data[k]));
        }
        if rem.len() > 0 {
            assert(rem[0] == m.data[n]);
            assert(!pf(m.data[n]));
        }
    }
}

/// After a successful `is_not`, every consumed element is outside the
/// excluded set, and the consumed prefix is maximal: the first remainder
/// element, when one exists, lies inside the set.
pub proof fn lemma_is_not_boundary(excluded: Seq<u8>, m: InputModel)
    ensures
        is_not_model(excluded, m) matches OutcomeModel::Success(rem, cons) ==> {
            &&& forall|k: int|
                0 <= k < cons.data.len() ==> !excluded.contains(#[trigger] cons.data[k])
            &&& rem.data.len() > 0 ==> excluded.contains(rem.data[0])
        },
{
    let pf = set_absent(excluded);
    lemma_count_while_props(pf, m.data);
    let n = count_while(pf, m.data);
    if n != 0 {
        let cons = m.data.subrange(0, n);
        let rem = m.data.subrange(n, m.data.len() as int);
        assert forall|k: int| 0 <= k < cons.len() implies !excluded.contains(#[trigger] cons[k]) by {
            assert(cons[k] == m.data[k]);
            assert(pf(m.data[k]));
        }
        if rem.len() > 0 {
            assert(rem[0] == m.data[n]);
            assert(!pf(m.data[n]));
        }
    }
}

} // verus!
