use parsecore::combinators::{
    is_a, is_not, tag, tag_no_case, take, take_till, take_till1, take_until, take_while,
    take_while1, take_while_m_n,
};
use parsecore::error::{ErrorKind, Needed, ParseOutcome};
use parsecore::input::{ByteSet, Bytes, ParseInput};

fn expect_success<'a>(r: ParseOutcome<Bytes<'a>>) -> (Bytes<'a>, Bytes<'a>) {
    match r {
        ParseOutcome::Success(rem, cons) => (rem, cons),
        other => panic!("expected success, got {:?}", other),
    }
}

fn expect_failure(r: ParseOutcome<Bytes<'_>>) -> ErrorKind {
    match r {
        ParseOutcome::Failure(e) => e.kind,
        other => panic!("expected failure, got {:?}", other),
    }
}

#[test]
fn tag_matches_prefix() {
    let input = Bytes::new_complete(b"abcdef");
    let (rem, cons) = expect_success(tag(b"abc").apply(input));
    assert_eq!(cons.bytes(), &b"abc"[..]);
    assert_eq!(rem.bytes(), &b"def"[..]);
}

#[test]
fn tag_mismatch_fails() {
    let input = Bytes::new_complete(b"abx");
    assert_eq!(expect_failure(tag(b"abc").apply(input)), ErrorKind::Tag);
}

#[test]
fn tag_short_input_fails() {
    let input = Bytes::new_complete(b"ab");
    assert_eq!(expect_failure(tag(b"abc").apply(input)), ErrorKind::Tag);
}

#[test]
fn tag_exact_length_consumes_everything() {
    let input = Bytes::new_complete(b"abc");
    let (rem, cons) = expect_success(tag(b"abc").apply(input));
    assert_eq!(cons.bytes(), &b"abc"[..]);
    assert_eq!(rem.bytes(), &b""[..]);
}

#[test]
fn tag_no_case_folds_ascii() {
    let input = Bytes::new_complete(b"AbCdef");
    let (rem, cons) = expect_success(tag_no_case(b"aBc").apply(input));
    assert_eq!(cons.bytes(), &b"AbC"[..]);
    assert_eq!(rem.bytes(), &b"def"[..]);
}

#[test]
fn tag_no_case_mismatch_fails() {
    let input = Bytes::new_complete(b"a-c");
    assert_eq!(expect_failure(tag_no_case(b"abc").apply(input)), ErrorKind::Tag);
}

#[test]
fn tag_no_case_folds_letters_only() {
    let input = Bytes::new_complete(b"A:z!");
    let (rem, cons) = expect_success(tag_no_case(b"a:Z").apply(input));
    assert_eq!(cons.bytes(), &b"A:z"[..]);
    assert_eq!(rem.bytes(), &b"!"[..]);
}

#[test]
fn tag_no_case_does_not_fold_punctuation() {
    let matching = Bytes::new_complete(b"Z[");
    let (rem, cons) = expect_success(tag_no_case(b"z[").apply(matching));
    assert_eq!(cons.bytes(), &b"Z["[..]);
    assert_eq!(rem.bytes(), &b""[..]);
    let offset_by_case_bit = Bytes::new_complete(b"{");
    assert_eq!(expect_failure(tag_no_case(b"[").apply(offset_by_case_bit)), ErrorKind::Tag);
}

#[test]
fn is_a_consumes_allowed_prefix() {
    let input = Bytes::new_complete(b"abcabcxyz");
    let (rem, cons) = expect_success(is_a(b"abc").apply(input));
    assert_eq!(cons.bytes(), &b"abcabc"[..]);
    assert_eq!(rem.bytes(), &b"xyz"[..]);
}

#[test]
fn is_a_zero_match_fails() {
    let input = Bytes::new_complete(b"xyz");
    assert_eq!(expect_failure(is_a(b"abc").apply(input)), ErrorKind::IsA);
}

#[test]
fn is_not_consumes_until_excluded() {
    let input = Bytes::new_complete(b"hello world");
    let (rem, cons) = expect_success(is_not(b" \t").apply(input));
    assert_eq!(cons.bytes(), &b"hello"[..]);
    assert_eq!(rem.bytes(), &b" world"[..]);
}

#[test]
fn is_not_zero_match_fails() {
    let input = Bytes::new_complete(b" lead");
    assert_eq!(expect_failure(is_not(b" \t").apply(input)), ErrorKind::IsNot);
}

#[test]
fn take_while_consumes_digits() {
    let digits = ByteSet::new(b"0123456789");
    let input = Bytes::new_complete(b"123abc");
    let (rem, cons) = expect_success(take_while(digits).apply(input));
    assert_eq!(cons.bytes(), &b"123"[..]);
    assert_eq!(rem.bytes(), &b"abc"[..]);
}

#[test]
fn take_while_zero_match_succeeds() {
    let digits = ByteSet::new(b"0123456789");
    let input = Bytes::new_complete(b"abc");
    let (rem, cons) = expect_success(take_while(digits).apply(input));
    assert_eq!(cons.bytes(), &b""[..]);
    assert_eq!(rem.bytes(), &b"abc"[..]);
}

#[test]
fn take_while_empty_input_succeeds() {
    let digits = ByteSet::new(b"0123456789");
    let input = Bytes::new_complete(b"");
    let (rem, cons) = expect_success(take_while(digits).apply(input));
    assert_eq!(cons.bytes(), &b""[..]);
    assert_eq!(rem.bytes(), &b""[..]);
}

#[test]
fn take_while1_consumes_digits() {
    let digits = ByteSet::new(b"0123456789");
    let input = Bytes::new_complete(b"123abc");
    let (rem, cons) = expect_success(take_while1(digits).apply(input));
    assert_eq!(cons.bytes(), &b"123"[..]);
    assert_eq!(rem.bytes(), &b"abc"[..]);
}

#[test]
fn take_while1_zero_match_fails() {
    let digits = ByteSet::new(b"0123456789");
    let input = Bytes::new_complete(b"abc");
    assert_eq!(expect_failure(take_while1(digits).apply(input)), ErrorKind::TakeWhile1);
}

#[test]
fn take_till_stops_at_first_hit() {
    let colon = ByteSet::new(b":");
    let input = Bytes::new_complete(b"key:value");
    let (rem, cons) = expect_success(take_till(colon).apply(input));
    assert_eq!(cons.bytes(), &b"key"[..]);
    assert_eq!(rem.bytes(), &b":value"[..]);
}

#[test]
fn take_till_no_hit_consumes_everything() {
    let colon = ByteSet::new(b":");
    let input = Bytes::new_complete(b"keyvalue");
    let (rem, cons) = expect_success(take_till(colon).apply(input));
    assert_eq!(cons.bytes(), &b"keyvalue"[..]);
    assert_eq!(rem.bytes(), &b""[..]);
}

#[test]
fn take_till_immediate_hit_succeeds_empty() {
    let colon = ByteSet::new(b":");
    let input = Bytes::new_complete(b":rest");
    let (rem, cons) = expect_success(take_till(colon).apply(input));
    assert_eq!(cons.bytes(), &b""[..]);
    assert_eq!(rem.bytes(), &b":rest"[..]);
}

#[test]
fn take_till1_immediate_hit_fails() {
    let colon = ByteSet::new(b":");
    let input = Bytes::new_complete(b":rest");
    assert_eq!(expect_failure(take_till1(colon).apply(input)), ErrorKind::TakeTill1);
}

#[test]
fn take_till1_consumes_up_to_hit() {
    let colon = ByteSet::new(b":");
    let input = Bytes::new_complete(b"ab:c");
    let (rem, cons) = expect_success(take_till1(colon).apply(input));
    assert_eq!(cons.bytes(), &b"ab"[..]);
    assert_eq!(rem.bytes(), &b":c"[..]);
}

#[test]
fn take_short_input_fails() {
    let input = Bytes::new_complete(b"ab");
    assert_eq!(expect_failure(take(4).apply(input)), ErrorKind::Eof);
}

#[test]
fn take_splits_at_count() {
    let input = Bytes::new_complete(b"abcdef");
    let (rem, cons) = expect_success(take(4).apply(input));
    assert_eq!(cons.bytes(), &b"abcd"[..]);
    assert_eq!(rem.bytes(), &b"ef"[..]);
}

#[test]
fn take_zero_on_empty_succeeds() {
    let input = Bytes::new_complete(b"");
    let (rem, cons) = expect_success(take(0).apply(input));
    assert_eq!(cons.bytes(), &b""[..]);
    assert_eq!(rem.bytes(), &b""[..]);
}

#[test]
fn take_exact_length_consumes_everything() {
    let input = Bytes::new_complete(b"abcdef");
    let (rem, cons) = expect_success(take(6).apply(input));
    assert_eq!(cons.bytes(), &b"abcdef"[..]);
    assert_eq!(rem.bytes(), &b""[..]);
}

#[test]
fn take_until_splits_before_delimiter() {
    let input = Bytes::new_complete(b"key::value");
    let (rem, cons) = expect_success(take_until(b"::").apply(input));
    assert_eq!(cons.bytes(), &b"key"[..]);
    assert_eq!(rem.bytes(), &b"::value"[..]);
}

#[test]
fn take_until_missing_delimiter_fails() {
    let input = Bytes::new_complete(b"novalue");
    assert_eq!(expect_failure(take_until(b"::").apply(input)), ErrorKind::TakeUntil);
}

#[test]
fn take_until_delimiter_at_start_succeeds_empty() {
    let input = Bytes::new_complete(b"::value");
    let (rem, cons) = expect_success(take_until(b"::").apply(input));
    assert_eq!(cons.bytes(), &b""[..]);
    assert_eq!(rem.bytes(), &b"::value"[..]);
}

#[test]
fn take_until_empty_delimiter_splits_at_start() {
    let input = Bytes::new_complete(b"abc");
    let (rem, cons) = expect_success(take_until(b"").apply(input));
    assert_eq!(cons.bytes(), &b""[..]);
    assert_eq!(rem.bytes(), &b"abc"[..]);
}

#[test]
fn take_while_m_n_too_few_at_end_of_data_fails() {
    let alpha = ByteSet::new(b"abcdefghijklmnopqrstuvwxyzABCDEFGHIJKLMNOPQRSTUVWXYZ");
    let input = Bytes::new_complete(b"a");
    assert_eq!(expect_failure(take_while_m_n(2, 4, alpha).apply(input)), ErrorKind::TakeWhileMN);
}

#[test]
fn take_while_m_n_too_few_streaming_is_incomplete() {
    let alpha = ByteSet::new(b"abcdefghijklmnopqrstuvwxyzABCDEFGHIJKLMNOPQRSTUVWXYZ");
    let input = Bytes::new_streaming(b"a");
    match take_while_m_n(2, 4, alpha).apply(input) {
        ParseOutcome::Incomplete(Needed::Size(n)) => assert_eq!(n, 1),
        other => panic!("expected incomplete, got {:?}", other),
    }
}

#[test]
fn take_while_m_n_caps_at_maximum() {
    let alpha = ByteSet::new(b"abcdefghijklmnopqrstuvwxyzABCDEFGHIJKLMNOPQRSTUVWXYZ");
    let input = Bytes::new_complete(b"abcdef");
    let (rem, cons) = expect_success(take_while_m_n(2, 4, alpha).apply(input));
    assert_eq!(cons.bytes(), &b"abcd"[..]);
    assert_eq!(rem.bytes(), &b"ef"[..]);
}

#[test]
fn take_while_m_n_natural_run_inside_bounds() {
    let alpha = ByteSet::new(b"abcdefghijklmnopqrstuvwxyzABCDEFGHIJKLMNOPQRSTUVWXYZ");
    let input = Bytes::new_complete(b"ab12");
    let (rem, cons) = expect_success(take_while_m_n(2, 4, alpha).apply(input));
    assert_eq!(cons.bytes(), &b"ab"[..]);
    assert_eq!(rem.bytes(), &b"12"[..]);
}

#[test]
fn take_while_m_n_run_below_minimum_fails() {
    let alpha = ByteSet::new(b"abcdefghijklmnopqrstuvwxyzABCDEFGHIJKLMNOPQRSTUVWXYZ");
    let input = Bytes::new_complete(b"a1bc");
    assert_eq!(expect_failure(take_while_m_n(2, 4, alpha).apply(input)), ErrorKind::TakeWhileMN);
}

#[test]
fn take_while_m_n_whole_short_input_at_end_of_data() {
    let alpha = ByteSet::new(b"abcdefghijklmnopqrstuvwxyzABCDEFGHIJKLMNOPQRSTUVWXYZ");
    let input = Bytes::new_complete(b"abc");
    let (rem, cons) = expect_success(take_while_m_n(2, 4, alpha).apply(input));
    assert_eq!(cons.bytes(), &b"abc"[..]);
    assert_eq!(rem.bytes(), &b""[..]);
}

#[test]
fn take_while_m_n_streaming_below_maximum_is_incomplete() {
    let alpha = ByteSet::new(b"abcdefghijklmnopqrstuvwxyzABCDEFGHIJKLMNOPQRSTUVWXYZ");
    let input = Bytes::new_streaming(b"abc");
    match take_while_m_n(2, 4, alpha).apply(input) {
        ParseOutcome::Incomplete(Needed::Size(n)) => assert_eq!(n, 1),
        other => panic!("expected incomplete, got {:?}", other),
    }
}

#[test]
fn take_while_m_n_streaming_needs_count_to_reach_minimum() {
    let alpha = ByteSet::new(b"abcdefghijklmnopqrstuvwxyzABCDEFGHIJKLMNOPQRSTUVWXYZ");
    let input = Bytes::new_streaming(b"a");
    match take_while_m_n(3, 5, alpha).apply(input) {
        ParseOutcome::Incomplete(Needed::Size(n)) => assert_eq!(n, 2),
        other => panic!("expected incomplete, got {:?}", other),
    }
}

#[test]
fn split_parts_reassemble_original() {
    let original = b"12 34:ab";
    let digits = ByteSet::new(b"0123456789");
    let outcomes = [
        take_while(digits).apply(Bytes::new_complete(original)),
        take(3).apply(Bytes::new_complete(original)),
        take_until(b":").apply(Bytes::new_complete(original)),
        is_a(b"0123456789 ").apply(Bytes::new_complete(original)),
    ];
    for outcome in outcomes {
        let (rem, cons) = expect_success(outcome);
        let mut rebuilt = cons.bytes().to_vec();
        rebuilt.extend_from_slice(rem.bytes());
        assert_eq!(rebuilt, original.to_vec());
        assert_eq!(cons.bytes().len() + rem.bytes().len(), original.len());
    }
}

#[test]
fn applying_twice_yields_identical_outcomes() {
    let input = Bytes::new_complete(b"123abc");
    let digits = ByteSet::new(b"0123456789");
    let parser = take_while1(digits);
    assert_eq!(parser.apply(input), parser.apply(input));
    let tagger = tag(b"123");
    assert_eq!(tagger.apply(input), tagger.apply(input));
    let bounded = take_while_m_n(2, 9, digits);
    assert_eq!(bounded.apply(input), bounded.apply(input));
}

#[test]
fn complementary_sets_agree() {
    let digits: Vec<u8> = (b'0'..=b'9').collect();
    let not_digits: Vec<u8> = (0..=255u8).filter(|c| !digits.contains(c)).collect();
    let input = Bytes::new_complete(b"123abc");
    let (rem_a, cons_a) = expect_success(is_a(&digits).apply(input));
    let (rem_n, cons_n) = expect_success(is_not(&not_digits).apply(input));
    assert_eq!(cons_a.bytes(), cons_n.bytes());
    assert_eq!(rem_a.bytes(), rem_n.bytes());
    assert!(!digits.contains(&rem_a.bytes()[0]));
    assert!(not_digits.contains(&rem_a.bytes()[0]));
}

#[test]
fn derived_inputs_keep_the_end_of_data_flag() {
    let streaming = Bytes::new_streaming(b"abcdef");
    let (rem, cons) = expect_success(tag(b"abc").apply(streaming));
    assert!(!rem.at_eof());
    assert!(!cons.at_eof());
    let complete = Bytes::new_complete(b"abcdef");
    let (rem, cons) = expect_success(tag(b"abc").apply(complete));
    assert!(rem.at_eof());
    assert!(cons.at_eof());
}

#[test]
fn parser_values_are_reusable_across_inputs() {
    let parser = tag(b"ab");
    let (_, cons1) = expect_success(parser.apply(Bytes::new_complete(b"abc")));
    let (_, cons2) = expect_success(parser.apply(Bytes::new_complete(b"abd")));
    assert_eq!(cons1.bytes(), cons2.bytes());
    assert_eq!(expect_failure(parser.apply(Bytes::new_complete(b"xy"))), ErrorKind::Tag);
}
