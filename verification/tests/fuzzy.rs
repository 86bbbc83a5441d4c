use pacquery::fuzzy::{exceeds_threshold, fuzzy_get_indexes, fuzzy_match, score_ge, Score};

// Scaled by 20: base 1.0 -> 20, run bonus 1.0 + streak*0.3 -> 20 + 6*streak,
// start 4.0 -> 80, boundary 2.5 -> 50, gap 0.15 -> 3; denominator
// len*0.15 + 1.0 -> 3*len + 20.

#[test]
fn empty_query_scores_zero() {
    let s = fuzzy_match("", "anything");
    assert_eq!(s, Score { num: 0, den: 1 });
}

#[test]
fn no_subsequence_scores_zero() {
    let s = fuzzy_match("xyz", "ab");
    assert_eq!(s, Score { num: 0, den: 1 });
    let s2 = fuzzy_match("zz", "firefox");
    assert_eq!(s2, Score { num: 0, den: 1 });
}

#[test]
fn exact_match_scores_exactly() {
    // indices 0,1,2: (20+80) + (20+26) + (20+32) = 198, den 3*3+20 = 29
    let s = fuzzy_match("abc", "abc");
    assert_eq!(s.num, 198);
    assert_eq!(s.den, 29);
    assert!(exceeds_threshold(&s));
}

#[test]
fn match_is_case_insensitive() {
    assert_eq!(fuzzy_match("ABC", "abc"), fuzzy_match("abc", "ABC"));
    assert_eq!(fuzzy_match("FireFox", "firefox"), fuzzy_match("firefox", "firefox"));
}

#[test]
fn subsequence_match_is_positive() {
    // "ffx" is a subsequence of "firefox" (f,i,r,e,f,o,x)
    let s = fuzzy_match("ffx", "firefox");
    assert!(s.num > 0);
    assert!(exceeds_threshold(&s));
}

#[test]
fn start_of_string_bonus_beats_later_match() {
    // 'a' at index 0 of "ab": raw 100; 'a' at index 1 of "ba" (after a
    // non-separator): raw 20. Same denominator 26.
    let at_start = fuzzy_match("a", "ab");
    let later = fuzzy_match("a", "ba");
    assert_eq!(at_start.num, 100);
    assert_eq!(later.num, 20);
    assert!(score_ge(&at_start, &later));
    assert!(!score_ge(&later, &at_start));
}

#[test]
fn longer_runs_earn_increasing_bonus() {
    // per-character contributions 100, 46, 52, 58: the run bonus grows by 6
    // with each extra adjacent match.
    let s = fuzzy_match("abcd", "abcd");
    assert_eq!(s.num, 256);
    assert_eq!(s.den, 32);
}

#[test]
fn gap_penalty_subtracts_per_skipped_char() {
    // indices 0,2 in "axb": 100 + (20 - 3*1) = 117, den 29
    let s = fuzzy_match("ab", "axb");
    assert_eq!(s.num, 117);
    assert_eq!(s.den, 29);
}

#[test]
fn word_boundary_bonus_after_separator() {
    // 'b' at index 2 of "a-b", preceded by '-': 20 + 50 = 70, den 29
    let s = fuzzy_match("b", "a-b");
    assert_eq!(s.num, 70);
    assert_eq!(s.den, 29);
}

#[test]
fn long_gaps_can_drive_the_score_negative() {
    // query "ab" against "a" + 50 fillers + "b": raw 100 + 20 - 3*50 < 0,
    // so the record would not beat the retention threshold.
    let target = format!("a{}b", "x".repeat(50));
    let s = fuzzy_match("ab", &target);
    assert!(s.num < 0);
    assert!(!exceeds_threshold(&s));
}

#[test]
fn indexes_single_forward_pass() {
    let q: Vec<char> = "ffx".chars().collect();
    let t: Vec<char> = "firefox".chars().collect();
    let ix = fuzzy_get_indexes(&q, &t).unwrap();
    assert_eq!(ix, vec![0, 4, 6]);
}

#[test]
fn indexes_fail_when_order_breaks() {
    let q: Vec<char> = "ba".chars().collect();
    let t: Vec<char> = "ab".chars().collect();
    // 'b' matches at 1, then no 'a' remains after it
    assert!(fuzzy_get_indexes(&q, &t).is_none());
}

#[test]
fn empty_query_indexes_are_empty() {
    let q: Vec<char> = Vec::new();
    let t: Vec<char> = "abc".chars().collect();
    assert_eq!(fuzzy_get_indexes(&q, &t).unwrap(), Vec::<usize>::new());
}
