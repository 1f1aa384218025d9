//! End-to-end tests of the matcher: compile a pattern, scan an input line,
//! and check the recorded spans.

use patmatch::matcher::Matcher;

fn spans(pattern: &str, input: &str) -> Vec<(usize, usize)> {
    let mut m = Matcher::new(pattern, input).expect("pattern should compile");
    m.matches();
    m.matches.iter().map(|r| (r.start, r.end)).collect()
}

fn found(pattern: &str, input: &str) -> bool {
    !spans(pattern, input).is_empty()
}

#[test]
fn literal_substring_present() {
    assert!(found("abc", "xabcy"));
    assert_eq!(spans("abc", "xabcy"), vec![(1, 4)]);
}

#[test]
fn literal_substring_absent() {
    assert!(!found("abc", "xaby"));
    assert!(!found("abc", ""));
}

#[test]
fn literal_agrees_with_contains() {
    let texts = ["", "needle", "haystack needle", "neeneedle", "needl", "xneedlex"];
    for text in texts {
        assert_eq!(found("needle", text), text.contains("needle"));
    }
}

#[test]
fn start_anchor_positional() {
    assert!(found("^abc", "abcdef"));
    assert!(!found("^abc", "xabc"));
}

#[test]
fn end_anchor_positional() {
    assert!(found("abc$", "xyzabc"));
    assert!(!found("abc$", "abcx"));
}

#[test]
fn both_anchors_exact_equality() {
    assert!(found("^abc$", "abc"));
    assert!(!found("^abc$", "abcd"));
    assert!(!found("^abc$", "xabc"));
}

#[test]
fn zero_or_more_always_succeeds() {
    // With no `a` to consume the match is zero-width but still found.
    assert!(found("a*", "bbb"));
    assert!(found("a*", "aaa"));
}

#[test]
fn one_or_more_needs_one() {
    assert!(found("a+", "bab"));
    assert!(!found("a+", "bbb"));
}

#[test]
fn zero_or_one_optional() {
    assert!(found("colou?r", "color"));
    assert!(found("colou?r", "colour"));
    assert!(!found("colou?r", "colo"));
}

#[test]
fn digit_class_exact() {
    for c in '0'..='9' {
        assert!(found("\\d", &c.to_string()));
    }
    assert!(!found("\\d", "x"));
    assert!(!found("\\d", " "));
    assert!(!found("\\d", "/"));
    assert!(!found("\\d", ":"));
}

#[test]
fn word_class_letters_and_digits_only() {
    assert!(found("\\w", "a"));
    assert!(found("\\w", "Z"));
    assert!(found("\\w", "7"));
    assert!(!found("\\w", " "));
    assert!(!found("\\w", "-"));
    assert!(!found("\\w", "!"));
    assert!(!found("\\w", "_"));
}

#[test]
fn word_class_follows_unicode() {
    // The alphanumeric class covers every Unicode letter and digit.
    assert!(found("\\w", "\u{00e9}"));
    assert!(found("\\w", "\u{0391}"));
    assert!(!found("\\w", "\u{00bf}"));
}

#[test]
fn positive_set_exact() {
    assert!(found("[abc]", "a"));
    assert!(found("[abc]", "b"));
    assert!(found("[abc]", "c"));
    assert!(!found("[abc]", "d"));
}

#[test]
fn negative_set_exact() {
    assert!(found("[^abc]", "d"));
    assert!(found("[^abc]", " "));
    assert!(!found("[^abc]", "a"));
    assert!(!found("[^abc]", "b"));
    assert!(!found("[^abc]", "c"));
}

#[test]
fn wildcard_matches_any_character() {
    assert!(found(".", "x"));
    assert!(found(".", " "));
    assert!(!found(".", ""));
}

#[test]
fn alternation_left_branch_preferred() {
    // The left branch `a` wins and is never widened to `ab`.
    assert_eq!(spans("a|ab", "ab"), vec![(0, 1)]);
}

#[test]
fn alternation_right_branch_taken_on_left_failure() {
    assert!(found("cat|dog", "hotdog"));
    assert!(!found("cat|dog", "parrot"));
}

#[test]
fn digit_runs_two_matches() {
    // Each span covers one whole digit run: it starts where the match began
    // consuming and ends after its last character.
    let s = spans("\\d+", "ab123cd456");
    assert_eq!(s, vec![(2, 5), (7, 10)]);
}

#[test]
fn group_alternation_anchored_whole_line() {
    assert!(found("^(cat|dog)$", "dog"));
    assert!(found("^(cat|dog)$", "cat"));
    assert!(!found("^(cat|dog)$", "dogs"));
    assert!(!found("^(cat|dog)$", "do"));
}

#[test]
fn optional_letter_two_occurrences() {
    assert_eq!(spans("colou?r", "color and colour"), vec![(0, 5), (10, 16)]);
}

#[test]
fn spans_sorted_and_in_bounds() {
    let cases = [
        ("\\d+", "ab123cd456"),
        ("a", "aaaa"),
        ("ab", "ababab"),
        ("x?b", "abb"),
        ("a*", "bab"),
    ];
    for (pat, text) in cases {
        let s = spans(pat, text);
        for w in s.windows(2) {
            assert!(w[0].0 <= w[1].0);
            assert!(w[0].1 <= w[1].0);
        }
        for (a, b) in &s {
            assert!(a <= b && *b <= text.chars().count());
        }
    }
}

#[test]
fn grouped_sequence_matches() {
    assert!(found("(ab)+", "xababy"));
    assert!(!found("(ab)+", "acb"));
}

#[test]
fn escaped_metacharacters_are_literal() {
    assert!(found("\\.", "a.b"));
    assert!(!found("\\.", "ab"));
    assert!(found("\\\\", "a\\b"));
    assert!(found("\\+", "1+2"));
}

#[test]
fn empty_pattern_matches_zero_width() {
    assert_eq!(spans("", "abc"), vec![(0, 0)]);
    assert_eq!(spans("", ""), vec![(0, 0)]);
}

#[test]
fn end_anchor_alone_matches() {
    // A bare end anchor matches zero-width at the end of any line.
    assert_eq!(spans("$", "abc"), vec![(3, 3)]);
    assert_eq!(spans("$", ""), vec![(0, 0)]);
}

#[test]
fn empty_positive_set_never_matches() {
    assert!(!found("[]", "abc"));
}

#[test]
fn empty_negative_set_matches_any_character() {
    assert_eq!(spans("[^]", "a"), vec![(0, 1)]);
    assert!(!found("[^]", ""));
}

#[test]
fn caret_only_special_at_set_start() {
    // Inside a set, `^` past the first position is an ordinary member.
    assert!(found("[a^]", "^"));
    assert!(found("[a^]", "a"));
    assert!(!found("[a^]", "b"));
}

#[test]
fn wildcard_in_sequence() {
    assert!(found("a.c", "abc"));
    assert!(found("a.c", "a c"));
    assert!(!found("a.c", "ac"));
}

#[test]
fn nested_groups() {
    assert!(found("(a(b(c)))", "xabcy"));
    assert!(!found("(a(b(c)))", "xaby"));
}

#[test]
fn alternation_inside_group_in_sequence() {
    assert!(found("x(a|b)y", "xay"));
    assert!(found("x(a|b)y", "xby"));
    assert!(!found("x(a|b)y", "xcy"));
}

#[test]
fn greedy_repetition_never_backtracks() {
    // `a+` swallows every `a`, so the trailing literal `a` finds none left.
    assert!(!found("^a+a$", "aaa"));
    assert!(found("^a+$", "aaa"));
}

#[test]
fn optional_group_keeps_partial_consumption() {
    // A failed optional group does not give back the characters it had
    // already consumed: the `a` eaten by `(ab)?` stays consumed, and the
    // span covers it.
    assert_eq!(spans("(ab)?c", "ac"), vec![(0, 2)]);
}

#[test]
fn chained_alternation() {
    assert!(found("a|b|c", "b"));
    assert!(found("a|b|c", "c"));
    assert!(!found("a|b|c", "d"));
}

#[test]
fn zero_width_open_does_not_overlap() {
    // A zero-width leading node opens the match where the attempt began, so
    // consecutive spans never overlap.
    assert_eq!(spans("b*ab", "abab"), vec![(0, 2), (2, 4)]);
}

