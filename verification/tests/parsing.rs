//! Tests of the compiler's error reporting and of the two cursors.

use patmatch::iterators::{CharIter, PatternIter};
use patmatch::matcher::Matcher;
use patmatch::parser::Parser;

fn compile_err(pattern: &str) -> String {
    match Matcher::new(pattern, "anything") {
        Ok(_) => panic!("pattern unexpectedly compiled"),
        Err(e) => e,
    }
}

#[test]
fn unterminated_set_fails_before_matching() {
    assert_eq!(compile_err("[abc"), "Unclosed [");
}

#[test]
fn stray_closing_bracket() {
    assert_eq!(compile_err("ab]cd"), "Unopened [");
}

#[test]
fn unopened_group() {
    assert_eq!(compile_err("ab)"), "Unopened )");
}

#[test]
fn unclosed_group() {
    assert_eq!(compile_err("(ab"), "Unclosed (");
}

#[test]
fn dangling_quantifiers() {
    assert_eq!(compile_err("+a"), "Failed to parse OneOrMore expression");
    assert_eq!(compile_err("*a"), "Failed to parse ZeroOrMore expression");
    assert_eq!(compile_err("?a"), "Failed to parse ZeroOrOne expression");
}

#[test]
fn escape_errors() {
    assert_eq!(compile_err("a\\"), "Unfinished escape pattern");
    assert_eq!(compile_err("\\q"), "Unhandled escape pattern: \\q");
    assert_eq!(compile_err("\\!"), "Unhandled escape pattern: \\!");
}

#[test]
fn good_patterns_compile() {
    for p in ["", "abc", "a|b|c", "(a(b(c)))", "[^xyz]\\d+\\w*.?", "^a$", "\\(\\)"] {
        assert!(PatternIter::new(p).is_ok(), "{p} should compile");
    }
}

#[test]
fn char_iter_walks_the_input() {
    let mut it = CharIter::new("abc").unwrap();
    assert_eq!(it.len(), 3);
    assert_eq!(it.peek(), Some('a'));
    assert_eq!(it.next(), Some('a'));
    assert_eq!(it.index, 1);
    it.consume();
    assert_eq!(it.peek(), Some('c'));
    it.consume();
    assert_eq!(it.peek(), None);
    it.consume();
    assert_eq!(it.index, 3);
    it.set_index(1);
    assert_eq!(it.peek(), Some('b'));
}

#[test]
fn char_iter_empty_input() {
    let mut it = CharIter::new("").unwrap();
    assert_eq!(it.len(), 0);
    assert_eq!(it.peek(), None);
    assert_eq!(it.next(), None);
    assert_eq!(it.index, 0);
}

#[test]
fn pattern_iter_walks_and_resets() {
    let mut it = PatternIter::new("ab").unwrap();
    assert_eq!(it.len(), 2);
    assert_eq!(it.index, 0);
    assert!(it.peek().is_some());
    assert!(it.next().is_some());
    assert_eq!(it.index, 1);
    it.consume();
    assert!(it.peek().is_none());
    it.consume();
    assert_eq!(it.index, 2);
    it.reset();
    assert_eq!(it.index, 0);
    assert!(it.peek().is_some());
}

#[test]
fn parser_cursor_peek_and_next() {
    let mut p = Parser::new("ab");
    assert_eq!(p.peek(), Some('a'));
    assert_eq!(p.next(), Some('a'));
    assert_eq!(p.peek(), Some('b'));
    assert_eq!(p.next(), Some('b'));
    assert_eq!(p.next(), None);
    assert_eq!(p.peek(), None);
}

#[test]
fn parse_depth_zero_accepts_whole_input() {
    let mut p = Parser::new("a(b)c");
    let nodes = p.parse(0).unwrap();
    assert_eq!(nodes.len(), 3);
}

#[test]
fn matcher_reports_spans_through_public_field() {
    let mut m = Matcher::new("b", "abcb").unwrap();
    m.matches();
    let got: Vec<(usize, usize)> = m.matches.iter().map(|r| (r.start, r.end)).collect();
    assert_eq!(got, vec![(1, 2), (3, 4)]);
}
