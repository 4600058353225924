use ccs::layout::{LineKind, RenderedLine};
use ccs::search::{SearchIndex, SearchMatch, SearchMode};
use ccs::style::{plain, Line, Span};

fn raw(text: &str) -> Span {
    Span { content: text.to_string(), style: plain() }
}

fn line(text: &str, msg_index: usize, block_index: Option<usize>) -> RenderedLine {
    RenderedLine {
        line: Line { spans: vec![raw(text)] },
        msg_index,
        block_index,
        kind: if block_index.is_some() { LineKind::Body } else { LineKind::Header },
    }
}

#[test]
fn empty_index_matches_nothing() {
    let idx = SearchIndex::build(&[]);
    assert!(idx.find_all("anything").is_empty());
}

#[test]
fn finds_single_match_case_insensitively() {
    let lines = vec![line("Hello World", 0, Some(0))];
    let idx = SearchIndex::build(&lines);
    let m = idx.find_all("hello");
    assert_eq!(m.len(), 1);
    assert_eq!(m[0].line, 0);
    assert_eq!(m[0].byte_start, 0);
    assert_eq!(m[0].byte_end, 5);
}

#[test]
fn finds_multiple_matches_across_lines() {
    let lines = vec![line("alpha bravo", 0, Some(0)), line("bravo charlie", 0, Some(0)), line("delta", 0, Some(0))];
    let idx = SearchIndex::build(&lines);
    let m = idx.find_all("bravo");
    assert_eq!(m.len(), 2);
    assert_eq!(m[0].line, 0);
    assert_eq!(m[0].byte_start, 6);
    assert_eq!(m[0].byte_end, 11);
    assert_eq!(m[1].line, 1);
    assert_eq!(m[1].byte_start, 0);
    assert_eq!(m[1].byte_end, 5);
}

#[test]
fn empty_query_returns_nothing() {
    let lines = vec![line("hello", 0, Some(0))];
    let idx = SearchIndex::build(&lines);
    assert!(idx.find_all("").is_empty());
}

#[test]
fn query_with_newline_returns_nothing() {
    let lines = vec![line("hello", 0, Some(0))];
    let idx = SearchIndex::build(&lines);
    assert!(idx.find_all("he\nllo").is_empty());
}

#[test]
fn no_match_returns_empty() {
    let lines = vec![line("hello world", 0, Some(0))];
    let idx = SearchIndex::build(&lines);
    assert!(idx.find_all("zzz").is_empty());
}

#[test]
fn match_inside_multi_span_line() {
    let rl = RenderedLine {
        line: Line { spans: vec![raw("foo "), raw("bar baz")] },
        msg_index: 0,
        block_index: Some(0),
        kind: LineKind::Body,
    };
    let idx = SearchIndex::build(&[rl]);
    let m = idx.find_all("bar");
    assert_eq!(m.len(), 1);
    assert_eq!(m[0].line, 0);
    assert_eq!(m[0].byte_start, 4);
    assert_eq!(m[0].byte_end, 7);
}

#[test]
fn mode_transitions() {
    let mut m = SearchMode::new();
    assert!(matches!(m, SearchMode::Idle));
    m = SearchMode::Typing { query: "ab".to_string() };
    assert!(m.is_typing());
    assert_eq!(m.query(), Some("ab"));
    m = SearchMode::Active {
        query: "ab".to_string(),
        matches: vec![SearchMatch { line: 0, byte_start: 0, byte_end: 2 }],
        cursor: 0,
    };
    assert!(m.is_active());
    assert_eq!(m.current_match().unwrap().line, 0);
}

#[test]
fn matches_do_not_overlap() {
    let lines = vec![line("aaaa", 0, Some(0))];
    let idx = SearchIndex::build(&lines);
    let m = idx.find_all("aa");
    assert_eq!(m.len(), 2);
    assert_eq!((m[0].byte_start, m[0].byte_end), (0, 2));
    assert_eq!((m[1].byte_start, m[1].byte_end), (2, 4));
}

#[test]
fn uppercase_query_matches_lowercase_text() {
    let lines = vec![line("needle in haystack", 0, Some(0))];
    let idx = SearchIndex::build(&lines);
    let m = idx.find_all("NEEDLE");
    assert_eq!(m.len(), 1);
    assert_eq!(m[0].byte_end, 6);
}

#[test]
fn match_offsets_are_bytes_after_multibyte_text() {
    let lines = vec![line("héllo world", 0, Some(0))];
    let idx = SearchIndex::build(&lines);
    let m = idx.find_all("world");
    assert_eq!(m.len(), 1);
    assert_eq!(m[0].byte_start, 7);
    assert_eq!(m[0].byte_end, 12);
}

#[test]
fn idle_mode_has_no_query_or_match() {
    let m = SearchMode::default();
    assert!(!m.is_typing());
    assert!(!m.is_active());
    assert_eq!(m.query(), None);
    assert_eq!(m.current_match(), None);
}

#[test]
fn every_match_lies_inside_its_line() {
    let lines = vec![line("ab ab", 0, Some(0)), line("b", 0, Some(0)), line("abab", 0, Some(0))];
    let idx = SearchIndex::build(&lines);
    let m = idx.find_all("ab");
    assert_eq!(m.len(), 4);
    for hit in &m {
        let text: String = lines[hit.line].line.spans.iter().map(|s| s.content.clone()).collect();
        assert!(hit.byte_start < hit.byte_end && hit.byte_end <= text.len());
    }
}

#[test]
fn each_line_starts_right_after_the_previous_lines_newline() {
    let idx = SearchIndex::build(&[line("héllo", 0, None), line("World", 0, Some(0)), line("wor", 1, Some(0))]);
    assert_eq!(
        idx.find_all("wor"),
        vec![
            SearchMatch { line: 1, byte_start: 0, byte_end: 3 },
            SearchMatch { line: 2, byte_start: 0, byte_end: 3 },
        ]
    );
}
