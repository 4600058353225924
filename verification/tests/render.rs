use ccs::jsonl::{Message, MessageContent, MessageEvent, SessionEvent};
use ccs::render::{build_status, build_title, highlight_matches, short_id_fits, short_session_id, slice_visible};
use ccs::search::SearchMatch;
use ccs::state::TranscriptState;
use ccs::style::{plain, Color, Line, Span};
use ccs::transcript::from_events;
use ccs::render::{can_build_status, can_slice_visible};

fn user(uuid: &str, sid: &str, text: &str, cwd: Option<&str>) -> SessionEvent {
    SessionEvent::User(MessageEvent {
        uuid: uuid.into(),
        parent_uuid: None,
        session_id: sid.into(),
        timestamp: "t".into(),
        is_sidechain: false,
        cwd: cwd.map(|c| c.into()),
        git_branch: None,
        version: None,
        message: Message { role: Some("user".into()), content: MessageContent::Text(text.into()), extra: Vec::new() },
        extra: Vec::new(),
    })
}

fn raw(t: &str) -> Span {
    Span { content: t.to_string(), style: plain() }
}

fn texts(l: &Line) -> Vec<String> {
    l.spans.iter().map(|s| s.content.clone()).collect()
}

#[test]
fn short_session_id_cuts_at_twelve_bytes() {
    assert_eq!(short_session_id(""), "-");
    assert_eq!(short_session_id("abc"), "abc");
    assert_eq!(short_session_id("123456789012"), "123456789012");
    assert_eq!(short_session_id("1234567890123"), "123456789012…");
    assert!(short_id_fits("3f2a9c1e-77aa-4bd0"));
    assert!(!short_id_fits("12345678901é"));
}

#[test]
fn highlight_splits_a_span_around_a_hit() {
    let line = Line { spans: vec![raw("foo "), raw("bar baz")] };
    let hits = [SearchMatch { line: 3, byte_start: 4, byte_end: 7 }];
    let out = highlight_matches(&line, 3, &hits);
    assert_eq!(texts(&out), vec!["foo ", "bar", " baz"]);
    assert_eq!(out.spans[1].style.bg, Color::Yellow);
    assert_eq!(out.spans[1].style.fg, Color::Black);
    assert_eq!(out.spans[2].style, plain());
}

#[test]
fn highlight_ignores_hits_on_other_lines() {
    let line = Line { spans: vec![raw("foo bar")] };
    let hits = [SearchMatch { line: 1, byte_start: 0, byte_end: 3 }];
    let out = highlight_matches(&line, 0, &hits);
    assert_eq!(texts(&out), vec!["foo bar"]);
}

#[test]
fn highlight_covers_a_hit_spanning_two_spans() {
    let line = Line { spans: vec![raw("ab"), raw("cd")] };
    let hits = [SearchMatch { line: 0, byte_start: 1, byte_end: 3 }];
    let out = highlight_matches(&line, 0, &hits);
    assert_eq!(texts(&out), vec!["a", "b", "c", "d"]);
    assert_eq!(out.spans[1].style.bg, Color::Yellow);
    assert_eq!(out.spans[2].style.bg, Color::Yellow);
    assert_eq!(out.spans[3].style.bg, plain().bg);
}

#[test]
fn highlight_orders_hits_inside_a_span() {
    let line = Line { spans: vec![raw("aXbXc")] };
    let hits = [
        SearchMatch { line: 0, byte_start: 3, byte_end: 4 },
        SearchMatch { line: 0, byte_start: 1, byte_end: 2 },
    ];
    let out = highlight_matches(&line, 0, &hits);
    assert_eq!(texts(&out), vec!["a", "X", "b", "X", "c"]);
}

#[test]
fn highlight_counts_bytes_of_multibyte_text() {
    let line = Line { spans: vec![raw("héllo")] };
    let hits = [SearchMatch { line: 0, byte_start: 1, byte_end: 3 }];
    let out = highlight_matches(&line, 0, &hits);
    assert_eq!(texts(&out), vec!["h", "é", "llo"]);
}

#[test]
fn title_shows_the_session_or_live_mode() {
    let t = from_events(vec![user("u1", "sess-1", "hi", None)]);
    let s = TranscriptState::new(t);
    assert_eq!(build_title(&s, false), "transcript viewer — sess-1");
    assert_eq!(build_title(&s, true), "transcript viewer — live-tail");
    let empty = TranscriptState::new(from_events(Vec::new()));
    assert_eq!(build_title(&empty, false), "transcript viewer");
}

#[test]
fn status_line_counts_messages_and_lines() {
    let t = from_events(vec![user("u1", "0123456789abcdef", "hi", Some("/proj")), user("u2", "x", "again", None)]);
    let mut s = TranscriptState::new(t);
    s.set_viewport(80, 10);
    let l = build_status(&s);
    let total = s.lines().len();
    assert_eq!(
        texts(&l),
        vec![format!("session 0123456789ab…  ·  project /proj  ·  msg 1/2  ·  line 1/{total}  ·  q/Esc quit")]
    );
}

#[test]
fn status_line_prefers_query_then_flash() {
    let mut s = TranscriptState::new(from_events(vec![user("u1", "s", "hi", None)]));
    s.set_viewport(80, 10);
    s.set_flash("careful");
    let l = build_status(&s);
    assert_eq!(texts(&l), vec!["⚠ careful"]);
    assert_eq!(l.spans[0].style.fg, Color::Yellow);
    s.begin_search();
    s.push_search_char('h');
    let l = build_status(&s);
    assert_eq!(texts(&l), vec!["/", "h"]);
    assert!(l.spans[0].style.bold);
}

#[test]
fn visible_slice_starts_at_scroll_and_highlights_hits() {
    let t = from_events(vec![user("u1", "s", "alpha beta", None), user("u2", "s", "gamma", None)]);
    let mut s = TranscriptState::new(t);
    s.set_viewport(80, 3);
    let lines = slice_visible(&s, 3);
    assert_eq!(lines.len(), 3.min(s.lines().len()));
    s.begin_search();
    for c in "beta".chars() {
        s.push_search_char(c);
    }
    s.commit_search();
    let lines = slice_visible(&s, 100);
    assert!(lines.iter().any(|l| l.spans.iter().any(|sp| sp.content == "beta" && sp.style.bg == Color::Yellow)));
}

#[test]
fn empty_transcript_shows_a_placeholder() {
    let s = TranscriptState::new(from_events(Vec::new()));
    let lines = slice_visible(&s, 10);
    assert_eq!(lines.len(), 1);
    assert_eq!(texts(&lines[0]), vec!["(empty transcript)"]);
    assert!(lines[0].spans[0].style.dim);
}

#[test]
fn render_preconditions_are_checkable() {
    let mut s = TranscriptState::new(from_events(vec![user("u1", "s", "hello", None)]));
    s.set_viewport(80, 10);
    assert!(can_slice_visible(&s, 10));
    assert!(can_build_status(&s));
    let odd = TranscriptState::new(from_events(vec![user("u1", "12345678901é-long", "hi", None)]));
    assert!(!can_build_status(&odd));
}

#[test]
fn search_hits_in_multibyte_text_highlight_whole_characters() {
    let t = from_events(vec![user("u1", "s", "naïve café résumé", None)]);
    let mut s = TranscriptState::new(t);
    s.set_viewport(80, 10);
    s.begin_search();
    for c in "é".chars() {
        s.push_search_char(c);
    }
    s.commit_search();
    assert!(can_slice_visible(&s, 100));
    let lines = slice_visible(&s, 100);
    let hits: Vec<String> = lines
        .iter()
        .flat_map(|l| l.spans.iter())
        .filter(|sp| sp.style.bg == Color::Yellow)
        .map(|sp| sp.content.clone())
        .collect();
    assert_eq!(hits, vec!["é", "é", "é"]);
}
