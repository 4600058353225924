use ccs::checkpoints::{Mark, MarksFile, SessionMarks};
use ccs::clipboard::CopyMethod;
use ccs::jsonl::{ContentBlock, Message, MessageContent, MessageEvent, SessionEvent};
use ccs::layout::LineKind;
use ccs::state::TranscriptState;
use ccs::transcript::{from_events, Transcript};

fn envelope(uuid: &str, role: &str, content: MessageContent) -> MessageEvent {
    MessageEvent {
        uuid: uuid.to_string(),
        parent_uuid: None,
        session_id: "s1".to_string(),
        timestamp: "t".to_string(),
        is_sidechain: false,
        cwd: None,
        git_branch: None,
        version: None,
        message: Message { role: Some(role.to_string()), content, extra: Vec::new() },
        extra: Vec::new(),
    }
}

fn user(uuid: &str, text: &str) -> SessionEvent {
    SessionEvent::User(envelope(uuid, "user", MessageContent::Text(text.to_string())))
}

fn assistant_thinking(uuid: &str, text: &str) -> SessionEvent {
    SessionEvent::Assistant(envelope(
        uuid,
        "assistant",
        MessageContent::Blocks(vec![ContentBlock::Thinking { thinking: Some(text.to_string()), extra: Vec::new() }]),
    ))
}

fn users(texts: &[&str]) -> Transcript {
    from_events(texts.iter().enumerate().map(|(i, t)| user(&format!("u{i}"), t)).collect())
}

#[test]
fn new_live_starts_in_follow_mode() {
    let mut s = TranscriptState::new_live(users(&["hi"]));
    s.set_viewport(80, 20);
    assert!(s.is_live());
    assert!(s.is_following());
}

#[test]
fn new_live_with_existing_backlog_lands_cursor_at_bottom() {
    let texts: Vec<String> = (0..10).map(|i| format!("msg-{i}")).collect();
    let refs: Vec<&str> = texts.iter().map(|s| s.as_str()).collect();
    let mut s = TranscriptState::new_live(users(&refs));
    s.set_viewport(80, 20);
    assert!(!s.lines().is_empty());
    assert_eq!(s.cursor(), s.lines().len() - 1);
}

#[test]
fn reset_transcript_clears_collapsed_and_marks() {
    let t = from_events(vec![assistant_thinking("a1", "hm")]);
    let mut s = TranscriptState::new_live(t);
    s.set_viewport(80, 20);
    for _ in 0..20 {
        if let Some(rl) = s.lines().get(s.cursor()) {
            if rl.block_index == Some(0) && rl.kind == LineKind::Body {
                break;
            }
        }
        s.move_down(1);
    }
    s.toggle_current_block();
    assert!(!s.collapsed().is_empty());
    s.set_mark('a');
    assert!(s.marks().contains_key(&'a'));

    s.reset_transcript(users(&["new"]));
    assert!(s.collapsed().is_empty());
    assert!(s.marks().is_empty());
}

#[test]
fn append_events_jumps_cursor_to_bottom_when_following() {
    let mut s = TranscriptState::new_live(users(&["one"]));
    s.set_viewport(80, 20);
    let initial_lines = s.lines().len();
    s.append_events(vec![user("u2", "two"), user("u3", "three")]);
    assert!(s.lines().len() > initial_lines);
    assert_eq!(s.cursor(), s.lines().len() - 1);
}

#[test]
fn manual_scroll_disables_follow_and_append_no_longer_jumps() {
    let mut s = TranscriptState::new_live(users(&["one", "two", "three"]));
    s.set_viewport(80, 20);
    s.jump_bottom();
    assert!(s.is_following());
    s.move_up(2);
    assert!(!s.is_following());
    let paused_cursor = s.cursor();
    s.append_events(vec![user("u4", "four")]);
    assert_eq!(s.cursor(), paused_cursor);
}

#[test]
fn capital_g_reengages_follow_in_live_mode() {
    let mut s = TranscriptState::new_live(users(&["one", "two"]));
    s.set_viewport(80, 20);
    s.move_up(5);
    assert!(!s.is_following());
    s.jump_bottom();
    assert!(s.is_following());
}

#[test]
fn toggle_follow_is_noop_outside_live_mode() {
    let mut s = TranscriptState::new(users(&["one"]));
    s.set_viewport(80, 20);
    assert!(!s.is_live());
    s.toggle_follow();
    assert!(!s.is_following());
}

#[test]
fn append_empty_slice_is_noop() {
    let mut s = TranscriptState::new_live(users(&["hi"]));
    s.set_viewport(80, 20);
    let before_cursor = s.cursor();
    let before_lines = s.lines().len();
    s.append_events(Vec::new());
    assert_eq!(s.cursor(), before_cursor);
    assert_eq!(s.lines().len(), before_lines);
}

#[test]
fn cursor_stays_inside_the_cache() {
    let mut s = TranscriptState::new(users(&["a", "b", "c"]));
    s.set_viewport(80, 5);
    s.move_down(1000);
    assert_eq!(s.cursor(), s.lines().len() - 1);
    assert!(s.scroll() <= s.cursor());
    assert!(s.cursor() < s.scroll() + 5);
    s.move_up(1000);
    assert_eq!(s.cursor(), 0);
    assert_eq!(s.scroll(), 0);
}

#[test]
fn marks_file_entry_for_this_session_is_attached() {
    let mut s = TranscriptState::new(users(&["a", "b"]));
    s.set_viewport(80, 20);
    let mut marks = SessionMarks::new();
    marks.insert('q', Mark { msg_index: 1, block_index: None });
    let mut file = MarksFile::new();
    file.set_session("s1", marks);
    s.attach_marks_file("/tmp/marks.json".to_string(), &file);
    assert!(s.marks().contains_key(&'q'));
    s.jump_to_mark('q');
    assert_eq!(s.lines()[s.cursor()].msg_index, 1);
    assert_eq!(s.flash(), Some("'q"));
}

#[test]
fn setting_a_mark_with_a_marks_file_stages_a_save() {
    let mut s = TranscriptState::new(users(&["a", "b"]));
    s.set_viewport(80, 20);
    s.attach_marks_file("/tmp/marks.json".to_string(), &MarksFile::new());
    s.set_mark('a');
    let save = s.take_marks_save().expect("save staged");
    assert_eq!(save.path, "/tmp/marks.json");
    assert_eq!(save.session_id, "s1");
    assert!(save.marks.contains_key(&'a'));
    assert!(s.take_marks_save().is_none());
}

#[test]
fn yank_stages_the_message_text_and_reports_the_outcome() {
    let mut s = TranscriptState::new(users(&["copy me"]));
    s.set_viewport(80, 20);
    s.request_yank();
    let text = s.take_yank().expect("yank staged");
    assert!(text.contains("copy me"));
    s.finish_yank(text.len(), Some(CopyMethod::Osc52));
    assert_eq!(s.flash(), Some(format!("yanked {} chars (osc52)", text.len()).as_str()));
    s.finish_yank(3, None);
    assert_eq!(s.flash(), Some("yank failed (see logs)"));
}

fn assistant_tool_call(uuid: &str, name: &str) -> SessionEvent {
    SessionEvent::Assistant(envelope(
        uuid,
        "assistant",
        MessageContent::Blocks(vec![
            ContentBlock::Text { text: "before".to_string(), extra: Vec::new() },
            ContentBlock::ToolUse { id: "t1".to_string(), name: name.to_string(), input: r#"{"a":1}"#.to_string(), extra: Vec::new() },
        ]),
    ))
}

#[test]
fn collapse_all_shows_each_tool_or_thinking_block_as_one_fold_line() {
    let t = from_events(vec![
        user("u1", "hi"),
        assistant_thinking("a1", "line one\nline two\nline three"),
        assistant_tool_call("a2", "Read"),
    ]);
    let mut s = TranscriptState::new(t);
    s.set_viewport(80, 40);
    s.toggle_collapse_all();
    let of = |mi: usize, bi: usize| -> Vec<LineKind> {
        s.lines().iter().filter(|l| l.msg_index == mi && l.block_index == Some(bi)).map(|l| l.kind).collect()
    };
    assert_eq!(of(1, 0), vec![LineKind::Fold]);
    assert_eq!(of(2, 1), vec![LineKind::Fold]);
    assert!(!of(2, 0).is_empty());
    assert!(of(2, 0).iter().all(|k| *k == LineKind::Body));
}

#[test]
fn next_then_previous_match_returns_to_the_same_match() {
    let mut s = TranscriptState::new(users(&["alpha", "beta alpha", "gamma alpha"]));
    s.set_viewport(80, 40);
    s.begin_search();
    for c in "alpha".chars() {
        s.push_search_char(c);
    }
    s.commit_search();
    let first = s.search_mode().current_match();
    let line = s.cursor();
    s.next_match();
    assert_ne!(s.search_mode().current_match(), first);
    s.prev_match();
    assert_eq!(s.search_mode().current_match(), first);
    assert_eq!(s.cursor(), line);
}

#[test]
fn collapse_all_twice_shows_no_fold_line() {
    let t = from_events(vec![user("u1", "hi"), assistant_thinking("a1", "deep\nthought"), assistant_tool_call("a2", "Read")]);
    let mut s = TranscriptState::new(t);
    s.set_viewport(80, 40);
    s.toggle_collapse_all();
    assert_eq!(s.flash(), Some("collapsed tools & thinking"));
    assert!(s.lines().iter().any(|l| l.kind == LineKind::Fold));
    s.toggle_collapse_all();
    assert_eq!(s.flash(), Some("expanded all"));
    assert!(s.lines().iter().all(|l| l.kind != LineKind::Fold));
}

#[test]
fn as_many_nexts_as_matches_come_back() {
    let mut s = TranscriptState::new(users(&["alpha", "beta alpha", "gamma alpha"]));
    s.set_viewport(80, 40);
    s.begin_search();
    for c in "alpha".chars() {
        s.push_search_char(c);
    }
    s.commit_search();
    let first = s.search_mode().current_match();
    let line = s.cursor();
    for _ in 0..3 {
        s.next_match();
    }
    assert_eq!(s.search_mode().current_match(), first);
    assert_eq!(s.cursor(), line);
}
