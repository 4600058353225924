use std::cell::Cell;
use std::rc::Rc;

use ccs::keymap::KeyCode;
use ccs::metadata::{NullSource, PickerRowData, SessionMetadataSource};
use ccs::picker::{
    cwd_affinity, display_path, display_path_under, format_relative_mtime, handle_picker_key, PickerState,
};
use ccs::session::{SessionFile, SessionKind};

const SEC: u64 = 1_000_000_000;

fn session(id: &str, project: &str, mtime_offset_secs: u64, size: u64) -> SessionFile {
    SessionFile {
        session_id: id.into(),
        parent_session_id: None,
        kind: SessionKind::Primary,
        path: format!("/tmp/{id}.jsonl"),
        project_cwd: project.into(),
        modified: mtime_offset_secs * SEC,
        size,
    }
}

fn state(sessions: Vec<SessionFile>) -> PickerState<NullSource> {
    PickerState::new(sessions, NullSource, None)
}

fn order<S: SessionMetadataSource>(s: &PickerState<S>) -> Vec<String> {
    s.filtered().iter().map(|&i| s.rows()[i].session.session_id.clone()).collect()
}

#[test]
fn display_path_replaces_home_with_tilde() {
    let home = dirs::home_dir().expect("home dir available in test env");
    let home = home.to_str().unwrap().to_string();
    let under = format!("{home}/workspace/code-scrollback");
    assert_eq!(display_path(&under), "~/workspace/code-scrollback");
    assert_eq!(display_path(&home), "~");
    assert_eq!(display_path("/etc/hosts"), "/etc/hosts");
}

#[test]
fn display_path_under_a_given_home() {
    assert_eq!(display_path_under("/home/u/a/b", Some("/home/u")), "~/a/b");
    assert_eq!(display_path_under("/home/u", Some("/home/u")), "~");
    assert_eq!(display_path_under("/home/u/", Some("/home/u")), "~");
    assert_eq!(display_path_under("/home/user2", Some("/home/u")), "/home/user2");
    assert_eq!(display_path_under("/home/u/x", None), "/home/u/x");
}

#[test]
fn new_sorts_by_modified_desc() {
    let s = state(vec![session("old", "/a", 100, 0), session("new", "/b", 300, 0), session("mid", "/c", 200, 0)]);
    assert_eq!(order(&s), vec!["new", "mid", "old"]);
}

#[test]
fn cursor_navigation_respects_bounds() {
    let mut s = state(vec![session("a", "/a", 100, 0), session("b", "/b", 200, 0)]);
    assert_eq!(s.cursor(), 0);
    s.move_up();
    assert_eq!(s.cursor(), 0);
    s.move_down();
    assert_eq!(s.cursor(), 1);
    s.move_down();
    assert_eq!(s.cursor(), 1);
    s.jump_top();
    assert_eq!(s.cursor(), 0);
    s.jump_bottom();
    assert_eq!(s.cursor(), 1);
}

#[test]
fn search_narrows_to_matches_and_resets_cursor() {
    let mut s = state(vec![
        session("a", "/Users/alice/repo", 100, 0),
        session("b", "/Users/bob/work", 200, 0),
        session("c", "/Users/alice/notes", 300, 0),
    ]);
    s.move_down();
    s.move_down();
    assert_eq!(s.cursor(), 2);
    for ch in "alice".chars() {
        s.push_search_char(ch);
    }
    assert_eq!(s.cursor(), 0);
    let matched = order(&s);
    assert!(matched.contains(&"a".to_string()));
    assert!(matched.contains(&"c".to_string()));
    assert!(!matched.contains(&"b".to_string()));
}

#[test]
fn empty_search_restores_full_list() {
    let mut s = state(vec![session("a", "/alice", 100, 0), session("b", "/bob", 200, 0)]);
    s.push_search_char('a');
    s.push_search_char('l');
    s.push_search_char('i');
    assert_eq!(s.filtered().len(), 1);
    s.pop_search_char();
    s.pop_search_char();
    s.pop_search_char();
    assert_eq!(s.filtered().len(), 2);
}

#[test]
fn clear_search_resets_to_all_rows() {
    let mut s = state(vec![session("a", "/alice", 100, 0), session("b", "/bob", 200, 0)]);
    s.push_search_char('a');
    s.clear_search();
    assert_eq!(s.filtered().len(), 2);
    assert_eq!(s.search_query(), "");
}

#[test]
fn request_open_emits_session_once() {
    let mut s = state(vec![session("a", "/a", 100, 0)]);
    assert!(s.take_open_request().is_none());
    s.request_open();
    let first = s.take_open_request();
    assert!(first.is_some());
    assert_eq!(first.unwrap().session_id, "a");
    assert!(s.take_open_request().is_none());
}

#[test]
fn launch_cwd_ranks_closest_project_first() {
    let sessions = vec![
        session("unrelated-new", "/Users/alice/other-project", 500, 0),
        session("exact", "/Users/alice/workspace/repo/sub", 100, 0),
        session("ancestor", "/Users/alice/workspace/repo", 200, 0),
        session("sibling", "/Users/alice/workspace/other-repo", 300, 0),
        session("home-root", "/Users/alice", 400, 0),
    ];
    let s = PickerState::new(sessions, NullSource, Some("/Users/alice/workspace/repo/sub"));
    assert_eq!(order(&s), vec!["exact", "ancestor", "home-root", "sibling", "unrelated-new"]);
}

#[test]
fn launch_cwd_none_falls_back_to_mtime_sort() {
    let s = PickerState::new(
        vec![session("old", "/a", 100, 0), session("new", "/b", 300, 0), session("mid", "/c", 200, 0)],
        NullSource,
        None,
    );
    assert_eq!(order(&s), vec!["new", "mid", "old"]);
}

#[test]
fn launch_cwd_beats_lossy_decode_collision() {
    let sessions = vec![
        session("home-recent", "/Users/pyler", 10_000, 0),
        session("scrollback-old", "/Users/pyler/workspace/code/scrollback", 1_000, 0),
    ];
    let cwd = "/Users/pyler/workspace/code-scrollback/feat/tui-add-session-picker-screen";
    let s = PickerState::new(sessions, NullSource, Some(cwd));
    assert_eq!(order(&s), vec!["scrollback-old", "home-recent"]);
}

#[test]
fn cwd_affinity_scoring() {
    let cwd = "/Users/alice/workspace/repo/sub";
    assert!(cwd_affinity("/Users/alice/workspace/repo/sub", cwd) > cwd_affinity("/Users/alice/workspace/repo", cwd));
    assert!(cwd_affinity("/Users/alice/workspace", cwd) > cwd_affinity("/Users/alice/other", cwd));
    assert!(cwd_affinity("/Users/alice/other", cwd) > cwd_affinity("/Users/bob", cwd));
    assert!(cwd_affinity("/etc", cwd) >= 1);
}

#[test]
fn cwd_affinity_exact_values() {
    let cwd = "/Users/alice/workspace/repo/sub";
    assert_eq!(cwd_affinity("/Users/alice/workspace/repo/sub", cwd), 1006);
    assert_eq!(cwd_affinity("/Users/alice/workspace/repo", cwd), 1005);
    assert_eq!(cwd_affinity("/Users/alice/other", cwd), 3);
    assert_eq!(cwd_affinity("/etc", cwd), 1);
}

#[test]
fn empty_picker_does_not_panic_on_navigation() {
    let mut s = state(vec![]);
    s.move_up();
    s.move_down();
    s.request_open();
    assert!(s.take_open_request().is_none());
    assert!(s.is_empty());
}

struct CountingSource {
    calls: Rc<Cell<usize>>,
}

impl SessionMetadataSource for CountingSource {
    fn fetch(&self, _session: &SessionFile) -> PickerRowData {
        self.calls.set(self.calls.get() + 1);
        PickerRowData { first_prompt: Some("loaded".into()), ..Default::default() }
    }
}

#[test]
fn preview_loaded_once_per_row() {
    let calls = Rc::new(Cell::new(0));
    let source = CountingSource { calls: calls.clone() };
    let mut picker = PickerState::new(
        vec![session("a", "/a", 100, 0), session("b", "/b", 200, 0), session("c", "/c", 300, 0)],
        source,
        None,
    );
    picker.move_down();
    picker.move_down();
    picker.move_up();
    picker.move_up();
    picker.move_down();
    let idx = picker.filtered()[picker.cursor()];
    assert!(picker.rows()[idx].meta_loaded);
    assert_eq!(picker.rows()[idx].meta.first_prompt.as_deref(), Some("loaded"));
    assert_eq!(calls.get(), 3);
}

#[test]
fn loaded_preview_becomes_searchable() {
    let source = CountingSource { calls: Rc::new(Cell::new(0)) };
    let mut s = PickerState::new(vec![session("a", "/a", 100, 0), session("b", "/b", 200, 0)], source, None);
    for ch in "loaded".chars() {
        s.push_search_char(ch);
    }
    // Only the first row's preview was fetched so far.
    assert_eq!(order(&s), vec!["b"]);
}

#[test]
fn picker_keys_move_search_and_quit() {
    let mut s = state(vec![session("a", "/alpha", 100, 0), session("b", "/beta", 200, 0)]);
    let mut quit = false;
    handle_picker_key(&mut s, KeyCode::Char('j'), &mut quit);
    assert_eq!(s.cursor(), 1);
    handle_picker_key(&mut s, KeyCode::Char('g'), &mut quit);
    assert_eq!(s.cursor(), 0);
    handle_picker_key(&mut s, KeyCode::End, &mut quit);
    assert_eq!(s.cursor(), 1);
    handle_picker_key(&mut s, KeyCode::Char('/'), &mut quit);
    assert!(s.search_mode);
    handle_picker_key(&mut s, KeyCode::Char('q'), &mut quit);
    assert!(!quit, "q while searching is part of the query");
    assert_eq!(s.search_query(), "q");
    handle_picker_key(&mut s, KeyCode::Backspace, &mut quit);
    assert_eq!(s.search_query(), "");
    handle_picker_key(&mut s, KeyCode::Char('b'), &mut quit);
    handle_picker_key(&mut s, KeyCode::Enter, &mut quit);
    assert!(!s.search_mode);
    assert_eq!(s.search_query(), "b");
    handle_picker_key(&mut s, KeyCode::Esc, &mut quit);
    assert!(!quit, "Esc first clears the query");
    assert_eq!(s.search_query(), "");
    handle_picker_key(&mut s, KeyCode::Esc, &mut quit);
    assert!(quit);
}

#[test]
fn picker_q_quits_and_enter_opens() {
    let mut s = state(vec![session("a", "/a", 100, 0)]);
    let mut quit = false;
    handle_picker_key(&mut s, KeyCode::Enter, &mut quit);
    assert_eq!(s.take_open_request().unwrap().session_id, "a");
    handle_picker_key(&mut s, KeyCode::Char('q'), &mut quit);
    assert!(quit);
}

#[test]
fn esc_while_searching_drops_the_query() {
    let mut s = state(vec![session("a", "/alpha", 100, 0), session("b", "/beta", 200, 0)]);
    let mut quit = false;
    handle_picker_key(&mut s, KeyCode::Char('/'), &mut quit);
    handle_picker_key(&mut s, KeyCode::Char('z'), &mut quit);
    handle_picker_key(&mut s, KeyCode::Esc, &mut quit);
    assert!(!s.search_mode);
    assert_eq!(s.search_query(), "");
    assert_eq!(s.filtered().len(), 2);
    assert!(!quit);
}

#[test]
fn relative_mtime_buckets() {
    assert_eq!(format_relative_mtime(None), "future");
    assert_eq!(format_relative_mtime(Some(0)), "0s ago");
    assert_eq!(format_relative_mtime(Some(59)), "59s ago");
    assert_eq!(format_relative_mtime(Some(60)), "1m ago");
    assert_eq!(format_relative_mtime(Some(3599)), "59m ago");
    assert_eq!(format_relative_mtime(Some(3600)), "1h ago");
    assert_eq!(format_relative_mtime(Some(86_399)), "23h ago");
    assert_eq!(format_relative_mtime(Some(86_400)), "1d ago");
    assert_eq!(format_relative_mtime(Some(86_400 * 30 - 1)), "29d ago");
    assert_eq!(format_relative_mtime(Some(86_400 * 30)), "1mo ago");
    assert_eq!(format_relative_mtime(Some(86_400 * 95)), "3mo ago");
}

#[test]
fn counts_track_rows_and_filter() {
    let mut s = state(vec![session("a", "/alpha", 100, 0), session("b", "/beta", 200, 0)]);
    assert_eq!(s.total_len(), 2);
    assert_eq!(s.visible_len(), 2);
    s.push_search_char('z');
    s.push_search_char('z');
    s.push_search_char('z');
    assert_eq!(s.visible_len(), 0);
    assert_eq!(s.total_len(), 2);
    assert!(s.is_empty());
}

#[test]
fn picker_header_and_footer_text() {
    let mut s = state(vec![session("a", "/alpha", 100, 0), session("b", "/beta", 200, 0)]);
    assert_eq!(s.picker_title(), "session scrollback — 2 sessions");
    assert_eq!(s.picker_footer(), "j/k move  ·  / search  ·  ↵ open  ·  q quit");
    s.enter_search();
    s.push_search_char('a');
    s.push_search_char('l');
    assert_eq!(s.picker_title(), "session scrollback — 1/2 sessions · filter “al”");
    assert_eq!(s.picker_footer(), "/al  (Esc cancel · ↵ confirm)");
}

#[test]
fn new_fetches_only_the_first_rows_preview() {
    let calls = Rc::new(Cell::new(0));
    let source = CountingSource { calls: calls.clone() };
    let picker = PickerState::new(
        vec![session("a", "/a", 100, 0), session("b", "/b", 200, 0), session("c", "/c", 300, 0)],
        source,
        None,
    );
    assert_eq!(calls.get(), 1);
    let loaded: Vec<bool> = picker.rows().iter().map(|r| r.meta_loaded).collect();
    assert_eq!(loaded, vec![true, false, false]);
    let empty = PickerState::new(Vec::new(), CountingSource { calls: calls.clone() }, None);
    assert!(empty.is_empty());
    assert_eq!(calls.get(), 1);
}

#[test]
fn erasing_typed_characters_restores_query_order_and_cursor() {
    let mut s = state(vec![session("a", "/alice", 100, 0), session("b", "/bob", 200, 0), session("c", "/carol", 300, 0)]);
    let before = order(&s);
    s.move_down();
    for ch in "bo".chars() {
        s.push_search_char(ch);
    }
    s.pop_search_char();
    s.pop_search_char();
    assert_eq!(s.search_query(), "");
    assert_eq!(order(&s), before);
    assert_eq!(s.cursor(), 0);
}
