use ccs::keymap::{KeyCode, KeyEvent, KeyModifiers};
use ccs::metadata::NullSource;
use ccs::picker::PickerState;
use ccs::screen::{App, Screen};
use ccs::session::{SessionFile, SessionKind};
use ccs::jsonl::{Message, MessageContent, MessageEvent, SessionEvent};
use ccs::screen::{apply_tail_update, finish_reload};
use ccs::state::TranscriptState;
use ccs::tail::Update;
use ccs::transcript::from_events;

fn fake_session(id: &str) -> SessionFile {
    SessionFile {
        session_id: id.into(),
        parent_session_id: None,
        kind: SessionKind::Primary,
        path: format!("/definitely/does/not/exist/{id}.jsonl"),
        project_cwd: "/tmp".into(),
        modified: 100_000_000_000,
        size: 0,
    }
}

fn picker_with(sessions: Vec<SessionFile>) -> PickerState<NullSource> {
    PickerState::new(sessions, NullSource, None)
}

fn key(code: KeyCode) -> KeyEvent {
    KeyEvent::new(code, KeyModifiers::none())
}

#[test]
fn enter_moves_picker_state_into_viewer_saved_picker() {
    let mut picker = picker_with(vec![fake_session("a"), fake_session("b")]);
    picker.move_down();
    picker.request_open();
    let mut app = App::new(Screen::Picker(picker));
    app.process_screen_transitions();
    match app.screen() {
        Screen::Viewer(v) => assert!(v.saved_picker.is_some()),
        Screen::Picker(_) => panic!("transition did not fire"),
    }
}

#[test]
fn back_to_picker_restores_cursor_position() {
    let mut picker = picker_with(vec![fake_session("a"), fake_session("b"), fake_session("c")]);
    picker.move_down();
    picker.move_down();
    let cursor_before = picker.cursor();
    assert!(cursor_before > 0);
    picker.request_open();
    let mut app = App::new(Screen::Picker(picker));
    app.process_screen_transitions();
    assert!(matches!(app.screen(), Screen::Viewer(_)));
    app.return_to_picker();
    match app.screen() {
        Screen::Picker(p) => assert_eq!(p.cursor(), cursor_before),
        Screen::Viewer(_) => panic!("return_to_picker did not restore the picker"),
    }
    assert!(!app.should_quit());
}

#[test]
fn back_to_picker_preserves_search_query() {
    let mut picker = picker_with(vec![fake_session("alpha"), fake_session("beta"), fake_session("gamma")]);
    picker.enter_search();
    picker.push_search_char('a');
    picker.exit_search();
    let query_before = picker.search_query().to_string();
    assert_eq!(query_before, "a");
    picker.request_open();
    let mut app = App::new(Screen::Picker(picker));
    app.process_screen_transitions();
    app.return_to_picker();
    match app.screen() {
        Screen::Picker(p) => assert_eq!(p.search_query(), query_before),
        Screen::Viewer(_) => panic!("return_to_picker did not restore the picker"),
    }
}

#[test]
fn back_to_picker_from_cli_viewer_quits() {
    let mut app: App<NullSource> = App::new(Screen::viewer(false, None));
    app.return_to_picker();
    assert!(app.should_quit());
}

#[test]
fn opened_viewer_shows_the_selected_session() {
    let mut picker = picker_with(vec![fake_session("a"), fake_session("b")]);
    picker.move_down();
    picker.request_open();
    let selected = picker.rows()[picker.filtered()[picker.cursor()]].session.session_id.clone();
    let mut app = App::new(Screen::Picker(picker));
    app.process_screen_transitions();
    match app.screen() {
        Screen::Viewer(v) => {
            assert_eq!(v.session.as_ref().unwrap().session_id, selected);
            assert!(!v.live);
            assert!(v.state.is_none());
        }
        Screen::Picker(_) => panic!("transition did not fire"),
    }
}

#[test]
fn keys_drive_the_screens() {
    let picker = picker_with(vec![fake_session("a")]);
    let mut app = App::new(Screen::Picker(picker));
    app.handle_key(key(KeyCode::Enter));
    app.process_screen_transitions();
    assert!(matches!(app.screen(), Screen::Viewer(_)));
    // The viewer has no transcript loaded: Esc goes back, q quits.
    app.handle_key(key(KeyCode::Esc));
    assert!(matches!(app.screen(), Screen::Picker(_)));
    assert!(!app.should_quit());
    app.handle_key(key(KeyCode::Char('q')));
    assert!(app.should_quit());
}

#[test]
fn unloaded_viewer_ignores_other_keys() {
    let mut app: App<NullSource> = App::new(Screen::viewer(true, None));
    app.handle_key(key(KeyCode::Char('j')));
    assert!(!app.should_quit());
    assert!(matches!(app.screen(), Screen::Viewer(v) if v.live));
    app.handle_key(key(KeyCode::Char('q')));
    assert!(app.should_quit());
}

fn user_event(uuid: &str, text: &str) -> ccs::jsonl::SessionEvent {
    SessionEvent::User(MessageEvent {
        uuid: uuid.into(),
        parent_uuid: None,
        session_id: "s1".into(),
        timestamp: "t".into(),
        is_sidechain: false,
        cwd: None,
        git_branch: None,
        version: None,
        message: Message { role: Some("user".into()), content: MessageContent::Text(text.into()), extra: Vec::new() },
        extra: Vec::new(),
    })
}

#[test]
fn tail_update_appends_or_asks_for_reload() {

    let mut s = TranscriptState::new_live(from_events(vec![user_event("u1", "one")]));
    s.set_viewport(80, 20);
    let quiet = Update { new_events: Vec::new(), reset: false, errors_skipped: 0 };
    assert!(!apply_tail_update(&mut s, quiet));
    assert_eq!(s.transcript().messages.len(), 1);

    let more = Update { new_events: vec![user_event("u2", "two")], reset: false, errors_skipped: 2 };
    assert!(!apply_tail_update(&mut s, more));
    assert_eq!(s.transcript().messages.len(), 2);
    assert_eq!(s.flash(), Some("live-tail skipped 2 malformed line(s)"));

    let rewrite = Update { new_events: Vec::new(), reset: true, errors_skipped: 0 };
    assert!(apply_tail_update(&mut s, rewrite));
    finish_reload(&mut s, None);
    assert!(s.transcript().messages.is_empty());
    assert_eq!(s.flash(), Some("session compacted; reload failed"));
    finish_reload(&mut s, Some(from_events(vec![user_event("u9", "fresh")])));
    assert_eq!(s.transcript().messages.len(), 1);
}
