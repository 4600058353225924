use ccs::checkpoints::{apply_session_update, merge_marks, MarksFile};
use ccs::jsonl::{ContentBlock, Message, MessageContent, MessageEvent, SessionEvent, SystemEvent};
use ccs::keymap::{handle_key, Action, KeyCode, KeyEvent, KeyModifiers};
use ccs::layout::{CollapseAll, LineKind};
use ccs::state::TranscriptState;
use ccs::transcript::{from_events, Block};

fn key(code: KeyCode) -> KeyEvent {
    KeyEvent::new(code, KeyModifiers::none())
}

fn ctrl_key(code: KeyCode) -> KeyEvent {
    KeyEvent::new(code, KeyModifiers::control())
}

fn envelope(uuid: &str, role: &str, content: MessageContent) -> MessageEvent {
    MessageEvent {
        uuid: uuid.to_string(),
        parent_uuid: None,
        session_id: "s1".to_string(),
        timestamp: "t".to_string(),
        is_sidechain: false,
        cwd: None,
        git_branch: None,
        version: None,
        message: Message { role: Some(role.to_string()), content, extra: Vec::new() },
        extra: Vec::new(),
    }
}

fn user(uuid: &str, text: &str) -> SessionEvent {
    SessionEvent::User(envelope(uuid, "user", MessageContent::Text(text.to_string())))
}

fn assistant(uuid: &str, blocks: Vec<ContentBlock>) -> SessionEvent {
    SessionEvent::Assistant(envelope(uuid, "assistant", MessageContent::Blocks(blocks)))
}

fn text(t: &str) -> ContentBlock {
    ContentBlock::Text { text: t.to_string(), extra: Vec::new() }
}

fn stop(uuid: &str, reason: &str) -> SessionEvent {
    SessionEvent::System(SystemEvent {
        uuid: uuid.into(),
        session_id: "s1".into(),
        timestamp: "t".into(),
        parent_uuid: None,
        level: None,
        subtype: None,
        tool_use_id: None,
        stop_reason: Some(reason.into()),
        extra: Vec::new(),
    })
}

fn state_with_n_messages(n: usize) -> TranscriptState {
    let evs = (0..n).map(|i| user(&format!("u{i}"), &format!("msg-{i}"))).collect();
    let mut s = TranscriptState::new(from_events(evs));
    s.set_viewport(80, 10);
    s
}

fn state_with_tooling() -> TranscriptState {
    let evs = vec![
        user("u1", "q"),
        assistant(
            "a1",
            vec![
                ContentBlock::Thinking { thinking: Some("hm".into()), extra: Vec::new() },
                text("result"),
                ContentBlock::ToolUse { id: "t1".into(), name: "Read".into(), input: r#"{"path":"x"}"#.into(), extra: Vec::new() },
            ],
        ),
        user("u2", "next"),
    ];
    let mut s = TranscriptState::new(from_events(evs));
    s.set_viewport(80, 20);
    s
}

fn state_with_two_user_turns_and_a_stop() -> TranscriptState {
    let evs = vec![
        user("u1", "first"),
        assistant("a1", vec![text("answer 1")]),
        stop("sys1", "end_turn"),
        user("u2", "second"),
        assistant("a2", vec![text("answer 2")]),
    ];
    let mut s = TranscriptState::new(from_events(evs));
    s.set_viewport(80, 20);
    s
}

/// Write a viewer's staged marks into `file` the way saving does: merged
/// with what is already stored for the session.
fn save_into(s: &mut TranscriptState, file: &mut MarksFile) {
    if let Some(save) = s.take_marks_save() {
        let merged = merge_marks(file.session(&save.session_id), &save.marks);
        apply_session_update(file, &save.session_id, Some(merged));
    }
}

#[test]
fn q_quits_and_esc_returns_to_picker() {
    let mut s = state_with_n_messages(1);
    assert_eq!(handle_key(&mut s, key(KeyCode::Char('q'))), Action::Quit);
    assert_eq!(handle_key(&mut s, key(KeyCode::Esc)), Action::BackToPicker);
}

#[test]
fn j_and_k_move_cursor() {
    let mut s = state_with_n_messages(20);
    let start = s.cursor();
    handle_key(&mut s, key(KeyCode::Char('j')));
    assert_eq!(s.cursor(), start + 1);
    handle_key(&mut s, key(KeyCode::Char('k')));
    assert_eq!(s.cursor(), start);
}

#[test]
fn capital_g_jumps_to_last_line() {
    let mut s = state_with_n_messages(30);
    handle_key(&mut s, key(KeyCode::Char('G')));
    assert_eq!(s.cursor(), s.lines().len() - 1);
}

#[test]
fn gg_chord_jumps_to_top() {
    let mut s = state_with_n_messages(30);
    handle_key(&mut s, key(KeyCode::Char('G')));
    assert!(s.cursor() > 0);
    handle_key(&mut s, key(KeyCode::Char('g')));
    assert!(s.pending_g());
    handle_key(&mut s, key(KeyCode::Char('g')));
    assert_eq!(s.cursor(), 0);
    assert!(!s.pending_g());
}

#[test]
fn unrelated_key_clears_gg_chord() {
    let mut s = state_with_n_messages(30);
    handle_key(&mut s, key(KeyCode::Char('g')));
    assert!(s.pending_g());
    handle_key(&mut s, key(KeyCode::Char('j')));
    assert!(!s.pending_g());
}

#[test]
fn ctrl_d_and_ctrl_u_half_page_scroll() {
    let mut s = state_with_n_messages(100);
    let start = s.cursor();
    handle_key(&mut s, ctrl_key(KeyCode::Char('d')));
    assert!(s.cursor() > start);
    let down_pos = s.cursor();
    handle_key(&mut s, ctrl_key(KeyCode::Char('u')));
    assert!(s.cursor() < down_pos);
}

#[test]
fn cursor_clamps_at_bounds() {
    let mut s = state_with_n_messages(3);
    for _ in 0..50 {
        handle_key(&mut s, key(KeyCode::Char('j')));
    }
    assert_eq!(s.cursor(), s.lines().len() - 1);
    for _ in 0..50 {
        handle_key(&mut s, key(KeyCode::Char('k')));
    }
    assert_eq!(s.cursor(), 0);
}

#[test]
fn capital_t_cycles_collapse_all_and_sets_flash() {
    let mut s = state_with_tooling();
    handle_key(&mut s, key(KeyCode::Char('T')));
    assert_eq!(s.collapse_all(), CollapseAll::ToolsAndThinking);
    assert!(s.flash().is_some());
    let fold_count = s.lines().iter().filter(|l| l.kind == LineKind::Fold).count();
    assert!(fold_count >= 2, "expected tool+thinking folds, got {fold_count}");
    handle_key(&mut s, key(KeyCode::Char('T')));
    assert_eq!(s.collapse_all(), CollapseAll::Off);
    let fold_count = s.lines().iter().filter(|l| l.kind == LineKind::Fold).count();
    assert_eq!(fold_count, 0);
}

#[test]
fn t_on_text_block_sets_not_collapsible_flash() {
    let mut s = state_with_tooling();
    let mut found_text_body = false;
    for _ in 0..50 {
        if let Some(rl) = s.lines().get(s.cursor()) {
            if rl.kind == LineKind::Body {
                if let Some(bi) = rl.block_index {
                    let msg = &s.transcript().messages[rl.msg_index];
                    if matches!(msg.blocks[bi], Block::Text(_)) {
                        found_text_body = true;
                        break;
                    }
                }
            }
        }
        handle_key(&mut s, key(KeyCode::Char('j')));
    }
    assert!(found_text_body);
    handle_key(&mut s, key(KeyCode::Char('t')));
    assert_eq!(s.flash(), Some("not collapsible"));
}

#[test]
fn close_brace_and_open_brace_jump_between_user_turns() {
    let mut s = state_with_tooling();
    assert_eq!(s.cursor(), 0);
    handle_key(&mut s, key(KeyCode::Char('}')));
    let after_next = s.cursor();
    assert!(after_next > 0);
    let row = &s.lines()[after_next];
    assert_eq!(row.kind, LineKind::Header);
    assert_ne!(row.msg_index, 0);
    handle_key(&mut s, key(KeyCode::Char('{')));
    assert_eq!(s.cursor(), 0);
}

#[test]
fn open_brace_at_top_flashes_no_previous() {
    let mut s = state_with_tooling();
    handle_key(&mut s, key(KeyCode::Char('{')));
    assert_eq!(s.flash(), Some("no previous user turns"));
}

#[test]
fn close_brace_at_bottom_flashes_no_next() {
    let mut s = state_with_tooling();
    handle_key(&mut s, key(KeyCode::Char('G')));
    handle_key(&mut s, key(KeyCode::Char('}')));
    assert_eq!(s.flash(), Some("no more user turns"));
}

#[test]
fn flash_is_cleared_by_next_key() {
    let mut s = state_with_tooling();
    s.set_flash("probe");
    handle_key(&mut s, key(KeyCode::Char('j')));
    assert!(s.flash().is_none());
}

#[test]
fn m_letter_chord_sets_mark_and_quote_letter_jumps_back() {
    let mut s = state_with_n_messages(30);
    for _ in 0..5 {
        handle_key(&mut s, key(KeyCode::Char('j')));
    }
    let marked_cursor = s.cursor();
    handle_key(&mut s, key(KeyCode::Char('m')));
    assert!(s.pending_m());
    handle_key(&mut s, key(KeyCode::Char('a')));
    assert!(!s.pending_m());
    assert_eq!(s.flash(), Some("mark a set"));
    assert!(s.marks().contains_key(&'a'));
    handle_key(&mut s, key(KeyCode::Char('G')));
    assert_ne!(s.cursor(), marked_cursor);
    handle_key(&mut s, key(KeyCode::Char('\'')));
    assert!(s.pending_quote());
    handle_key(&mut s, key(KeyCode::Char('a')));
    assert!(!s.pending_quote());
    assert_eq!(s.cursor(), marked_cursor);
    assert_eq!(s.flash(), Some("'a"));
}

#[test]
fn quote_letter_with_no_mark_flashes() {
    let mut s = state_with_n_messages(10);
    handle_key(&mut s, key(KeyCode::Char('\'')));
    handle_key(&mut s, key(KeyCode::Char('z')));
    assert_eq!(s.flash(), Some("no mark z"));
}

#[test]
fn pending_m_consumes_the_next_key_even_if_it_is_a_normal_binding() {
    let mut s = state_with_n_messages(30);
    handle_key(&mut s, key(KeyCode::Char('j')));
    let after_j = s.cursor();
    handle_key(&mut s, key(KeyCode::Char('m')));
    handle_key(&mut s, key(KeyCode::Char('j')));
    assert_eq!(s.cursor(), after_j);
    assert!(s.marks().contains_key(&'j'));
}

#[test]
fn uppercase_mark_letter_is_rejected() {
    let mut s = state_with_n_messages(10);
    handle_key(&mut s, key(KeyCode::Char('m')));
    handle_key(&mut s, key(KeyCode::Char('A')));
    assert!(!s.marks().contains_key(&'A'));
    assert_eq!(s.flash(), Some("bad mark 'A'"));
}

#[test]
fn quote_with_invalid_letter_is_rejected() {
    let mut s = state_with_n_messages(10);
    handle_key(&mut s, key(KeyCode::Char('\'')));
    handle_key(&mut s, key(KeyCode::Char('A')));
    assert_eq!(s.flash(), Some("bad mark 'A'"));
    handle_key(&mut s, key(KeyCode::Char('\'')));
    handle_key(&mut s, key(KeyCode::Char('1')));
    assert_eq!(s.flash(), Some("bad mark '1'"));
}

#[test]
fn same_session_save_merges_with_concurrent_writes() {
    let mut file = MarksFile::new();
    let mut s1 = state_with_n_messages(20);
    s1.attach_marks_file("marks.json".to_string(), &file);
    let mut s2 = state_with_n_messages(20);
    s2.attach_marks_file("marks.json".to_string(), &file);

    handle_key(&mut s1, key(KeyCode::Char('j')));
    handle_key(&mut s1, key(KeyCode::Char('m')));
    handle_key(&mut s1, key(KeyCode::Char('a')));
    save_into(&mut s1, &mut file);

    handle_key(&mut s2, key(KeyCode::Char('j')));
    handle_key(&mut s2, key(KeyCode::Char('m')));
    handle_key(&mut s2, key(KeyCode::Char('b')));
    save_into(&mut s2, &mut file);

    let mut s3 = state_with_n_messages(20);
    s3.attach_marks_file("marks.json".to_string(), &file);
    assert!(s3.marks().contains_key(&'a'));
    assert!(s3.marks().contains_key(&'b'));
}

#[test]
fn c_toggles_the_sidebar() {
    let mut s = state_with_two_user_turns_and_a_stop();
    assert!(!s.show_sidebar());
    handle_key(&mut s, key(KeyCode::Char('c')));
    assert!(s.show_sidebar());
    handle_key(&mut s, key(KeyCode::Char('c')));
    assert!(!s.show_sidebar());
}

#[test]
fn close_bracket_advances_to_next_checkpoint() {
    let mut s = state_with_two_user_turns_and_a_stop();
    assert!(s.checkpoints().len() >= 3);
    assert_eq!(s.cursor(), 0);
    handle_key(&mut s, key(KeyCode::Char(']')));
    let after_one = s.cursor();
    assert!(after_one > 0);
    assert!(s.checkpoints().iter().any(|c| c.line == after_one));
    handle_key(&mut s, key(KeyCode::Char(']')));
    let after_two = s.cursor();
    assert!(after_two > after_one);
}

#[test]
fn open_bracket_steps_back_to_previous_checkpoint() {
    let mut s = state_with_two_user_turns_and_a_stop();
    handle_key(&mut s, key(KeyCode::Char('G')));
    let after_g = s.cursor();
    handle_key(&mut s, key(KeyCode::Char('[')));
    assert!(s.cursor() < after_g);
    assert!(s.checkpoints().iter().any(|c| c.line == s.cursor()));
    let first_back = s.cursor();
    handle_key(&mut s, key(KeyCode::Char('[')));
    assert!(s.cursor() < first_back);
}

#[test]
fn close_bracket_at_end_flashes_no_more_checkpoints() {
    let mut s = state_with_two_user_turns_and_a_stop();
    handle_key(&mut s, key(KeyCode::Char('G')));
    handle_key(&mut s, key(KeyCode::Char(']')));
    assert_eq!(s.flash(), Some("no more checkpoints"));
}

#[test]
fn open_bracket_at_top_flashes_no_previous_checkpoints() {
    let mut s = state_with_two_user_turns_and_a_stop();
    assert_eq!(s.cursor(), 0);
    handle_key(&mut s, key(KeyCode::Char('[')));
    assert_eq!(s.flash(), Some("no previous checkpoints"));
}

#[test]
fn active_checkpoint_index_follows_cursor() {
    let mut s = state_with_two_user_turns_and_a_stop();
    assert_eq!(s.active_checkpoint_index(), Some(0));
    handle_key(&mut s, key(KeyCode::Char(']')));
    assert_eq!(s.active_checkpoint_index(), Some(1));
}

#[test]
fn marks_persist_through_attach_marks_file() {
    let mut file = MarksFile::new();
    {
        let mut s = state_with_n_messages(20);
        s.attach_marks_file("marks.json".to_string(), &file);
        for _ in 0..4 {
            handle_key(&mut s, key(KeyCode::Char('j')));
        }
        handle_key(&mut s, key(KeyCode::Char('m')));
        handle_key(&mut s, key(KeyCode::Char('q')));
        assert!(s.marks().contains_key(&'q'));
        save_into(&mut s, &mut file);
    }
    let mut s2 = state_with_n_messages(20);
    assert!(s2.marks().is_empty());
    s2.attach_marks_file("marks.json".to_string(), &file);
    assert!(s2.marks().contains_key(&'q'));
}

#[test]
fn slash_search_commits_and_n_steps_through_matches() {
    let mut s = state_with_n_messages(5);
    handle_key(&mut s, key(KeyCode::Char('/')));
    assert!(s.search_mode().is_typing());
    for c in "msg".chars() {
        handle_key(&mut s, key(KeyCode::Char(c)));
    }
    assert_eq!(s.search_mode().query(), Some("msg"));
    handle_key(&mut s, key(KeyCode::Enter));
    assert!(s.search_mode().is_active());
    let first = s.cursor();
    handle_key(&mut s, key(KeyCode::Char('n')));
    assert!(s.cursor() > first);
    handle_key(&mut s, key(KeyCode::Char('N')));
    assert_eq!(s.cursor(), first);
}

#[test]
fn esc_while_typing_cancels_search() {
    let mut s = state_with_n_messages(5);
    handle_key(&mut s, key(KeyCode::Char('/')));
    handle_key(&mut s, key(KeyCode::Char('x')));
    handle_key(&mut s, key(KeyCode::Esc));
    assert!(!s.search_mode().is_typing());
    assert!(!s.search_mode().is_active());
}

#[test]
fn y_stages_a_yank_of_the_current_message() {
    let mut s = state_with_n_messages(3);
    handle_key(&mut s, key(KeyCode::Char('y')));
    let text = s.take_yank().expect("yank staged");
    assert!(text.starts_with("user"));
    assert!(text.contains("msg-0"));
}
