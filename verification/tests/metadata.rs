use ccs::jsonl::{ContentBlock, Message, MessageContent, MessageEvent, SessionEvent, SystemEvent};
use ccs::metadata::{
    first_prompt, single_line_of, truncate, NullSource, PickerRowData, SessionMetadataSource, PREVIEW_CHAR_LIMIT,
};
use ccs::session::{SessionFile, SessionKind};

fn make_session(path: &str) -> SessionFile {
    SessionFile {
        session_id: "s".into(),
        parent_session_id: None,
        kind: SessionKind::Primary,
        project_cwd: "/tmp".into(),
        modified: 0,
        size: 0,
        path: path.into(),
    }
}

fn user(content: MessageContent) -> SessionEvent {
    SessionEvent::User(MessageEvent {
        uuid: "u".into(),
        parent_uuid: None,
        session_id: "x".into(),
        timestamp: "t".into(),
        is_sidechain: false,
        cwd: None,
        git_branch: None,
        version: None,
        message: Message { role: Some("user".into()), content, extra: Vec::new() },
        extra: Vec::new(),
    })
}

fn system() -> SessionEvent {
    SessionEvent::System(SystemEvent {
        uuid: "s1".into(),
        session_id: "x".into(),
        timestamp: "t".into(),
        parent_uuid: None,
        level: None,
        subtype: None,
        tool_use_id: None,
        stop_reason: None,
        extra: Vec::new(),
    })
}

#[test]
fn null_source_returns_empty() {
    let data = NullSource.fetch(&make_session("/tmp/a.jsonl"));
    assert_eq!(data, PickerRowData::default());
}

#[test]
fn lazy_fs_source_extracts_first_user_prompt_from_string_content() {
    let evs = vec![
        system(),
        user(MessageContent::Text("hello world".into())),
        user(MessageContent::Text("second prompt".into())),
    ];
    assert_eq!(first_prompt(&evs).as_deref(), Some("hello world"));
}

#[test]
fn lazy_fs_source_skips_tool_result_users_finds_first_text_user() {
    let evs = vec![
        user(MessageContent::Blocks(vec![ContentBlock::ToolResult {
            tool_use_id: "tu1".into(),
            content: r#""ok""#.into(),
            is_error: false,
            extra: Vec::new(),
        }])),
        user(MessageContent::Text("the real prompt".into())),
    ];
    assert_eq!(first_prompt(&evs).as_deref(), Some("the real prompt"));
}

#[test]
fn lazy_fs_source_truncates_long_prompts() {
    let long: String = "x".repeat(500);
    let evs = vec![user(MessageContent::Text(long))];
    let preview = first_prompt(&evs).unwrap();
    assert_eq!(preview.chars().count(), PREVIEW_CHAR_LIMIT + 1);
    assert!(preview.ends_with('…'));
}

#[test]
fn lazy_fs_source_collapses_multiline_prompt_to_first_line() {
    let evs = vec![user(MessageContent::Text("line one\nline two".into()))];
    assert_eq!(first_prompt(&evs).as_deref(), Some("line one"));
}

#[test]
fn lazy_fs_source_returns_none_when_no_user_event_in_header() {
    let evs = vec![system(), SessionEvent::PermissionMode(r#"{"type":"permission-mode"}"#.into())];
    assert!(first_prompt(&evs).is_none());
}

#[test]
fn lazy_fs_source_skips_malformed_lines_and_continues() {
    // A malformed line never becomes an event; the next user event wins.
    let evs = vec![SessionEvent::Unknown, user(MessageContent::Text("survived".into()))];
    assert_eq!(first_prompt(&evs).as_deref(), Some("survived"));
}

#[test]
fn single_line_trims_the_first_line() {
    assert_eq!(single_line_of("  padded  \nnext"), "padded");
    assert_eq!(single_line_of(""), "");
}

#[test]
fn truncate_keeps_short_text_and_marks_cut_text() {
    assert_eq!(truncate("abc", 3), "abc");
    assert_eq!(truncate("abcd", 3), "abc…");
    assert_eq!(truncate("héllo", 2), "hé…");
}

#[test]
fn text_block_after_other_blocks_is_the_preview() {
    let evs = vec![user(MessageContent::Blocks(vec![
        ContentBlock::Unknown,
        ContentBlock::Text { text: "from blocks".into(), extra: Vec::new() },
    ]))];
    assert_eq!(first_prompt(&evs).as_deref(), Some("from blocks"));
}
