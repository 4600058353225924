use ccs::jsonl::{
    AttachmentEvent, ContentBlock, Message, MessageContent, MessageEvent, SessionEvent, SystemEvent,
};
use ccs::transcript::{from_events, Block, Role, Transcript};
use ccs::transcript::{transcript_from_lines, LoadError};

fn envelope(uuid: &str, sid: &str, cwd: Option<&str>, sidechain: bool, role: &str, content: MessageContent) -> MessageEvent {
    MessageEvent {
        uuid: uuid.to_string(),
        parent_uuid: None,
        session_id: sid.to_string(),
        timestamp: "t".to_string(),
        is_sidechain: sidechain,
        cwd: cwd.map(|c| c.to_string()),
        git_branch: None,
        version: None,
        message: Message { role: Some(role.to_string()), content, extra: Vec::new() },
        extra: Vec::new(),
    }
}

fn user_text(uuid: &str, sid: &str, text: &str) -> SessionEvent {
    SessionEvent::User(envelope(uuid, sid, None, false, "user", MessageContent::Text(text.to_string())))
}

fn user_blocks(uuid: &str, sid: &str, blocks: Vec<ContentBlock>) -> SessionEvent {
    SessionEvent::User(envelope(uuid, sid, None, false, "user", MessageContent::Blocks(blocks)))
}

fn assistant_blocks(uuid: &str, sid: &str, blocks: Vec<ContentBlock>) -> SessionEvent {
    SessionEvent::Assistant(envelope(uuid, sid, None, false, "assistant", MessageContent::Blocks(blocks)))
}

fn text(t: &str) -> ContentBlock {
    ContentBlock::Text { text: t.to_string(), extra: Vec::new() }
}

fn tool_result(id: &str, content_json: &str, is_error: bool) -> ContentBlock {
    ContentBlock::ToolResult {
        tool_use_id: id.to_string(),
        content: content_json.to_string(),
        is_error,
        extra: Vec::new(),
    }
}

fn system(uuid: &str, sid: &str, subtype: Option<&str>, level: Option<&str>, stop: Option<&str>) -> SessionEvent {
    SessionEvent::System(SystemEvent {
        uuid: uuid.to_string(),
        session_id: sid.to_string(),
        timestamp: "t".to_string(),
        parent_uuid: None,
        level: level.map(|s| s.to_string()),
        subtype: subtype.map(|s| s.to_string()),
        tool_use_id: None,
        stop_reason: stop.map(|s| s.to_string()),
        extra: Vec::new(),
    })
}

fn tool_result_content(t: &Transcript) -> &str {
    match &t.messages[0].blocks[0] {
        Block::ToolResult { content, .. } => content.as_str(),
        other => panic!("expected ToolResult, got {other:?}"),
    }
}

#[test]
fn empty_input_yields_empty_transcript() {
    let t = from_events(Vec::new());
    assert_eq!(t.session_id, "");
    assert!(t.project.is_none());
    assert!(t.messages.is_empty());
}

#[test]
fn user_string_content_becomes_text_block() {
    let ev = SessionEvent::User(envelope("u1", "s1", Some("/proj"), false, "user", MessageContent::Text("hello".into())));
    let t = from_events(vec![ev]);
    assert_eq!(t.session_id, "s1");
    assert_eq!(t.project.as_deref(), Some("/proj"));
    assert_eq!(t.messages.len(), 1);
    let m = &t.messages[0];
    assert_eq!(m.index, 0);
    assert_eq!(m.role, Role::User);
    assert!(matches!(m.blocks[0], Block::Text(ref s) if s == "hello"));
}

#[test]
fn assistant_mixed_blocks_preserve_order() {
    let ev = assistant_blocks(
        "a1",
        "s1",
        vec![
            ContentBlock::Thinking { thinking: Some("hm".into()), extra: Vec::new() },
            text("hi"),
            ContentBlock::ToolUse {
                id: "t1".into(),
                name: "Read".into(),
                input: r#"{"path":"x"}"#.into(),
                extra: Vec::new(),
            },
        ],
    );
    let t = from_events(vec![ev]);
    assert_eq!(t.messages.len(), 1);
    let m = &t.messages[0];
    assert_eq!(m.role, Role::Assistant);
    assert_eq!(m.blocks.len(), 3);
    assert!(matches!(m.blocks[0], Block::Thinking(ref s) if s == "hm"));
    assert!(matches!(m.blocks[1], Block::Text(ref s) if s == "hi"));
    match &m.blocks[2] {
        Block::ToolCall { id, name, input_json } => {
            assert_eq!(id, "t1");
            assert_eq!(name, "Read");
            assert!(input_json.contains("\"path\""));
            assert!(input_json.contains("\"x\""));
        }
        other => panic!("expected ToolCall, got {other:?}"),
    }
}

#[test]
fn tool_result_string_content_passes_through() {
    let t = from_events(vec![user_blocks("u1", "s1", vec![tool_result("tu1", r#""ok""#, false)])]);
    match &t.messages[0].blocks[0] {
        Block::ToolResult { tool_use_id, content, is_error } => {
            assert_eq!(tool_use_id, "tu1");
            assert_eq!(content, "ok");
            assert!(!*is_error);
        }
        other => panic!("expected ToolResult, got {other:?}"),
    }
}

#[test]
fn tool_result_array_of_text_blocks_is_concatenated() {
    let t = from_events(vec![user_blocks(
        "u1",
        "s1",
        vec![tool_result("tu1", r#"[{"type":"text","text":"line1"},{"type":"text","text":"line2"}]"#, false)],
    )]);
    assert_eq!(tool_result_content(&t), "line1\nline2");
}

#[test]
fn tool_result_array_non_text_block_falls_back_to_json() {
    let t = from_events(vec![user_blocks(
        "u1",
        "s1",
        vec![tool_result(
            "tu1",
            r#"[{"type":"text","text":"hello"},{"type":"image","text":"alt","source":{"data":"..."}}]"#,
            false,
        )],
    )]);
    let content = tool_result_content(&t);
    assert!(content.starts_with("hello\n"));
    assert!(content.contains("\"image\""));
    assert!(content.contains("\"source\""));
}

#[test]
fn tool_result_object_content_is_pretty_json() {
    let t = from_events(vec![user_blocks("u1", "s1", vec![tool_result("tu1", r#"{"ok":true,"n":3}"#, false)])]);
    let content = tool_result_content(&t);
    assert!(content.contains("\"ok\""));
    assert!(content.contains("true"));
    assert!(content.contains("\"n\""));
    // Pretty-printed: one field per line.
    assert!(content.contains('\n'));
}

#[test]
fn sidechain_messages_are_dropped() {
    let ev = SessionEvent::User(envelope("u1", "s1", None, true, "user", MessageContent::Text("sub".into())));
    let t = from_events(vec![ev]);
    assert!(t.messages.is_empty());
}

#[test]
fn telemetry_events_are_dropped_but_session_id_still_picks_up() {
    let evs = vec![
        SessionEvent::Progress(r#"{"type":"progress","phase":"running","pct":42}"#.into()),
        SessionEvent::QueueOperation(r#"{"type":"queue-operation","op":"push"}"#.into()),
        SessionEvent::FileHistorySnapshot(r#"{"type":"file-history-snapshot","messageId":"m"}"#.into()),
        user_text("u1", "s1", "hi"),
    ];
    let t = from_events(evs);
    assert_eq!(t.messages.len(), 1);
    assert_eq!(t.session_id, "s1");
}

#[test]
fn thinking_block_with_null_body_becomes_empty_string() {
    let t = from_events(vec![assistant_blocks(
        "a1",
        "s1",
        vec![ContentBlock::Thinking { thinking: None, extra: Vec::new() }],
    )]);
    assert!(matches!(&t.messages[0].blocks[0], Block::Thinking(s) if s.is_empty()));
}

#[test]
fn unknown_content_blocks_survive_as_unknown() {
    let t = from_events(vec![assistant_blocks("a1", "s1", vec![ContentBlock::Unknown])]);
    assert!(matches!(&t.messages[0].blocks[0], Block::Unknown));
}

#[test]
fn indices_are_sequential_across_kept_messages() {
    let evs = vec![
        user_text("u1", "s1", "a"),
        SessionEvent::Progress(r#"{"type":"progress","pct":1}"#.into()),
        assistant_blocks("a1", "s1", vec![text("b")]),
        SessionEvent::User(envelope("u2", "s1", None, true, "user", MessageContent::Text("skip".into()))),
        user_text("u3", "s1", "c"),
    ];
    let t = from_events(evs);
    let indices: Vec<usize> = t.messages.iter().map(|m| m.index).collect();
    assert_eq!(indices, vec![0, 1, 2]);
}

#[test]
fn sidechain_envelopes_still_contribute_metadata() {
    let evs = vec![
        SessionEvent::User(envelope("u1", "s-sidechain", Some("/proj"), true, "user", MessageContent::Text("sub".into()))),
        assistant_blocks("a1", "s-sidechain", vec![text("hi")]),
    ];
    let t = from_events(evs);
    assert_eq!(t.session_id, "s-sidechain");
    assert_eq!(t.project.as_deref(), Some("/proj"));
    assert_eq!(t.messages.len(), 1);
    assert_eq!(t.messages[0].role, Role::Assistant);
}

#[test]
fn system_first_uses_session_id_not_message_uuid() {
    let evs = vec![
        system("sys-uuid-1", "s-real", Some("tool_error"), Some("warn"), None),
        user_text("u1", "s-real", "hi"),
    ];
    let t = from_events(evs);
    assert_eq!(t.session_id, "s-real");
    assert_ne!(t.session_id, "sys-uuid-1");
}

#[test]
fn empty_user_text_produces_no_message() {
    let t = from_events(vec![user_text("u1", "s1", "")]);
    assert!(t.messages.is_empty());
}

#[test]
fn system_event_becomes_system_message_with_its_parts() {
    let t = from_events(vec![system("sys1", "s1", Some("compact"), Some("info"), Some("end_turn"))]);
    assert_eq!(t.messages.len(), 1);
    let m = &t.messages[0];
    assert_eq!(m.role, Role::System);
    assert_eq!(m.stop_reason.as_deref(), Some("end_turn"));
    assert!(matches!(m.blocks[0], Block::Text(ref s) if s == "compact [info] stop_reason=end_turn"));
}

#[test]
fn system_event_without_parts_adds_no_message() {
    let t = from_events(vec![system("sys1", "s1", None, None, None)]);
    assert!(t.messages.is_empty());
    assert_eq!(t.session_id, "s1");
}

#[test]
fn attachment_event_becomes_user_attachment_block() {
    let ev = SessionEvent::Attachment(AttachmentEvent {
        uuid: "at1".into(),
        session_id: "s1".into(),
        timestamp: "t".into(),
        parent_uuid: None,
        attachment: r#"{"type":"file","filename":"notes.md"}"#.into(),
        extra: Vec::new(),
    });
    let t = from_events(vec![ev]);
    assert_eq!(t.messages.len(), 1);
    assert_eq!(t.messages[0].role, Role::User);
    assert!(matches!(t.messages[0].blocks[0], Block::Attachment(_)));
}

#[test]
fn appending_in_two_batches_matches_loading_at_once() {
    let all = || {
        vec![
            user_text("u1", "s1", "a"),
            assistant_blocks("a1", "s1", vec![text("b")]),
            user_text("u2", "s1", "c"),
        ]
    };
    let once = from_events(all());
    let mut evs = all();
    let tail = evs.split_off(1);
    let mut twice = from_events(evs);
    twice.append_events(tail);
    assert_eq!(once.messages.len(), twice.messages.len());
    for (a, b) in once.messages.iter().zip(twice.messages.iter()) {
        assert_eq!(a.index, b.index);
        assert_eq!(a.uuid, b.uuid);
        assert_eq!(a.role, b.role);
    }
}

#[test]
fn tool_result_error_flag_is_kept() {
    let t = from_events(vec![user_blocks("u1", "s1", vec![tool_result("tu9", r#""boom""#, true)])]);
    match &t.messages[0].blocks[0] {
        Block::ToolResult { is_error, content, .. } => {
            assert!(*is_error);
            assert_eq!(content, "boom");
        }
        other => panic!("expected ToolResult, got {other:?}"),
    }
}

#[test]
fn load_from_path_fully_corrupt_file_errors() {
    // Two non-blank lines, neither of which parsed.
    assert_eq!(transcript_from_lines(2, Vec::new()).err(), Some(LoadError::NoValidEvents));
}

#[test]
fn load_from_path_empty_file_is_ok() {
    let t = transcript_from_lines(0, Vec::new()).unwrap();
    assert!(t.messages.is_empty());
}

#[test]
fn load_from_path_reads_jsonl_and_skips_malformed() {
    let evs = vec![
        SessionEvent::User(envelope("u1", "s1", Some("/proj"), false, "user", MessageContent::Text("hi".into()))),
        assistant_blocks("a1", "s1", vec![text("ok")]),
    ];
    // Three non-blank lines, one of them malformed.
    let t = transcript_from_lines(3, evs).unwrap();
    assert_eq!(t.session_id, "s1");
    assert_eq!(t.project.as_deref(), Some("/proj"));
    assert_eq!(t.messages.len(), 2);
    assert_eq!(t.messages[0].role, Role::User);
    assert_eq!(t.messages[1].role, Role::Assistant);
}
