use ccs::transcript::{Block, Message, Role};
use ccs::yank::format_message;

fn msg(blocks: Vec<Block>) -> Message {
    Message {
        index: 0,
        role: Role::Assistant,
        uuid: "u1".to_string(),
        timestamp: "2026-04-12T00:00:00Z".to_string(),
        blocks,
        stop_reason: None,
    }
}

#[test]
fn text_block_is_pasted_verbatim() {
    let m = msg(vec![Block::Text("**bold** markdown".to_string())]);
    let s = format_message(&m);
    assert!(s.contains("**bold** markdown"));
    assert!(s.starts_with("assistant @ "));
}

#[test]
fn tool_call_includes_name_and_json() {
    let m = msg(vec![Block::ToolCall {
        id: "t1".to_string(),
        name: "Read".to_string(),
        input_json: "{\n  \"path\": \"x\"\n}".to_string(),
    }]);
    let s = format_message(&m);
    assert!(s.contains("[tool call: Read]"));
    assert!(s.contains("\"path\": \"x\""));
}

#[test]
fn tool_result_error_is_labeled() {
    let m = msg(vec![Block::ToolResult { tool_use_id: "t1".to_string(), content: "boom".to_string(), is_error: true }]);
    let s = format_message(&m);
    assert!(s.contains("[tool result — error]"));
    assert!(s.contains("boom"));
}

#[test]
fn blocks_are_joined_with_blank_line() {
    let m = msg(vec![Block::Thinking("hm".to_string()), Block::Text("answer".to_string())]);
    let s = format_message(&m);
    assert!(s.contains("[thinking]\nhm"));
    assert!(s.contains("\n\nanswer"));
}

#[test]
fn attachment_block_is_labeled() {
    let m = msg(vec![Block::Attachment("/path/to/file.png".to_string())]);
    let s = format_message(&m);
    assert!(s.contains("[attachment] /path/to/file.png"));
}

#[test]
fn unknown_block_renders_placeholder() {
    let m = msg(vec![Block::Unknown]);
    let s = format_message(&m);
    assert!(s.contains("[unknown block]"));
}

#[test]
fn system_role_is_prefixed_with_system() {
    let m = Message {
        index: 0,
        role: Role::System,
        uuid: "u1".to_string(),
        timestamp: "2026-04-12T00:00:00Z".to_string(),
        blocks: vec![Block::Text("boot".to_string())],
        stop_reason: None,
    };
    let s = format_message(&m);
    assert!(s.starts_with("system @ "));
    assert!(s.contains("boot"));
}

#[test]
fn empty_timestamp_omits_at_separator() {
    let m = Message {
        index: 0,
        role: Role::User,
        uuid: "u1".to_string(),
        timestamp: String::new(),
        blocks: vec![Block::Text("hi".to_string())],
        stop_reason: None,
    };
    let s = format_message(&m);
    let first_line = s.lines().next().unwrap();
    assert_eq!(first_line, "user");
    assert!(s.contains("hi"));
}

#[test]
fn whole_message_text_is_exact() {
    let m = msg(vec![
        Block::Text("a".to_string()),
        Block::ToolResult { tool_use_id: "t".to_string(), content: "ok".to_string(), is_error: false },
    ]);
    assert_eq!(format_message(&m), "assistant @ 2026-04-12T00:00:00Z\na\n\n[tool result]\nok");
}
