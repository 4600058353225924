use ccs::jsonl::{AttachmentEvent, ContentBlock, Message, MessageContent, MessageEvent, SessionEvent, SystemEvent};
use ccs::layout::{build, CheckpointKind, CollapseAll, CollapseContext, LayoutOutput, LineKind};
use ccs::transcript::{from_events, Transcript};

fn envelope(uuid: &str, role: &str, content: MessageContent) -> MessageEvent {
    MessageEvent {
        uuid: uuid.to_string(),
        parent_uuid: None,
        session_id: "s1".to_string(),
        timestamp: "t".to_string(),
        is_sidechain: false,
        cwd: None,
        git_branch: None,
        version: None,
        message: Message { role: Some(role.to_string()), content, extra: Vec::new() },
        extra: Vec::new(),
    }
}

fn user(uuid: &str, text: &str) -> SessionEvent {
    SessionEvent::User(envelope(uuid, "user", MessageContent::Text(text.to_string())))
}

fn user_blocks(uuid: &str, blocks: Vec<ContentBlock>) -> SessionEvent {
    SessionEvent::User(envelope(uuid, "user", MessageContent::Blocks(blocks)))
}

fn assistant(uuid: &str, blocks: Vec<ContentBlock>) -> SessionEvent {
    SessionEvent::Assistant(envelope(uuid, "assistant", MessageContent::Blocks(blocks)))
}

fn text(t: &str) -> ContentBlock {
    ContentBlock::Text { text: t.to_string(), extra: Vec::new() }
}

fn thinking(t: &str) -> ContentBlock {
    ContentBlock::Thinking { thinking: Some(t.to_string()), extra: Vec::new() }
}

fn tool_use(id: &str, name: &str, input: &str) -> ContentBlock {
    ContentBlock::ToolUse { id: id.into(), name: name.into(), input: input.into(), extra: Vec::new() }
}

fn stop(uuid: &str, reason: &str) -> SessionEvent {
    SessionEvent::System(SystemEvent {
        uuid: uuid.into(),
        session_id: "s1".into(),
        timestamp: "t".into(),
        parent_uuid: None,
        level: None,
        subtype: None,
        tool_use_id: None,
        stop_reason: Some(reason.into()),
        extra: Vec::new(),
    })
}

fn build_default(t: &Transcript, width: u16) -> LayoutOutput {
    let collapsed: Vec<(usize, usize)> = Vec::new();
    let ctx = CollapseContext { collapsed: &collapsed, collapse_all: CollapseAll::Off };
    build(t, width, &ctx)
}

fn span_texts(out: &LayoutOutput) -> Vec<String> {
    out.lines.iter().flat_map(|l| l.line.spans.iter().map(|s| s.content.clone())).collect()
}

#[test]
fn empty_transcript_produces_no_lines() {
    let t = Transcript::new();
    assert!(build_default(&t, 80).lines.is_empty());
}

#[test]
fn single_message_has_header_and_body_no_leading_separator() {
    let t = from_events(vec![user("u1", "hi")]);
    let out = build_default(&t, 80);
    assert_eq!(out.lines[0].kind, LineKind::Header);
    assert!(out.lines.iter().skip(1).any(|l| l.kind == LineKind::Body));
}

#[test]
fn two_messages_have_a_separator_between() {
    let t = from_events(vec![user("u1", "hi"), assistant("a1", vec![text("hello")])]);
    let out = build_default(&t, 80);
    let sep_count = out.lines.iter().filter(|l| l.kind == LineKind::Separator).count();
    assert_eq!(sep_count, 1);
}

#[test]
fn user_turn_line_starts_index_the_user_headers() {
    let t = from_events(vec![user("u1", "first"), assistant("a1", vec![text("hi")]), user("u2", "second")]);
    let out = build_default(&t, 80);
    assert_eq!(out.user_turn_line_starts.len(), 2);
    for &i in &out.user_turn_line_starts {
        assert_eq!(out.lines[i].kind, LineKind::Header);
        assert_eq!(out.lines[i].msg_index % 2, 0);
    }
}

#[test]
fn wraps_long_text_at_width() {
    let long = "x".repeat(90);
    let t = from_events(vec![user("u1", &long)]);
    let out = build_default(&t, 40);
    let body_count = out.lines.iter().filter(|l| l.kind == LineKind::Body).count();
    assert!(body_count >= 3);
}

#[test]
fn unknown_viewport_falls_back_to_80() {
    let t = from_events(vec![user("u1", "hello world")]);
    let out = build_default(&t, 0);
    assert!(out.lines.iter().any(|l| l.kind == LineKind::Body));
}

#[test]
fn attachment_wraps_long_paths() {
    let long_path = format!("/very/long/{}", "x".repeat(200));
    let ev = SessionEvent::Attachment(AttachmentEvent {
        uuid: "a1".into(),
        session_id: "s1".into(),
        timestamp: "t".into(),
        parent_uuid: None,
        attachment: format!(r#"{{"type":"file","path":"{long_path}"}}"#),
        extra: Vec::new(),
    });
    let t = from_events(vec![ev]);
    let out = build_default(&t, 40);
    let body_count = out.lines.iter().filter(|l| l.kind == LineKind::Body).count();
    assert!(body_count >= 4);
}

#[test]
fn collapse_all_replaces_tools_and_thinking_with_fold_lines() {
    let t = from_events(vec![assistant(
        "a1",
        vec![thinking("long\nreasoning\nblock"), text("hi"), tool_use("t1", "Read", r#"{"path":"x"}"#)],
    )]);
    let collapsed: Vec<(usize, usize)> = Vec::new();
    let ctx = CollapseContext { collapsed: &collapsed, collapse_all: CollapseAll::ToolsAndThinking };
    let out = build(&t, 80, &ctx);
    let fold_count = out.lines.iter().filter(|l| l.kind == LineKind::Fold).count();
    assert_eq!(fold_count, 2);
    assert!(out.lines.iter().any(|l| l.kind == LineKind::Body));
}

#[test]
fn individual_collapse_via_set_replaces_single_block() {
    let t = from_events(vec![assistant("a1", vec![thinking("one"), text("two")])]);
    let collapsed: Vec<(usize, usize)> = vec![(0, 0)];
    let ctx = CollapseContext { collapsed: &collapsed, collapse_all: CollapseAll::Off };
    let out = build(&t, 80, &ctx);
    let fold_count = out.lines.iter().filter(|l| l.kind == LineKind::Fold).count();
    assert_eq!(fold_count, 1);
    assert_eq!(out.lines.iter().find(|l| l.kind == LineKind::Fold).unwrap().block_index, Some(0));
}

#[test]
fn markdown_bold_in_text_block_retains_text() {
    let t = from_events(vec![assistant("a1", vec![text("a **bold** word")])]);
    let out = build_default(&t, 80);
    let joined = span_texts(&out).join(" ");
    assert!(joined.contains("bold"));
    assert!(joined.contains("word"));
}

#[test]
fn tool_call_and_result_render_with_prefix_glyphs() {
    let t = from_events(vec![
        assistant("a1", vec![tool_use("t1", "Read", r#"{"path":"x"}"#)]),
        user_blocks(
            "u2",
            vec![ContentBlock::ToolResult {
                tool_use_id: "t1".into(),
                content: r#""contents""#.into(),
                is_error: false,
                extra: Vec::new(),
            }],
        ),
    ]);
    let out = build_default(&t, 80);
    let joined = span_texts(&out).join("|");
    assert!(joined.contains("→ Read"));
    assert!(joined.contains("← tool_result"));
}

#[test]
fn checkpoints_emit_one_user_turn_per_user_message() {
    let t = from_events(vec![user("u1", "first"), assistant("a1", vec![text("hi")]), user("u2", "second")]);
    let out = build_default(&t, 80);
    let user_turns: Vec<_> =
        out.checkpoints.iter().filter(|c| matches!(c.kind, CheckpointKind::UserTurn)).collect();
    assert_eq!(user_turns.len(), 2);
    assert_eq!(user_turns[0].preview, "first");
    assert_eq!(user_turns[1].preview, "second");
    for cp in &out.checkpoints {
        assert_eq!(out.lines[cp.line].kind, LineKind::Header);
    }
}

#[test]
fn stop_reason_system_event_emits_stop_checkpoint() {
    let t = from_events(vec![user("u1", "ask"), assistant("a1", vec![text("answer")]), stop("sys1", "end_turn")]);
    let out = build_default(&t, 80);
    let stops: Vec<_> = out
        .checkpoints
        .iter()
        .filter_map(|c| match &c.kind {
            CheckpointKind::Stop(r) => Some((c.line, r.clone(), c.preview.clone())),
            _ => None,
        })
        .collect();
    assert_eq!(stops.len(), 1);
    assert_eq!(stops[0].1, "end_turn");
    assert_eq!(stops[0].2, "end_turn");
    assert_eq!(out.lines[stops[0].0].kind, LineKind::Header);
}

#[test]
fn user_turn_preview_uses_only_first_line() {
    let t = from_events(vec![user("u1", "first line\nsecond line\nthird")]);
    let out = build_default(&t, 80);
    assert_eq!(out.checkpoints[0].preview, "first line");
}

#[test]
fn checkpoints_are_sorted_by_line_so_prev_next_jumps_are_monotonic() {
    let t = from_events(vec![
        user("u1", "q1"),
        assistant("a1", vec![text("a1")]),
        stop("sys1", "end_turn"),
        user("u2", "q2"),
    ]);
    let out = build_default(&t, 80);
    assert!(out.checkpoints.windows(2).all(|w| w[0].line < w[1].line));
}

#[test]
fn body_and_fold_lines_carry_block_index() {
    let t = from_events(vec![assistant("a1", vec![text("a"), text("b")])]);
    let out = build_default(&t, 80);
    let body_indices: Vec<_> =
        out.lines.iter().filter(|l| l.kind == LineKind::Body).filter_map(|l| l.block_index).collect();
    assert!(body_indices.contains(&0));
    assert!(body_indices.contains(&1));
}

#[test]
fn long_user_preview_is_cut_to_forty_eight_chars() {
    let long = "y".repeat(100);
    let t = from_events(vec![user("u1", &long)]);
    let out = build_default(&t, 80);
    let p = &out.checkpoints[0].preview;
    assert!(p.chars().count() <= 48);
    assert!(p.starts_with("yyy"));
}
