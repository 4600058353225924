use ccs::markdown::render_markdown;
use ccs::style::Color;

fn render(src: &str, width: usize) -> Vec<String> {
    render_markdown(src, width)
        .into_iter()
        .map(|l| l.spans.iter().map(|s| s.content.clone()).collect::<String>())
        .collect()
}

#[test]
fn plain_paragraph_passes_through() {
    let out = render("hello world", 80);
    assert!(out.iter().any(|l| l.contains("hello world")));
}

#[test]
fn bold_and_italic_retain_their_text() {
    let out = render("a **bold** c *italic* d", 80);
    let joined = out.join("\n");
    assert!(joined.contains("bold"));
    assert!(joined.contains("italic"));
}

#[test]
fn fenced_code_block_preserves_line_shape() {
    let src = "```\nlet x = 1;\nlet y = 2;\n```";
    let out = render(src, 80);
    assert!(out.iter().any(|l| l.contains("let x = 1;")));
    assert!(out.iter().any(|l| l.contains("let y = 2;")));
}

#[test]
fn bulleted_list_renders_with_bullets() {
    let out = render("- one\n- two\n- three", 80);
    let bullet_lines: Vec<_> = out.iter().filter(|l| l.contains("•")).collect();
    assert_eq!(bullet_lines.len(), 3);
}

#[test]
fn numbered_list_renders_with_ordinals() {
    let out = render("1. first\n2. second\n3. third", 80);
    assert!(out.iter().any(|l| l.contains("1.") && l.contains("first")));
    assert!(out.iter().any(|l| l.contains("2.") && l.contains("second")));
    assert!(out.iter().any(|l| l.contains("3.") && l.contains("third")));
}

#[test]
fn long_paragraph_wraps_at_width() {
    let src = "lorem ipsum dolor sit amet consectetur adipiscing elit sed do eiusmod tempor incididunt";
    let out = render(src, 30);
    assert!(out.len() >= 3, "expected multi-line wrap, got: {out:?}");
    for line in &out {
        if !line.is_empty() {
            assert!(line.chars().count() <= 32, "line exceeds wrap width: {line:?}");
        }
    }
}

#[test]
fn inline_code_is_preserved() {
    let out = render("use `Vec::new()` please", 80);
    assert!(out.iter().any(|l| l.contains("Vec::new()")));
}

#[test]
fn heading_renders_with_hashes() {
    let out = render("# Title\n\nbody", 80);
    assert!(out.iter().any(|l| l.contains("# Title")));
    assert!(out.iter().any(|l| l.contains("body")));
}

#[test]
fn unknown_width_falls_back_to_80() {
    let out = render_markdown("hello", 0);
    assert!(!out.is_empty());
}

#[test]
fn inline_code_is_yellow() {
    let lines = render_markdown("use `x` now", 80);
    assert!(lines
        .iter()
        .flat_map(|l| l.spans.iter())
        .any(|s| s.content.contains('x') && s.style.fg == Color::Yellow));
}

#[test]
fn bold_text_is_bold() {
    let lines = render_markdown("a **b** c", 80);
    assert!(lines.iter().flat_map(|l| l.spans.iter()).any(|s| s.content.contains('b') && s.style.bold));
}
