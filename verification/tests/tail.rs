use ccs::tail::{LiveTail, TailReader, Update};

const U1: &str = r#"{"type":"user","uuid":"u1","sessionId":"s","timestamp":"t","message":{"role":"user","content":"one"}}"#;
const U2: &str = r#"{"type":"user","uuid":"u2","sessionId":"s","timestamp":"t","message":{"role":"user","content":"two"}}"#;
const U3: &str = r#"{"type":"user","uuid":"u3","sessionId":"s","timestamp":"t","message":{"role":"user","content":"three"}}"#;

/// One poll of a reader over a file whose whole content is `file`: what
/// the program does around `begin_poll` / `finish_poll`, with the file
/// held in memory.
fn poll(r: &mut TailReader, file: &str) -> (Vec<String>, bool) {
    let start = r.begin_poll(file.len() as u64);
    let lines = match start.read_from {
        None => Vec::new(),
        Some(from) => {
            let chunk = &file[from as usize..];
            r.finish_poll(chunk, chunk.len() as u64)
        }
    };
    (lines, start.reset)
}

#[test]
fn reads_existing_lines_on_first_poll() {
    let file = format!("{U1}\n{U2}\n");
    let mut r = TailReader::open("session.jsonl");
    let (lines, reset) = poll(&mut r, &file);
    assert_eq!(lines.len(), 2);
    assert!(!reset);
}

#[test]
fn appended_lines_picked_up_on_next_poll() {
    let mut file = format!("{U1}\n");
    let mut r = TailReader::open("session.jsonl");
    assert_eq!(poll(&mut r, &file).0.len(), 1);
    file.push_str(&format!("{U2}\n{U3}\n"));
    let (lines, _) = poll(&mut r, &file);
    assert_eq!(lines, vec![U2.to_string(), U3.to_string()]);
}

#[test]
fn partial_trailing_line_is_buffered_until_newline() {
    let half = &U2[..U2.len() / 2];
    let mut file = format!("{U1}\n{half}");
    let mut r = TailReader::open("session.jsonl");
    let (lines, _) = poll(&mut r, &file);
    assert_eq!(lines.len(), 1);
    assert!(!r.pending().is_empty());
    file.push_str(&format!("{}\n{U3}\n", &U2[U2.len() / 2..]));
    let (lines, _) = poll(&mut r, &file);
    assert_eq!(lines, vec![U2.to_string(), U3.to_string()]);
    assert!(r.pending().is_empty());
}

#[test]
fn rewrite_smaller_than_offset_triggers_reset() {
    let file = format!("{U1}\n{U2}\n{U3}\n");
    let mut r = TailReader::open("session.jsonl");
    let _ = poll(&mut r, &file);
    let rewritten = format!("{U1}\n");
    let (lines, reset) = poll(&mut r, &rewritten);
    assert!(reset);
    assert_eq!(lines.len(), 1);
    assert_eq!(r.offset(), (U1.len() + 1) as u64);
}

#[test]
fn malformed_line_yields_error_without_halting_stream() {
    // Every complete line is handed on, the malformed one included; it is
    // the decoding step that counts it as an error.
    let file = format!("{U1}\nnot json\n{U2}\n");
    let mut r = TailReader::open("session.jsonl");
    let (lines, _) = poll(&mut r, &file);
    assert_eq!(lines, vec![U1.to_string(), "not json".to_string(), U2.to_string()]);
}

#[test]
fn missing_file_poll_is_noop() {
    // A missing file reads as an empty one.
    let mut r = TailReader::open("/tmp/definitely-not-there-xyz-999.jsonl");
    let (lines, reset) = poll(&mut r, "");
    assert!(lines.is_empty());
    assert!(!reset);
}

#[test]
fn blank_and_crlf_lines_are_cleaned() {
    let file = format!("{U1}\r\n\n   \n{U2}\n");
    let mut r = TailReader::open("session.jsonl");
    let (lines, _) = poll(&mut r, &file);
    assert_eq!(lines, vec![U1.to_string(), U2.to_string()]);
}

#[test]
fn cutting_the_input_anywhere_gives_the_same_lines() {
    let file = format!("{U1}\n{U2}\n{U3}\n");
    let mut whole = TailReader::open("a");
    let (all_at_once, _) = poll(&mut whole, &file);
    for cut in [1usize, 10, U1.len(), U1.len() + 1, U1.len() + 5] {
        let mut r = TailReader::open("a");
        let (mut lines, _) = poll(&mut r, &file[..cut]);
        let (more, _) = poll(&mut r, &file);
        lines.extend(more);
        assert_eq!(lines, all_at_once, "cut at {cut}");
    }
}

#[test]
fn open_at_skips_what_was_already_loaded() {
    let file = format!("{U1}\n{U2}\n");
    let mut r = TailReader::open_at("session.jsonl", (U1.len() + 1) as u64);
    let (lines, _) = poll(&mut r, &file);
    assert_eq!(lines, vec![U2.to_string()]);
    assert_eq!(r.path(), "session.jsonl");
}

#[test]
fn poll_returns_new_events_after_append() {
    let mut file = format!("{U1}\n");
    let mut tail = LiveTail::new("s.jsonl");
    let (first, reset) = poll(tail.reader_mut(), &file);
    assert_eq!(first.len(), 1);
    assert!(!reset);
    file.push_str(&format!("{U2}\n"));
    let (second, reset) = poll(tail.reader_mut(), &file);
    assert_eq!(second.len(), 1);
    assert!(!reset);
    let (idle, reset) = poll(tail.reader_mut(), &file);
    assert!(idle.is_empty() && !reset);
    let update = Update { new_events: Vec::new(), reset, errors_skipped: 0 };
    assert!(update.is_empty());
}

#[test]
fn poll_reports_reset_on_rewrite() {
    let file = format!("{U1}\n{U2}\n");
    let mut tail = LiveTail::new_at("s.jsonl", 0);
    assert_eq!(tail.path(), "s.jsonl");
    let _ = poll(tail.reader_mut(), &file);
    let rewritten = format!("{U1}\n");
    let (after, reset) = poll(tail.reader_mut(), &rewritten);
    assert!(reset);
    assert_eq!(after.len(), 1);
}

#[test]
fn begin_and_finish_poll_keep_a_partial_line_across_polls() {
    let mut r = TailReader::open("session.jsonl");
    let start = r.begin_poll(9);
    assert!(!start.reset);
    assert_eq!(start.read_from, Some(0));
    assert_eq!(r.finish_poll("one\ntw", 6), vec!["one".to_string()]);
    assert_eq!(r.offset(), 6);
    assert_eq!(r.pending(), "tw");
    let start = r.begin_poll(6);
    assert_eq!(start.read_from, None);
    let start = r.begin_poll(13);
    assert!(!start.reset);
    assert_eq!(start.read_from, Some(6));
    assert_eq!(r.finish_poll("o\r\n\nthr", 7), vec!["two".to_string()]);
    assert_eq!(r.pending(), "thr");
    assert_eq!(r.finish_poll("ee\n", 3), vec!["three".to_string()]);
    assert_eq!(r.pending(), "");
    assert_eq!(r.offset(), 16);
}

#[test]
fn begin_poll_resets_after_the_file_shrinks() {
    let mut r = TailReader::open("session.jsonl");
    let _ = r.begin_poll(10);
    let _ = r.finish_poll("abc\ndefgh", 9);
    assert_eq!(r.pending(), "defgh");
    let start = r.begin_poll(4);
    assert!(start.reset);
    assert_eq!(start.read_from, Some(0));
    assert_eq!(r.offset(), 0);
    assert_eq!(r.pending(), "");
    assert_eq!(r.finish_poll("xyz\n", 4), vec!["xyz".to_string()]);
    assert_eq!(r.offset(), 4);
}
