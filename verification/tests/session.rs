use ccs::session::{
    active_session, cwd_from_lines, decode_project_dir, filter_by_cwd, find_by_id_prefix, jsonl_session_id,
    looks_like_path, most_recent, session_id_from_file_name, SessionFile, SessionKind, DEFAULT_ACTIVE_WITHIN,
};

const SEC: u64 = 1_000_000_000;

fn session(id: &str, project: &str, modified_secs: u64) -> SessionFile {
    SessionFile {
        path: format!("/p/{id}.jsonl"),
        session_id: id.into(),
        parent_session_id: None,
        kind: SessionKind::Primary,
        project_cwd: project.into(),
        modified: modified_secs * SEC,
        size: 0,
    }
}

#[test]
fn decode_project_dir_basic() {
    assert_eq!(decode_project_dir("-Users-alice-src-app"), "/Users/alice/src/app");
    assert_eq!(decode_project_dir("not-encoded"), "not-encoded");
}

#[test]
fn filter_by_cwd_matches_parent_and_child_paths() {
    let s = SessionFile {
        path: String::new(),
        session_id: "s".into(),
        parent_session_id: None,
        kind: SessionKind::Primary,
        project_cwd: "/Users/alice/repo".into(),
        modified: 0,
        size: 0,
    };
    let sessions = vec![s];
    assert_eq!(filter_by_cwd(&sessions, "/Users/alice/repo/sub").len(), 1);
    assert_eq!(filter_by_cwd(&sessions, "/Users/alice").len(), 1);
    assert_eq!(filter_by_cwd(&sessions, "/etc").len(), 0);
}

#[test]
fn filter_by_cwd_compares_whole_components() {
    let sessions = vec![session("s", "/Users/alice/repo", 1)];
    assert_eq!(filter_by_cwd(&sessions, "/Users/alice/repo2").len(), 0);
    assert_eq!(filter_by_cwd(&sessions, "/Users/alice/repo/").len(), 1);
}

#[test]
fn most_recent_picks_newest() {
    let sessions = vec![session("old", "/p", 10), session("new", "/p", 20)];
    let newest = most_recent(&sessions).unwrap();
    assert_eq!(newest.session_id, "new");
    assert!(most_recent(&[]).is_none());
}

#[test]
fn read_cwd_probes_multiple_lines_before_giving_up() {
    let mut lines: Vec<String> = (0..5).map(|_| r#"{"type":"permission-mode"}"#.to_string()).collect();
    lines.push(
        r#"{"type":"assistant","cwd":"/some/real-path","uuid":"u","sessionId":"s","timestamp":"t","message":{"role":"assistant","content":[]}}"#
            .to_string(),
    );
    assert_eq!(cwd_from_lines(&lines), Some("/some/real-path".to_string()));
}

#[test]
fn cwd_from_lines_skips_malformed_and_gives_none_without_cwd() {
    let lines = vec!["not json".to_string(), r#"{"type":"user"}"#.to_string()];
    assert_eq!(cwd_from_lines(&lines), None);
    let lines = vec!["not json".to_string(), r#"{"cwd":"/x"}"#.to_string()];
    assert_eq!(cwd_from_lines(&lines), Some("/x".to_string()));
}

#[test]
fn discover_enumerates_jsonl_files() {
    // The file-name rules discovery applies to a project directory.
    assert_eq!(jsonl_session_id("abc.jsonl"), Some("abc".to_string()));
    assert_eq!(jsonl_session_id("ignore.txt"), None);
    assert_eq!(jsonl_session_id("nested"), None);
    assert_eq!(decode_project_dir("-tmp-project-a"), "/tmp/project/a");
}

#[test]
fn discover_prefers_jsonl_cwd_over_lossy_decode() {
    let lines = vec![
        r#"{"type":"permission-mode","permissionMode":"default"}"#.to_string(),
        r#"{"type":"user","uuid":"u","sessionId":"s","timestamp":"t","cwd":"/Users/alice/code-scrollback","message":{"role":"user","content":"hi"}}"#.to_string(),
    ];
    let cwd = cwd_from_lines(&lines).unwrap_or_else(|| decode_project_dir("-Users-alice-code-scrollback"));
    assert_eq!(cwd, "/Users/alice/code-scrollback");
    assert_eq!(decode_project_dir("-Users-alice-code-scrollback"), "/Users/alice/code/scrollback");
}

#[test]
fn session_id_comes_from_the_file_stem() {
    assert_eq!(session_id_from_file_name(Some("agent-1.jsonl")), "agent-1");
    assert_eq!(session_id_from_file_name(Some("noext")), "noext");
    assert_eq!(session_id_from_file_name(None), "session");
}

#[test]
fn active_session_is_newest_near_cwd_and_recent() {
    let now = 1_000 * SEC;
    let all = vec![
        session("far", "/elsewhere", 999),
        session("old-here", "/repo", 500),
        session("new-here", "/repo", 900),
    ];
    let got = active_session(&all, "/repo/sub", now, DEFAULT_ACTIVE_WITHIN).unwrap();
    assert_eq!(got.session_id, "new-here");
    let stale = vec![session("old-here", "/repo", 100)];
    assert!(active_session(&stale, "/repo", now, DEFAULT_ACTIVE_WITHIN).is_none());
    assert!(active_session(&all, "/nowhere", now, DEFAULT_ACTIVE_WITHIN).is_none());
}

#[test]
fn find_by_id_prefix_returns_first_match() {
    let all = vec![session("abc-1", "/p", 1), session("abd-2", "/p", 2)];
    assert_eq!(find_by_id_prefix(&all, "ab").unwrap().session_id, "abc-1");
    assert_eq!(find_by_id_prefix(&all, "abd").unwrap().session_id, "abd-2");
    assert!(find_by_id_prefix(&all, "x").is_none());
}

#[test]
fn path_like_targets() {
    assert!(looks_like_path("./a.jsonl"));
    assert!(looks_like_path("dir/a"));
    assert!(looks_like_path("a\\b"));
    assert!(looks_like_path(".hidden"));
    assert!(!looks_like_path("3f2a-uuid"));
}

#[test]
fn decoding_then_reencoding_gives_the_name_back() {
    for name in ["-Users-alice-my-repo", "-tmp-x", "plain-name"] {
        assert_eq!(decode_project_dir(name).replace('/', "-"), name);
    }
}
