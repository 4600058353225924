use ccs::checkpoints::{apply_session_update, merge_marks, Mark, MarksFile, SessionMarks};

fn mark(msg_index: usize, block_index: Option<usize>) -> Mark {
    Mark { msg_index, block_index }
}

fn one(letter: char, m: Mark) -> SessionMarks {
    let mut s = SessionMarks::new();
    s.insert(letter, m);
    s
}

#[test]
fn update_session_preserves_other_sessions() {
    let mut file = MarksFile::new();
    apply_session_update(&mut file, "sess-a", Some(one('a', mark(1, None))));
    apply_session_update(&mut file, "sess-b", Some(one('b', mark(2, None))));
    assert!(file.session("sess-a").unwrap().contains_key(&'a'));
    assert!(file.session("sess-b").unwrap().contains_key(&'b'));
}

#[test]
fn update_session_empty_marks_removes_entry() {
    let mut file = MarksFile::new();
    apply_session_update(&mut file, "sess", Some(one('a', mark(0, None))));
    assert!(file.session("sess").is_some());
    apply_session_update(&mut file, "sess", Some(SessionMarks::new()));
    assert!(file.session("sess").is_none());
}

#[test]
fn update_with_none_removes_entry() {
    let mut file = MarksFile::new();
    apply_session_update(&mut file, "sess", Some(one('a', mark(0, None))));
    apply_session_update(&mut file, "sess", None);
    assert!(file.session("sess").is_none());
    assert!(file.sessions().is_empty());
}

#[test]
fn marks_insert_get_and_overwrite() {
    let mut m = SessionMarks::new();
    assert!(m.is_empty());
    m.insert('b', mark(7, None));
    m.insert('a', mark(3, Some(1)));
    assert_eq!(m.len(), 2);
    assert_eq!(m.get(&'a'), Some(&mark(3, Some(1))));
    assert_eq!(m.get(&'b'), Some(&mark(7, None)));
    m.insert('a', mark(9, None));
    assert_eq!(m.len(), 2);
    assert_eq!(m.get(&'a'), Some(&mark(9, None)));
    assert_eq!(m.get(&'z'), None);
    let letters: Vec<char> = m.entries().iter().map(|(c, _)| *c).collect();
    assert_eq!(letters, vec!['a', 'b']);
    m.clear();
    assert!(m.is_empty());
}

#[test]
fn merge_prefers_local_and_keeps_concurrent_letters() {
    let mut on_disk = SessionMarks::new();
    on_disk.insert('a', mark(1, None));
    on_disk.insert('c', mark(5, None));
    let mut local = SessionMarks::new();
    local.insert('a', mark(2, None));
    local.insert('b', mark(3, None));
    let merged = merge_marks(Some(&on_disk), &local);
    assert_eq!(merged.get(&'a'), Some(&mark(2, None)));
    assert_eq!(merged.get(&'b'), Some(&mark(3, None)));
    assert_eq!(merged.get(&'c'), Some(&mark(5, None)));
    let fresh = merge_marks(None, &local);
    assert_eq!(fresh.len(), 2);
}

#[test]
fn save_creates_parent_dirs_and_round_trips() {
    // The in-memory part of a save: what is stored for a session is what
    // is read back for it.
    let mut file = MarksFile::new();
    let mut marks = SessionMarks::new();
    marks.insert('a', mark(3, Some(1)));
    marks.insert('b', mark(7, None));
    file.set_session("sess-1", marks);
    let sess = file.session("sess-1").unwrap();
    assert_eq!(sess.get(&'a'), Some(&mark(3, Some(1))));
    assert_eq!(sess.get(&'b'), Some(&mark(7, None)));
}
