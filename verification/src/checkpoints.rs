//! Manual marks: per-session maps from a mark letter to a position.
//!
//! A mark is anchored at `(msg_index, block_index)` rather than at a line,
//! because line numbers change whenever the viewer reflows. Marks of all
//! sessions live in one file keyed by session id; reading and writing that
//! file is the program's job, the merge rules are here.

use vstd::prelude::*;

use crate::text::{owned, str_eq};

verus! {

/// A saved position: a message, and optionally a block within it
/// (`None` points at the message's header line).
#[derive(Debug, Clone, Copy, PartialEq, Eq, Structural)]
pub struct Mark {
    pub msg_index: usize,
    pub block_index: Option<usize>,
}

/// No key occurs twice.
pub open spec fn keys_unique<K, V>(s: Seq<(K, V)>) -> bool {
    forall|i: int, j: int| 0 <= i < j < s.len() ==> s[i].0 != s[j].0
}

/// The map an association list with unique keys stands for.
pub open spec fn assoc_map<K, V>(s: Seq<(K, V)>) -> Map<K, V> {
    Map::new(
        |k: K| exists|i: int| 0 <= i < s.len() && s[i].0 == k,
        |k: K| s[choose|i: int| 0 <= i < s.len() && s[i].0 == k].1,
    )
}

pub proof fn lemma_assoc_at<K, V>(s: Seq<(K, V)>, i: int)
    requires
        keys_unique(s),
        0 <= i < s.len(),
    ensures
        assoc_map(s).contains_key(s[i].0),
        assoc_map(s)[s[i].0] == s[i].1,
{
    let k = s[i].0;
    assert(exists|j: int| 0 <= j < s.len() && s[j].0 == k);
    let j = choose|j: int| 0 <= j < s.len() && s[j].0 == k;
    if j != i {
        if j < i {
            assert(s[j].0 != s[i].0);
        } else {
            assert(s[i].0 != s[j].0);
        }
    }
}

pub proof fn lemma_assoc_push<K, V>(s: Seq<(K, V)>, k: K, v: V)
    requires
        keys_unique(s),
        !assoc_map(s).contains_key(k),
    ensures
        keys_unique(s.push((k, v))),
        assoc_map(s.push((k, v))) == assoc_map(s).insert(k, v),
{
    let t = s.push((k, v));
    assert forall|i: int, j: int| 0 <= i < j < t.len() implies t[i].0 != t[j].0 by {
        if j == s.len() {
            if t[i].0 == k {
                assert(s[i].0 == k);
                assert(assoc_map(s).contains_key(k));
            }
        }
    }
    let m = assoc_map(t);
    let m2 = assoc_map(s).insert(k, v);
    assert forall|x: K| #[trigger] m.contains_key(x) == m2.contains_key(x) by {
        if m.contains_key(x) {
            let i = choose|i: int| 0 <= i < t.len() && t[i].0 == x;
            if i < s.len() {
                assert(s[i].0 == x);
            }
        }
        if m2.contains_key(x) && x != k {
            let i = choose|i: int| 0 <= i < s.len() && s[i].0 == x;
            assert(t[i].0 == x);
        }
        if x == k {
            assert(t[s.len() as int].0 == k);
        }
    }
    assert forall|x: K| #[trigger] m.contains_key(x) implies m[x] == m2[x] by {
        if x == k {
            lemma_assoc_at(t, s.len() as int);
        } else {
            let i = choose|i: int| 0 <= i < t.len() && t[i].0 == x;
            assert(i < s.len());
            lemma_assoc_at(t, i);
            lemma_assoc_at(s, i);
        }
    }
    assert(m =~= m2);
}

pub proof fn lemma_assoc_update<K, V>(s: Seq<(K, V)>, i: int, v: V)
    requires
        keys_unique(s),
        0 <= i < s.len(),
    ensures
        keys_unique(s.update(i, (s[i].0, v))),
        assoc_map(s.update(i, (s[i].0, v))) == assoc_map(s).insert(s[i].0, v),
{
    let k = s[i].0;
    let t = s.update(i, (k, v));
    assert forall|a: int, b: int| 0 <= a < b < t.len() implies t[a].0 != t[b].0 by {
        assert(t[a].0 == s[a].0 && t[b].0 == s[b].0);
    }
    let m = assoc_map(t);
    let m2 = assoc_map(s).insert(k, v);
    lemma_assoc_at(s, i);
    assert forall|x: K| #[trigger] m.contains_key(x) == m2.contains_key(x) by {
        if m.contains_key(x) {
            let j = choose|j: int| 0 <= j < t.len() && t[j].0 == x;
            assert(s[j].0 == x);
        }
        if m2.contains_key(x) && x != k {
            let j = choose|j: int| 0 <= j < s.len() && s[j].0 == x;
            assert(t[j].0 == x);
        }
        if x == k {
            assert(t[i].0 == k);
        }
    }
    assert forall|x: K| #[trigger] m.contains_key(x) implies m[x] == m2[x] by {
        let j = choose|j: int| 0 <= j < t.len() && t[j].0 == x;
        lemma_assoc_at(t, j);
        if j != i {
            lemma_assoc_at(s, j);
        }
    }
    assert(m =~= m2);
}

/// One session's marks, letter to position, kept in letter order.
#[derive(Debug)]
pub struct SessionMarks {
    entries: Vec<(char, Mark)>,
}

impl View for SessionMarks {
    type V = Map<char, Mark>;

    closed spec fn view(&self) -> Map<char, Mark> {
        assoc_map(self.entries@)
    }
}

impl SessionMarks {
    #[verifier::type_invariant]
    closed spec fn wf(self) -> bool {
        keys_unique(self.entries@) && forall|i: int, j: int|
            0 <= i < j < self.entries@.len() ==> self.entries@[i].0 < self.entries@[j].0
    }

    /// No marks.
    pub fn new() -> (m: SessionMarks)
        ensures
            m@ == Map::<char, Mark>::empty(),
    {
        let m = SessionMarks { entries: Vec::new() };
        assert(m@ =~= Map::<char, Mark>::empty());
        m
    }

    pub fn len(&self) -> (n: usize)
        ensures
            n == self@.len(),
    {
        proof {
            use_type_invariant(self);
            self.lemma_len();
        }
        self.entries.len()
    }

    proof fn lemma_len(&self)
        requires
            keys_unique(self.entries@),
        ensures
            self@.dom().finite(),
            self@.len() == self.entries@.len(),
    {
        let s = self.entries@;
        let keys = Seq::new(s.len(), |i: int| s[i].0);
        assert(self@.dom() =~= keys.to_set()) by {
            assert forall|k: char| #[trigger] self@.dom().contains(k) == keys.to_set().contains(k) by {
                if self@.dom().contains(k) {
                    let i = choose|i: int| 0 <= i < s.len() && s[i].0 == k;
                    assert(keys[i] == k);
                }
                if keys.to_set().contains(k) {
                    let i = choose|i: int| 0 <= i < keys.len() && keys[i] == k;
                    assert(s[i].0 == k);
                }
            }
        }
        assert(keys.no_duplicates());
        keys.unique_seq_to_set();
    }

    pub fn is_empty(&self) -> (b: bool)
        ensures
            b == (self@.len() == 0),
    {
        self.len() == 0
    }

    fn find(&self, letter: char) -> (r: Option<usize>)
        ensures
            match r {
                Some(i) => i < self.entries@.len() && self.entries@[i as int].0 == letter,
                None => !self@.contains_key(letter),
            },
    {
        let mut i: usize = 0;
        while i < self.entries.len()
            invariant
                i <= self.entries@.len(),
                forall|j: int| 0 <= j < i ==> self.entries@[j].0 != letter,
            decreases self.entries.len() - i,
        {
            if self.entries[i].0 == letter {
                return Some(i);
            }
            i += 1;
        }
        None
    }

    pub fn contains_key(&self, letter: &char) -> (b: bool)
        ensures
            b == self@.contains_key(*letter),
    {
        self.find(*letter).is_some()
    }

    pub fn get(&self, letter: &char) -> (r: Option<&Mark>)
        ensures
            match r {
                Some(m) => self@.contains_key(*letter) && self@[*letter] == *m,
                None => !self@.contains_key(*letter),
            },
    {
        proof {
            use_type_invariant(self);
        }
        match self.find(*letter) {
            Some(i) => {
                proof {
                    lemma_assoc_at(self.entries@, i as int);
                }
                Some(&self.entries[i].1)
            },
            None => None,
        }
    }

    /// Set `letter` to `mark`, replacing any earlier mark of that letter.
    pub fn insert(&mut self, letter: char, mark: Mark)
        ensures
            final(self)@ == old(self)@.insert(letter, mark),
    {
        proof {
            use_type_invariant(&*self);
        }
        let ghost s = self.entries@;
        let found = self.find(letter);
        let mut es: Vec<(char, Mark)> = Vec::new();
        std::mem::swap(&mut es, &mut self.entries);
        match found {
            Some(i) => {
                es.set(i, (letter, mark));
                proof {
                    lemma_assoc_update(s, i as int, mark);
                    assert(es@ == s.update(i as int, (s[i as int].0, mark)));
                    assert forall|a: int, b: int| 0 <= a < b < es@.len() implies es@[a].0 < es@[b].0 by {
                        assert(es@[a].0 == s[a].0 && es@[b].0 == s[b].0);
                    }
                }
                self.entries = es;
            },
            None => {
                // keep letters in order: insert before the first larger one
                let mut p: usize = 0;
                while p < es.len() && es[p].0 < letter
                    invariant
                        p <= es@.len(),
                        es@ == s,
                        forall|j: int| 0 <= j < p ==> s[j].0 < letter,
                    decreases es.len() - p,
                {
                    p += 1;
                }
                es.insert(p, (letter, mark));
                proof {
                    let t = es@;
                    lemma_assoc_push(s, letter, mark);
                    assert forall|a: int, b: int| 0 <= a < b < t.len() implies t[a].0 < t[b].0 by {
                        if a < p && b < p {
                        } else if a < p && b == p {
                        } else if a < p && b > p {
                            assert(t[b] == s[b - 1]);
                            if s[a].0 >= letter {
                            }
                            if b - 1 >= p as int {
                                if p < s.len() {
                                    assert(!(s[p as int].0 < letter));
                                    assert(s[p as int].0 != letter) by {
                                        if s[p as int].0 == letter {
                                            assert(assoc_map(s).contains_key(letter));
                                        }
                                    }
                                }
                            }
                        } else if a == p {
                            assert(t[b] == s[b - 1]);
                            assert(!(s[p as int].0 < letter));
                            assert(s[p as int].0 != letter) by {
                                if s[p as int].0 == letter {
                                    assert(assoc_map(s).contains_key(letter));
                                }
                            }
                        } else {
                            assert(t[a] == s[a - 1] && t[b] == s[b - 1]);
                        }
                    }
                    let u = s.push((letter, mark));
                    assert(assoc_map(t) =~= assoc_map(u)) by {
                        assert forall|x: char| #[trigger] assoc_map(t).contains_key(x)
                            == assoc_map(u).contains_key(x) by {
                            if assoc_map(t).contains_key(x) {
                                let j = choose|j: int| 0 <= j < t.len() && t[j].0 == x;
                                if j < p {
                                    assert(u[j].0 == x);
                                } else if j == p {
                                    assert(u[s.len() as int].0 == x);
                                } else {
                                    assert(u[j - 1].0 == x);
                                }
                            }
                            if assoc_map(u).contains_key(x) {
                                let j = choose|j: int| 0 <= j < u.len() && u[j].0 == x;
                                if j < p {
                                    assert(t[j].0 == x);
                                } else if j == s.len() {
                                    assert(t[p as int].0 == x);
                                } else {
                                    assert(t[j + 1].0 == x);
                                }
                            }
                        }
                        assert forall|x: char| #[trigger] assoc_map(t).contains_key(x) implies assoc_map(
                            t,
                        )[x] == assoc_map(u)[x] by {
                            let j = choose|j: int| 0 <= j < t.len() && t[j].0 == x;
                            lemma_assoc_at(t, j);
                            if j < p {
                                lemma_assoc_at(u, j);
                            } else if j == p {
                                lemma_assoc_at(u, s.len() as int);
                            } else {
                                lemma_assoc_at(u, j - 1);
                            }
                        }
                    }
                }
                self.entries = es;
            },
        }
    }

    /// Forget every mark.
    pub fn clear(&mut self)
        ensures
            final(self)@ == Map::<char, Mark>::empty(),
    {
        self.entries = Vec::new();
        assert(self@ =~= Map::<char, Mark>::empty());
    }

    /// The marks in letter order.
    pub fn entries(&self) -> (r: &Vec<(char, Mark)>)
        ensures
            assoc_map(r@) == self@,
            keys_unique(r@),
            forall|i: int, j: int| 0 <= i < j < r@.len() ==> r@[i].0 < r@[j].0,
    {
        proof {
            use_type_invariant(self);
        }
        &self.entries
    }
}

/// `current` (or no marks) with every mark of `local` written over it:
/// the union of both, `local` winning per letter.
pub fn merge_marks(current: Option<&SessionMarks>, local: &SessionMarks) -> (r: SessionMarks)
    ensures
        r@ == (match current {
            Some(c) => c@,
            None => Map::<char, Mark>::empty(),
        }).union_prefer_right(local@),
{
    let mut merged = match current {
        Some(c) => c.clone_marks(),
        None => SessionMarks::new(),
    };
    let ghost base = merged@;
    let es = local.entries();
    let mut i: usize = 0;
    while i < es.len()
        invariant
            i <= es.len(),
            keys_unique(es@),
            assoc_map(es@) == local@,
            merged@ == base.union_prefer_right(assoc_map(es@.take(i as int))),
        decreases es.len() - i,
    {
        let (letter, mark) = es[i];
        merged.insert(letter, mark);
        proof {
            let p = es@.take(i as int);
            let q = es@.take(i + 1);
            assert(q == p.push((letter, mark)));
            assert(keys_unique(p));
            assert(!assoc_map(p).contains_key(letter)) by {
                if assoc_map(p).contains_key(letter) {
                    let j = choose|j: int| 0 <= j < p.len() && p[j].0 == letter;
                    assert(es@[j].0 == es@[i as int].0);
                }
            }
            lemma_assoc_push(p, letter, mark);
            assert(merged@ =~= base.union_prefer_right(assoc_map(q)));
        }
        i += 1;
    }
    assert(es@.take(es.len() as int) =~= es@);
    merged
}

impl SessionMarks {
    /// A copy of these marks.
    pub fn clone_marks(&self) -> (r: SessionMarks)
        ensures
            r@ == self@,
    {
        proof {
            use_type_invariant(self);
        }
        let mut v: Vec<(char, Mark)> = Vec::new();
        let mut i: usize = 0;
        while i < self.entries.len()
            invariant
                i <= self.entries@.len(),
                v@ == self.entries@.take(i as int),
            decreases self.entries.len() - i,
        {
            v.push(self.entries[i]);
            proof {
                assert(self.entries@.take(i + 1) =~= self.entries@.take(i as int).push(
                    self.entries@[i as int],
                ));
            }
            i += 1;
        }
        assert(self.entries@.take(self.entries@.len() as int) =~= self.entries@);
        SessionMarks { entries: v }
    }
}

/// The marks of every session, keyed by session id.
#[derive(Debug)]
pub struct MarksFile {
    sessions: Vec<(String, SessionMarks)>,
}

pub open spec fn session_entries_view(s: Seq<(String, SessionMarks)>) -> Seq<(Seq<char>, Map<char, Mark>)> {
    Seq::new(s.len(), |i: int| (s[i].0@, s[i].1@))
}

impl View for MarksFile {
    type V = Map<Seq<char>, Map<char, Mark>>;

    closed spec fn view(&self) -> Map<Seq<char>, Map<char, Mark>> {
        assoc_map(session_entries_view(self.sessions@))
    }
}

impl MarksFile {
    #[verifier::type_invariant]
    closed spec fn wf(self) -> bool {
        keys_unique(session_entries_view(self.sessions@))
    }

    /// No sessions.
    pub fn new() -> (f: MarksFile)
        ensures
            f@ == Map::<Seq<char>, Map<char, Mark>>::empty(),
    {
        let f = MarksFile { sessions: Vec::new() };
        assert(f@ =~= Map::<Seq<char>, Map<char, Mark>>::empty());
        f
    }

    fn find(&self, session_id: &str) -> (r: Option<usize>)
        ensures
            match r {
                Some(i) => i < self.sessions@.len() && self.sessions@[i as int].0@ == session_id@,
                None => !self@.contains_key(session_id@),
            },
    {
        let ghost sv = session_entries_view(self.sessions@);
        let mut i: usize = 0;
        while i < self.sessions.len()
            invariant
                i <= self.sessions@.len(),
                sv == session_entries_view(self.sessions@),
                forall|j: int| 0 <= j < i ==> sv[j].0 != session_id@,
            decreases self.sessions.len() - i,
        {
            if str_eq(self.sessions[i].0.as_str(), session_id) {
                return Some(i);
            }
            i += 1;
        }
        None
    }

    /// The marks of `session_id`, if it has any.
    pub fn session(&self, session_id: &str) -> (r: Option<&SessionMarks>)
        ensures
            match r {
                Some(m) => self@.contains_key(session_id@) && self@[session_id@] == m@,
                None => !self@.contains_key(session_id@),
            },
    {
        proof {
            use_type_invariant(self);
        }
        match self.find(session_id) {
            Some(i) => {
                proof {
                    lemma_assoc_at(session_entries_view(self.sessions@), i as int);
                }
                Some(&self.sessions[i].1)
            },
            None => None,
        }
    }

    /// Replace the marks of `session_id`; empty marks remove its entry.
    pub fn set_session(&mut self, session_id: &str, marks: SessionMarks)
        ensures
            final(self)@ == if marks@.len() == 0 {
                old(self)@.remove(session_id@)
            } else {
                old(self)@.insert(session_id@, marks@)
            },
    {
        if marks.is_empty() {
            self.remove_session(session_id);
            return;
        }
        proof {
            use_type_invariant(&*self);
        }
        let ghost s = session_entries_view(self.sessions@);
        let found = self.find(session_id);
        let mut ss: Vec<(String, SessionMarks)> = Vec::new();
        std::mem::swap(&mut ss, &mut self.sessions);
        match found {
            Some(i) => {
                let key = owned(session_id);
                let ghost mv = marks@;
                ss.set(i, (key, marks));
                proof {
                    lemma_assoc_update(s, i as int, mv);
                    assert(session_entries_view(ss@) =~= s.update(i as int, (s[i as int].0, mv)));
                }
            },
            None => {
                let key = owned(session_id);
                let ghost mv = marks@;
                ss.push((key, marks));
                proof {
                    lemma_assoc_push(s, session_id@, mv);
                    assert(session_entries_view(ss@) =~= s.push((session_id@, mv)));
                }
            },
        }
        self.sessions = ss;
    }

    /// Drop the entry of `session_id`.
    pub fn remove_session(&mut self, session_id: &str)
        ensures
            final(self)@ == old(self)@.remove(session_id@),
    {
        proof {
            use_type_invariant(&*self);
        }
        let ghost s = session_entries_view(self.sessions@);
        match self.find(session_id) {
            Some(i) => {
                let mut ss: Vec<(String, SessionMarks)> = Vec::new();
                std::mem::swap(&mut ss, &mut self.sessions);
                ss.remove(i);
                proof {
                    let t = session_entries_view(ss@);
                    assert(t =~= s.remove(i as int));
                    assert forall|a: int, b: int| 0 <= a < b < t.len() implies t[a].0 != t[b].0 by {
                        if a < i {
                            if b < i {
                            } else {
                                assert(t[b] == s[b + 1]);
                            }
                        } else {
                            assert(t[a] == s[a + 1] && t[b] == s[b + 1]);
                        }
                    }
                    let m = assoc_map(t);
                    let m2 = assoc_map(s).remove(session_id@);
                    assert forall|x: Seq<char>| #[trigger] m.contains_key(x) == m2.contains_key(
                        x,
                    ) by {
                        if m.contains_key(x) {
                            let j = choose|j: int| 0 <= j < t.len() && t[j].0 == x;
                            if j < i {
                                assert(s[j].0 == x);
                                assert(s[j].0 != s[i as int].0);
                            } else {
                                assert(s[j + 1].0 == x);
                                assert(s[i as int].0 != s[j + 1].0);
                            }
                        }
                        if m2.contains_key(x) {
                            let j = choose|j: int| 0 <= j < s.len() && s[j].0 == x;
                            assert(j != i);
                            if j < i {
                                assert(t[j].0 == x);
                            } else {
                                assert(t[j - 1].0 == x);
                            }
                        }
                    }
                    assert forall|x: Seq<char>| #[trigger] m.contains_key(x) implies m[x]
                        == m2[x] by {
                        let j = choose|j: int| 0 <= j < t.len() && t[j].0 == x;
                        lemma_assoc_at(t, j);
                        if j < i {
                            lemma_assoc_at(s, j);
                        } else {
                            lemma_assoc_at(s, j + 1);
                        }
                    }
                    assert(m =~= m2);
                }
                self.sessions = ss;
            },
            None => {
                assert(self@.remove(session_id@) =~= self@);
            },
        }
    }

    /// The sessions and their marks, in file order.
    pub fn sessions(&self) -> (r: &Vec<(String, SessionMarks)>)
        ensures
            assoc_map(session_entries_view(r@)) == self@,
    {
        &self.sessions
    }
}

/// The marks file after storing `next` for `sid`: an empty or missing set
/// of marks drops the session's entry.
pub open spec fn session_updated(
    file: Map<Seq<char>, Map<char, Mark>>,
    sid: Seq<char>,
    next: Option<Map<char, Mark>>,
) -> Map<Seq<char>, Map<char, Mark>> {
    match next {
        Some(m) => if m.len() == 0 {
            file.remove(sid)
        } else {
            file.insert(sid, m)
        },
        None => file.remove(sid),
    }
}

/// Saving one session's marks leaves every other session's marks as they
/// were.
pub proof fn law_update_preserves_other_sessions(
    file: Map<Seq<char>, Map<char, Mark>>,
    sid: Seq<char>,
    next: Option<Map<char, Mark>>,
    other: Seq<char>,
)
    requires
        other != sid,
    ensures
        session_updated(file, sid, next).contains_key(other) == file.contains_key(other),
        file.contains_key(other) ==> session_updated(file, sid, next)[other] == file[other],
{
}

/// Merging with what another writer saved meanwhile keeps that writer's
/// marks for letters this session did not set, and this session's marks
/// for the letters it did.
pub proof fn law_merge_keeps_both(current: Map<char, Mark>, local: Map<char, Mark>, c: char)
    ensures
        local.contains_key(c) ==> current.union_prefer_right(local)[c] == local[c],
        !local.contains_key(c) && current.contains_key(c) ==> current.union_prefer_right(local)[c]
            == current[c],
        current.union_prefer_right(local).contains_key(c) == (current.contains_key(c)
            || local.contains_key(c)),
{
}

/// What a locked read-modify-write of one session's entry leaves in the
/// file: `next` replaces the entry, and `None` or empty marks remove it.
pub fn apply_session_update(file: &mut MarksFile, session_id: &str, next: Option<SessionMarks>)
    ensures
        final(file)@ == session_updated(
            old(file)@,
            session_id@,
            match next {
                Some(m) => Some(m@),
                None => None,
            },
        ),
{
    match next {
        Some(m) => file.set_session(session_id, m),
        None => file.remove_session(session_id),
    }
}

} // verus!
