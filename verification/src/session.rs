//! Sessions on disk: project directory names, path matching, and the
//! "most recent" and "active session" choices.
//!
//! The agent keeps each project's sessions in a directory named after
//! the project's working directory with `/` replaced by `-`
//! (`/Users/alice/src/app` becomes `-Users-alice-src-app`). The encoding is
//! lossy — a `-` inside a directory name cannot be told from a separator —
//! so [`decode_project_dir`] is a best effort; the real working directory
//! is read from the `cwd` field of the session's events when there is one.

use vstd::prelude::*;

use crate::json::{field_str, get_field_str};
use crate::markdown::{last_index_of, last_index_of_exec};
use crate::text::{
    chars_of, owned, split_on, split_str, str_eq, string_from_range, texts_of, trim, trim_range,
};

verus! {

/// Kind of a session file.
#[derive(Debug, Clone, Copy, PartialEq, Eq, Structural)]
pub enum SessionKind {
    /// A session JSONL directly under the project directory.
    Primary,
    /// A subagent JSONL under `<session-id>/subagents/`.
    Subagent,
}

/// A session JSONL file and what the filesystem says about it.
#[derive(Debug, Clone)]
pub struct SessionFile {
    /// Path of the `.jsonl` file.
    pub path: String,
    /// Session id (agent id for subagent files).
    pub session_id: String,
    /// The parent session of a subagent file.
    pub parent_session_id: Option<String>,
    pub kind: SessionKind,
    /// Working directory of the project the session belongs to.
    pub project_cwd: String,
    /// Last modification, in nanoseconds since the Unix epoch.
    pub modified: u64,
    /// File size in bytes.
    pub size: u64,
}

pub ghost struct SessionFileModel {
    pub path: Seq<char>,
    pub session_id: Seq<char>,
    pub parent_session_id: Option<Seq<char>>,
    pub kind: SessionKind,
    pub project_cwd: Seq<char>,
    pub modified: u64,
    pub size: u64,
}

pub open spec fn opt_view(o: Option<String>) -> Option<Seq<char>> {
    match o {
        Some(s) => Some(s@),
        None => None,
    }
}

impl View for SessionFile {
    type V = SessionFileModel;

    open spec fn view(&self) -> SessionFileModel {
        SessionFileModel {
            path: self.path@,
            session_id: self.session_id@,
            parent_session_id: opt_view(self.parent_session_id),
            kind: self.kind,
            project_cwd: self.project_cwd@,
            modified: self.modified,
            size: self.size,
        }
    }
}

pub open spec fn sessions_view(v: Seq<SessionFile>) -> Seq<SessionFileModel> {
    Seq::new(v.len(), |i: int| v[i]@)
}

fn clone_opt(o: &Option<String>) -> (r: Option<String>)
    ensures
        opt_view(r) == opt_view(*o),
{
    match o {
        Some(s) => Some(s.clone()),
        None => None,
    }
}

impl SessionFile {
    /// A copy of this record.
    pub fn duplicate(&self) -> (r: SessionFile)
        ensures
            r@ == self@,
    {
        SessionFile {
            path: self.path.clone(),
            session_id: self.session_id.clone(),
            parent_session_id: clone_opt(&self.parent_session_id),
            kind: self.kind,
            project_cwd: self.project_cwd.clone(),
            modified: self.modified,
            size: self.size,
        }
    }
}

/// How long after its last write a session still counts as active: five
/// minutes, in nanoseconds.
pub const DEFAULT_ACTIVE_WITHIN: u64 = 300_000_000_000;

// ---------------------------------------------------------------------
// project directory names
// ---------------------------------------------------------------------

/// `-` replaced by `/` throughout.
pub open spec fn dashes_to_slashes(s: Seq<char>) -> Seq<char> {
    Seq::new(s.len(), |i: int| if s[i] == '-' { '/' } else { s[i] })
}

/// The working directory a project directory name stands for: a leading
/// `-` becomes the root and every other `-` a separator; a name without
/// the leading `-` is returned unchanged.
pub open spec fn decoded_project_dir(name: Seq<char>) -> Seq<char> {
    if name.len() > 0 && name[0] == '-' {
        seq!['/'] + dashes_to_slashes(name.drop_first())
    } else {
        name
    }
}

/// Best-effort working directory of a project directory name
/// (`-Users-alice-src-app` → `/Users/alice/src/app`).
pub fn decode_project_dir(name: &str) -> (r: String)
    ensures
        r@ == decoded_project_dir(name@),
{
    let cs = chars_of(name);
    if cs.len() > 0 && cs[0] == '-' {
        let mut v: Vec<char> = Vec::new();
        v.push('/');
        let mut i: usize = 1;
        while i < cs.len()
            invariant
                1 <= i <= cs.len(),
                cs@ == name@,
                v@ == seq!['/'] + dashes_to_slashes(cs@.subrange(1, i as int)),
            decreases cs.len() - i,
        {
            let c = if cs[i] == '-' {
                '/'
            } else {
                cs[i]
            };
            v.push(c);
            proof {
                assert(dashes_to_slashes(cs@.subrange(1, i + 1)) =~= dashes_to_slashes(
                    cs@.subrange(1, i as int),
                ).push(c));
            }
            i += 1;
        }
        proof {
            assert(cs@.subrange(1, cs.len() as int) =~= cs@.drop_first());
        }
        crate::text::string_from_chars(&v)
    } else {
        owned(name)
    }
}

// ---------------------------------------------------------------------
// path components
// ---------------------------------------------------------------------

/// The pieces that name directories: non-empty and not `.`.
pub open spec fn normal_parts(ps: Seq<Seq<char>>) -> Seq<Seq<char>>
    decreases ps.len(),
{
    if ps.len() == 0 {
        Seq::empty()
    } else {
        let rest = normal_parts(ps.drop_last());
        let p = ps.last();
        if p.len() > 0 && p != "."@ {
            rest.push(p)
        } else {
            rest
        }
    }
}

/// `Path::components` of a `/`-separated path: `/` for a root, `.` for a
/// leading current directory, then every non-empty piece but `.`.
pub open spec fn path_components(p: Seq<char>) -> Seq<Seq<char>> {
    let pieces = split_on(p, '/');
    let head: Seq<Seq<char>> = if p.len() > 0 && p[0] == '/' {
        seq!["/"@]
    } else if pieces[0] == "."@ {
        seq!["."@]
    } else {
        Seq::empty()
    };
    head + normal_parts(pieces)
}

/// `path.starts_with(base)`: the components of `base` lead those of `path`.
pub open spec fn path_starts_with(path: Seq<char>, base: Seq<char>) -> bool {
    let a = path_components(path);
    let b = path_components(base);
    b.len() <= a.len() && a.take(b.len() as int) == b
}

/// The components of `p`.
pub fn components(p: &str) -> (r: Vec<String>)
    ensures
        texts_of(r@) == path_components(p@),
{
    let pieces = split_str(p, '/');
    let cs = chars_of(p);
    proof {
        crate::text::lemma_split_on_nonempty(p@, '/');
    }
    let mut out: Vec<String> = Vec::new();
    if cs.len() > 0 && cs[0] == '/' {
        out.push(owned("/"));
    } else if str_eq(pieces[0].as_str(), ".") {
        out.push(owned("."));
    }
    let ghost head = texts_of(out@);
    let ghost pv = texts_of(pieces@);
    let mut i: usize = 0;
    assert(pv.take(0) =~= Seq::<Seq<char>>::empty());
    assert(texts_of(out@) =~= head + normal_parts(pv.take(0)));
    while i < pieces.len()
        invariant
            i <= pieces@.len(),
            pv == texts_of(pieces@),
            texts_of(out@) == head + normal_parts(pv.take(i as int)),
        decreases pieces.len() - i,
    {
        proof {
            assert(pv.take(i + 1).drop_last() =~= pv.take(i as int));
            assert(pv.take(i + 1).last() == pv[i as int]);
        }
        let ghost before = texts_of(out@);
        let piece = &pieces[i];
        if !piece.as_str().is_empty() && !str_eq(piece.as_str(), ".") {
            out.push(piece.clone());
            assert(texts_of(out@) =~= before.push(pv[i as int]));
        }
        i += 1;
    }
    assert(pv.take(pieces.len() as int) =~= pv);
    out
}

/// `path.starts_with(base)`, component by component.
pub fn starts_with_path(path: &str, base: &str) -> (b: bool)
    ensures
        b == path_starts_with(path@, base@),
{
    let a = components(path);
    let c = components(base);
    let ghost av = texts_of(a@);
    let ghost cv = texts_of(c@);
    if c.len() > a.len() {
        return false;
    }
    let mut i: usize = 0;
    while i < c.len()
        invariant
            i <= c.len() <= a.len(),
            av == texts_of(a@),
            cv == texts_of(c@),
            av == path_components(path@),
            cv == path_components(base@),
            forall|j: int| 0 <= j < i ==> av[j] == cv[j],
        decreases c.len() - i,
    {
        if !str_eq(a[i].as_str(), c[i].as_str()) {
            proof {
                assert(av.take(cv.len() as int)[i as int] != cv[i as int]);
            }
            return false;
        }
        i += 1;
    }
    assert(av.take(cv.len() as int) =~= cv);
    true
}

// ---------------------------------------------------------------------
// choosing sessions
// ---------------------------------------------------------------------

/// A session belongs near `cwd` when either directory contains the other.
pub open spec fn near_cwd(s: SessionFileModel, cwd: Seq<char>) -> bool {
    path_starts_with(cwd, s.project_cwd) || path_starts_with(s.project_cwd, cwd)
}

pub open spec fn filter_near(v: Seq<SessionFileModel>, cwd: Seq<char>) -> Seq<SessionFileModel>
    decreases v.len(),
{
    if v.len() == 0 {
        Seq::empty()
    } else {
        let rest = filter_near(v.drop_last(), cwd);
        if near_cwd(v.last(), cwd) {
            rest.push(v.last())
        } else {
            rest
        }
    }
}

/// The sessions whose project directory contains `cwd` or lies inside
/// it, in their original order. The match is on path components, so a
/// launch from a subdirectory of a project, or from one of its ancestors,
/// finds its sessions.
pub fn filter_by_cwd(sessions: &[SessionFile], cwd: &str) -> (r: Vec<SessionFile>)
    ensures
        sessions_view(r@) == filter_near(sessions_view(sessions@), cwd@),
{
    let ghost sv = sessions_view(sessions@);
    let mut out: Vec<SessionFile> = Vec::new();
    let mut i: usize = 0;
    assert(sv.take(0) =~= Seq::<SessionFileModel>::empty());
    while i < sessions.len()
        invariant
            i <= sessions@.len(),
            sv == sessions_view(sessions@),
            sessions_view(out@) == filter_near(sv.take(i as int), cwd@),
        decreases sessions.len() - i,
    {
        proof {
            assert(sv.take(i + 1).drop_last() =~= sv.take(i as int));
            assert(sv.take(i + 1).last() == sessions@[i as int]@);
        }
        let s = &sessions[i];
        let ghost before = sessions_view(out@);
        if starts_with_path(cwd, s.project_cwd.as_str()) || starts_with_path(
            s.project_cwd.as_str(),
            cwd,
        ) {
            out.push(s.duplicate());
            assert(sessions_view(out@) =~= before.push(s@));
        }
        i += 1;
    }
    assert(sv.take(sessions.len() as int) =~= sv);
    out
}

/// Index of the newest entry; on a tie, the last of the newest.
pub open spec fn last_max_index(v: Seq<SessionFileModel>) -> int
    decreases v.len(),
{
    if v.len() <= 1 {
        0
    } else {
        let k = last_max_index(v.drop_last());
        if v.last().modified >= v[k].modified {
            v.len() - 1
        } else {
            k
        }
    }
}

pub proof fn lemma_last_max_index(v: Seq<SessionFileModel>)
    requires
        v.len() > 0,
    ensures
        0 <= last_max_index(v) < v.len(),
        forall|j: int| 0 <= j < v.len() ==> (#[trigger] v[j]).modified <= v[last_max_index(v)].modified,
        forall|j: int|
            last_max_index(v) < j < v.len() ==> (#[trigger] v[j]).modified < v[last_max_index(v)].modified,
    decreases v.len(),
{
    if v.len() > 1 {
        lemma_last_max_index(v.drop_last());
        let k = last_max_index(v.drop_last());
        assert forall|j: int| 0 <= j < v.len() - 1 implies v[j] == v.drop_last()[j] by {}
    }
}

/// The most recently modified session (the last one on a tie).
pub fn most_recent(sessions: &[SessionFile]) -> (r: Option<&SessionFile>)
    ensures
        match r {
            Some(s) => sessions@.len() > 0 && s@ == sessions_view(sessions@)[last_max_index(
                sessions_view(sessions@),
            )],
            None => sessions@.len() == 0,
        },
{
    if sessions.len() == 0 {
        return None;
    }
    let ghost sv = sessions_view(sessions@);
    let mut best: usize = 0;
    let mut i: usize = 1;
    assert(sv.take(1).drop_last() =~= Seq::<SessionFileModel>::empty());
    while i < sessions.len()
        invariant
            1 <= i <= sessions@.len(),
            sv == sessions_view(sessions@),
            best as int == last_max_index(sv.take(i as int)),
            best < i,
        decreases sessions.len() - i,
    {
        proof {
            assert(sv.take(i + 1).drop_last() =~= sv.take(i as int));
            assert(sv.take(i + 1).last() == sv[i as int]);
            assert(sv.take(i + 1)[best as int] == sv[best as int]);
        }
        if sessions[i].modified >= sessions[best].modified {
            best = i;
        }
        i += 1;
    }
    assert(sv.take(sessions.len() as int) =~= sv);
    Some(&sessions[best])
}

/// The session to follow live under `cwd`: the newest session near `cwd`,
/// provided it was written at most `within` before `now` (or claims a
/// time after `now`, as with clock skew). Times are nanoseconds since the
/// Unix epoch.
pub open spec fn active_choice(
    all: Seq<SessionFileModel>,
    cwd: Seq<char>,
    now: u64,
    within: u64,
) -> Option<SessionFileModel> {
    let c = filter_near(all, cwd);
    if c.len() == 0 {
        None
    } else {
        let s = c[last_max_index(c)];
        if s.modified > now || now - s.modified <= within {
            Some(s)
        } else {
            None
        }
    }
}

/// The sessions kept by the filter are exactly those of `v` near `cwd`.
pub proof fn lemma_filter_near(v: Seq<SessionFileModel>, cwd: Seq<char>)
    ensures
        forall|i: int| 0 <= i < filter_near(v, cwd).len() ==> v.contains(#[trigger] filter_near(v, cwd)[i])
            && near_cwd(filter_near(v, cwd)[i], cwd),
        forall|j: int| 0 <= j < v.len() && near_cwd(#[trigger] v[j], cwd) ==> filter_near(v, cwd).contains(v[j]),
    decreases v.len(),
{
    if v.len() > 0 {
        let u = v.drop_last();
        lemma_filter_near(u, cwd);
        let r = filter_near(u, cwd);
        let f = filter_near(v, cwd);
        assert forall|i: int| 0 <= i < f.len() implies v.contains(#[trigger] f[i]) && near_cwd(f[i], cwd) by {
            if i < r.len() {
                assert(f[i] == r[i]);
                let k = choose|k: int| 0 <= k < u.len() && u[k] == r[i];
                assert(v[k] == u[k]);
            } else {
                assert(f[i] == v.last());
                assert(v[v.len() - 1] == v.last());
            }
        }
        assert forall|j: int| 0 <= j < v.len() && near_cwd(#[trigger] v[j], cwd) implies f.contains(v[j]) by {
            if j < u.len() {
                assert(u[j] == v[j]);
                let k = choose|k: int| 0 <= k < r.len() && r[k] == u[j];
                if near_cwd(v.last(), cwd) {
                    assert(f[k] == r[k]);
                } else {
                    assert(f == r);
                }
            } else {
                assert(v[j] == v.last());
                assert(f[f.len() - 1] == v.last());
            }
        }
    }
}

/// The session to follow is one of `all`, near `cwd`, recent enough, and
/// the newest of the sessions near `cwd`; there is none only when no
/// session near `cwd` was written within `within` of `now` (or after it).
pub proof fn law_active_is_newest_near(all: Seq<SessionFileModel>, cwd: Seq<char>, now: u64, within: u64)
    ensures
        match active_choice(all, cwd, now, within) {
            Some(s) => {
                &&& all.contains(s)
                &&& near_cwd(s, cwd)
                &&& (s.modified > now || now - s.modified <= within)
                &&& forall|j: int| 0 <= j < all.len() && near_cwd(#[trigger] all[j], cwd) ==> all[j].modified
                    <= s.modified
            },
            None => forall|j: int| 0 <= j < all.len() && near_cwd(#[trigger] all[j], cwd) ==> !(all[j].modified
                > now || now - all[j].modified <= within),
        },
{
    lemma_filter_near(all, cwd);
    let c = filter_near(all, cwd);
    if c.len() > 0 {
        lemma_last_max_index(c);
        let s = c[last_max_index(c)];
        assert forall|j: int| 0 <= j < all.len() && near_cwd(#[trigger] all[j], cwd) implies all[j].modified
            <= s.modified by {
            let k = choose|k: int| 0 <= k < c.len() && c[k] == all[j];
            assert(c[k].modified <= s.modified);
        }
    } else {
        assert forall|j: int| 0 <= j < all.len() && near_cwd(#[trigger] all[j], cwd) implies false by {
            let k = choose|k: int| 0 <= k < c.len() && c[k] == all[j];
        }
    }
}

/// The active session under `cwd` among `all`, judged at time `now`.
pub fn active_session(all: &[SessionFile], cwd: &str, now: u64, within: u64) -> (r: Option<
    SessionFile,
>)
    ensures
        match r {
            Some(s) => active_choice(sessions_view(all@), cwd@, now, within) == Some(s@),
            None => active_choice(sessions_view(all@), cwd@, now, within) is None,
        },
{
    let candidates = filter_by_cwd(all, cwd);
    let newest = match most_recent(candidates.as_slice()) {
        Some(s) => s,
        None => {
            return None;
        },
    };
    if newest.modified > now || now - newest.modified <= within {
        Some(newest.duplicate())
    } else {
        None
    }
}

/// The first session whose id starts with `prefix`.
pub open spec fn first_with_prefix(v: Seq<SessionFileModel>, prefix: Seq<char>) -> Option<int>
    decreases v.len(),
{
    if v.len() == 0 {
        None
    } else if prefix.len() <= v[0].session_id.len() && v[0].session_id.take(prefix.len() as int)
        == prefix {
        Some(0)
    } else {
        match first_with_prefix(v.drop_first(), prefix) {
            Some(i) => Some(i + 1),
            None => None,
        }
    }
}

fn has_prefix(s: &str, prefix: &str) -> (b: bool)
    ensures
        b == (prefix@.len() <= s@.len() && s@.take(prefix@.len() as int) == prefix@),
{
    let a = chars_of(s);
    let p = chars_of(prefix);
    if p.len() > a.len() {
        return false;
    }
    let mut i: usize = 0;
    while i < p.len()
        invariant
            i <= p.len() <= a.len(),
            a@ == s@,
            p@ == prefix@,
            forall|j: int| 0 <= j < i ==> a@[j] == p@[j],
        decreases p.len() - i,
    {
        if a[i] != p[i] {
            assert(s@.take(prefix@.len() as int)[i as int] != prefix@[i as int]);
            return false;
        }
        i += 1;
    }
    assert(s@.take(prefix@.len() as int) =~= prefix@);
    true
}

/// Resolve a session id prefix: the first session whose id starts with it.
pub fn find_by_id_prefix(sessions: &[SessionFile], prefix: &str) -> (r: Option<SessionFile>)
    ensures
        match r {
            Some(s) => first_with_prefix(sessions_view(sessions@), prefix@) matches Some(i) && s@
                == sessions_view(sessions@)[i],
            None => first_with_prefix(sessions_view(sessions@), prefix@) is None,
        },
{
    let ghost sv = sessions_view(sessions@);
    let mut i: usize = 0;
    assert(sv.skip(0) =~= sv);
    while i < sessions.len()
        invariant
            i <= sessions@.len(),
            sv == sessions_view(sessions@),
            first_with_prefix(sv, prefix@) == match first_with_prefix(sv.skip(i as int), prefix@) {
                Some(k) => Some(k + i),
                None => None,
            },
        decreases sessions.len() - i,
    {
        proof {
            assert(sv.skip(i as int)[0] == sv[i as int]);
            assert(sv.skip(i as int).drop_first() =~= sv.skip(i + 1));
        }
        if has_prefix(sessions[i].session_id.as_str(), prefix) {
            return Some(sessions[i].duplicate());
        }
        i += 1;
    }
    assert(sv.skip(i as int) =~= Seq::<SessionFileModel>::empty());
    None
}

// ---------------------------------------------------------------------
// file names and the cwd probe
// ---------------------------------------------------------------------

/// `Path::file_stem` and `Path::extension` of a file name: split at the
/// last `.`, unless that dot starts the name (or the name is `..`).
pub open spec fn split_ext(name: Seq<char>) -> (Seq<char>, Option<Seq<char>>) {
    if name == ".."@ {
        (name, None)
    } else {
        match last_index_of(name, '.') {
            None => (name, None),
            Some(i) => if i == 0 {
                (name, None)
            } else {
                (name.take(i as int), Some(name.skip(i + 1int)))
            },
        }
    }
}

/// The session id of a file named `name` when it is a `.jsonl` file.
pub open spec fn jsonl_id(name: Seq<char>) -> Option<Seq<char>> {
    match split_ext(name).1 {
        Some(e) => if e == "jsonl"@ {
            Some(split_ext(name).0)
        } else {
            None
        },
        None => None,
    }
}

/// The stem of `name` when its extension is `jsonl`.
pub fn jsonl_session_id(name: &str) -> (r: Option<String>)
    ensures
        opt_view(r) == jsonl_id(name@),
{
    if str_eq(name, "..") {
        return None;
    }
    let cs = chars_of(name);
    match last_index_of_exec(&cs, '.') {
        None => None,
        Some(i) => {
            proof {
                crate::markdown::lemma_last_index_in_range(cs@, '.');
            }
            if i == 0 {
                return None;
            }
            assert(i < cs.len());
            let ext = string_from_range(&cs, i + 1, cs.len());
            if str_eq(ext.as_str(), "jsonl") {
                let stem = string_from_range(&cs, 0, i);
                assert(stem@ =~= name@.take(i as int));
                assert(ext@ =~= name@.skip(i + 1));
                Some(stem)
            } else {
                assert(ext@ =~= name@.skip(i + 1));
                None
            }
        },
    }
}

/// The session id of a file opened by path: its stem, or `session` when
/// there is no file name.
pub fn session_id_from_file_name(name: Option<&str>) -> (r: String)
    ensures
        r@ == match name {
            Some(n) => split_ext(n@).0,
            None => "session"@,
        },
{
    match name {
        None => owned("session"),
        Some(n) => {
            if str_eq(n, "..") {
                return owned(n);
            }
            let cs = chars_of(n);
            match last_index_of_exec(&cs, '.') {
                None => owned(n),
                Some(i) => {
                    proof {
                        crate::markdown::lemma_last_index_in_range(cs@, '.');
                    }
                    if i == 0 {
                        owned(n)
                    } else {
                        let stem = string_from_range(&cs, 0, i);
                        assert(stem@ =~= n@.take(i as int));
                        stem
                    }
                },
            }
        },
    }
}

/// Lines read from the head of a session file before giving up on `cwd`.
pub const CWD_PROBE_MAX_LINES: usize = 32;

/// The `cwd` a line carries: its trimmed text parsed as JSON, the
/// top-level `cwd` string when it is not empty.
pub open spec fn line_cwd(line: Seq<char>) -> Option<Seq<char>> {
    let t = trim(line);
    if t.len() == 0 {
        None
    } else {
        match field_str(t, "cwd"@) {
            Some(c) => if c.len() > 0 {
                Some(c)
            } else {
                None
            },
            None => None,
        }
    }
}

/// The first `cwd` among `lines`.
pub open spec fn first_cwd(lines: Seq<Seq<char>>) -> Option<Seq<char>>
    decreases lines.len(),
{
    if lines.len() == 0 {
        None
    } else {
        match line_cwd(lines[0]) {
            Some(c) => Some(c),
            None => first_cwd(lines.drop_first()),
        }
    }
}

/// The working directory recorded in the first lines of a session file:
/// the first non-empty top-level `cwd` string among at most
/// [`CWD_PROBE_MAX_LINES`] lines.
pub fn cwd_from_lines(lines: &Vec<String>) -> (r: Option<String>)
    ensures
        opt_view(r) == first_cwd(texts_of(lines@).take(
            if lines@.len() < CWD_PROBE_MAX_LINES {
                lines@.len() as int
            } else {
                CWD_PROBE_MAX_LINES as int
            },
        )),
{
    let n = if lines.len() < CWD_PROBE_MAX_LINES {
        lines.len()
    } else {
        CWD_PROBE_MAX_LINES
    };
    let ghost lv = texts_of(lines@).take(n as int);
    let mut i: usize = 0;
    assert(lv.skip(0) =~= lv);
    while i < n
        invariant
            i <= n <= lines@.len(),
            n as int == (if lines@.len() < CWD_PROBE_MAX_LINES {
                lines@.len() as int
            } else {
                CWD_PROBE_MAX_LINES as int
            }),
            lv == texts_of(lines@).take(n as int),
            first_cwd(lv) == first_cwd(lv.skip(i as int)),
        decreases n - i,
    {
        proof {
            assert(lv.skip(i as int)[0] == lines@[i as int]@);
            assert(lv.skip(i as int).drop_first() =~= lv.skip(i + 1));
        }
        let cs = chars_of(lines[i].as_str());
        let t = trim_range(&cs, 0, cs.len());
        proof {
            assert(cs@.subrange(0, cs.len() as int) =~= cs@);
            assert(t@ == trim(lines@[i as int]@));
        }
        if !t.as_str().is_empty() {
            match get_field_str(t.as_str(), "cwd") {
                Some(c) => {
                    if !c.as_str().is_empty() {
                        assert(line_cwd(lines@[i as int]@) == Some(c@));
                        assert(first_cwd(lv.skip(i as int)) == Some(c@));
                        return Some(c);
                    }
                },
                None => {},
            }
        }
        i += 1;
    }
    assert(lv.skip(i as int) =~= Seq::<Seq<char>>::empty());
    None
}

/// Whether a command-line target names a file rather than a session id:
/// it holds a `/` or `\`, or starts with `.`.
pub open spec fn path_like(t: Seq<char>) -> bool {
    t.contains('/') || t.contains('\\') || (t.len() > 0 && t[0] == '.')
}

pub fn looks_like_path(target: &str) -> (b: bool)
    ensures
        b == path_like(target@),
{
    let cs = chars_of(target);
    let mut i: usize = 0;
    while i < cs.len()
        invariant
            i <= cs.len(),
            cs@ == target@,
            forall|j: int| 0 <= j < i ==> cs@[j] != '/' && cs@[j] != '\\',
        decreases cs.len() - i,
    {
        if cs[i] == '/' || cs[i] == '\\' {
            assert(target@[i as int] == cs[i as int]);
            return true;
        }
        i += 1;
    }
    cs.len() > 0 && cs[0] == '.'
}

} // verus!
