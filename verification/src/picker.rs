//! The session picker: rows in relevance order, a cursor, fuzzy search
//! and lazily loaded previews.
//!
//! Rows are ordered by closeness to the directory the program was
//! launched from (see [`cwd_affinity`]), then newest first. Typing a query
//! narrows the rows to those whose project path, session id or loaded
//! preview matches it fuzzily (scored with `nucleo`), best score first. The
//! preview of a row is fetched from the metadata source the first time the
//! cursor lands on it, and never again.

use nucleo::pattern::{CaseMatching, Normalization, Pattern};
use nucleo::{Config, Matcher, Utf32Str};
use vstd::prelude::*;

use crate::keymap::KeyCode;
use crate::metadata::{PickerRowData, PickerRowModel, SessionMetadataSource};
use crate::session::{
    components, dashes_to_slashes, decoded_project_dir, path_components, path_starts_with, sessions_view, starts_with_path, SessionFile,
    SessionFileModel,
};
use crate::transcript::join_with;
use crate::text::{
    chars_of, decimal, owned, push_str, split_on, split_str, str_eq, string_from_range,
    string_push, texts_of, u64_to_string, usize_to_string,
};

verus! {

// ---------------------------------------------------------------------
// cwd affinity
// ---------------------------------------------------------------------

/// A path with every `/` written as `-`, the way project directories are
/// named.
pub open spec fn encode_path(p: Seq<char>) -> Seq<char> {
    Seq::new(p.len(), |i: int| if p[i] == '/' { '-' } else { p[i] })
}

/// How many pieces the two sequences share at their start.
pub open spec fn shared_prefix(a: Seq<Seq<char>>, b: Seq<Seq<char>>) -> nat
    decreases a.len(),
{
    if a.len() == 0 || b.len() == 0 || a[0] != b[0] {
        0
    } else {
        1 + shared_prefix(a.drop_first(), b.drop_first())
    }
}

/// `shorter` equals `longer`, or `longer` continues it after a `-`.
pub open spec fn is_dash_prefix(shorter: Seq<char>, longer: Seq<char>) -> bool {
    shorter == longer || (shorter.len() < longer.len() && longer.take(shorter.len() as int)
        == shorter && longer[shorter.len() as int] == '-')
}

/// Relevance of a project directory to the launch directory: the number of
/// leading `-`-separated pieces their encoded forms share, plus 1000 when
/// one is an ancestor of (or equal to) the other. Comparing encoded forms
/// sidesteps the lossy decoding of project directory names.
pub open spec fn affinity(project_cwd: Seq<char>, launch_cwd: Seq<char>) -> int {
    let p = encode_path(project_cwd);
    let l = encode_path(launch_cwd);
    let shared = shared_prefix(split_on(p, '-'), split_on(l, '-'));
    let bonus = if is_dash_prefix(p, l) || is_dash_prefix(l, p) {
        1000int
    } else {
        0int
    };
    shared + bonus
}

/// Launch paths longer than this would overflow the score.
pub const MAX_LAUNCH_PATH: usize = 2_000_000_000;

pub proof fn lemma_split_on_len(s: Seq<char>, d: char)
    ensures
        split_on(s, d).len() <= s.len() + 1,
    decreases s.len(),
{
    if s.len() > 0 {
        lemma_split_on_len(s.drop_last(), d);
        crate::text::lemma_split_on_nonempty(s.drop_last(), d);
        assert(split_on(s, d).len() <= split_on(s.drop_last(), d).len() + 1);
    }
}

pub proof fn lemma_shared_prefix_le(a: Seq<Seq<char>>, b: Seq<Seq<char>>)
    ensures
        shared_prefix(a, b) <= b.len(),
        shared_prefix(a, b) <= a.len(),
    decreases a.len(),
{
    if a.len() > 0 && b.len() > 0 && a[0] == b[0] {
        lemma_shared_prefix_le(a.drop_first(), b.drop_first());
    }
}

proof fn lemma_shared_prefix_self(a: Seq<Seq<char>>)
    ensures
        shared_prefix(a, a) == a.len(),
    decreases a.len(),
{
    if a.len() > 0 {
        lemma_shared_prefix_self(a.drop_first());
    }
}

/// A session recorded in the launch directory itself ranks at least as
/// high as any other project.
pub proof fn law_launch_dir_ranks_first(project_cwd: Seq<char>, launch_cwd: Seq<char>)
    ensures
        affinity(project_cwd, launch_cwd) <= affinity(launch_cwd, launch_cwd),
{
    let p = encode_path(project_cwd);
    let l = encode_path(launch_cwd);
    lemma_shared_prefix_le(split_on(p, '-'), split_on(l, '-'));
    lemma_shared_prefix_self(split_on(l, '-'));
}

/// Once a row's preview has been fetched it stays fetched and keeps its
/// metadata, however the cursor moves afterwards: no row is fetched twice.
pub proof fn law_preview_fetched_once(m: PickerModel, moved: PickerModel, n: PickerModel, i: int)
    requires
        picker_wf(m),
        moved.sessions == m.sessions && moved.metas == m.metas && moved.loaded == m.loaded
            && moved.filtered == m.filtered,
        picker_wf(moved),
        preview_loaded(moved, n),
        0 <= i < m.loaded.len(),
        m.loaded[i],
    ensures
        n.loaded[i],
        n.metas[i] == m.metas[i],
{
    if moved.cursor < moved.filtered.len() {
        let r = moved.filtered[moved.cursor as int] as int;
        if r != i {
            assert(n.loaded[i] == m.loaded.update(r, true)[i]);
        }
    }
}

/// The source is asked once for each row the cursor lands on: landing on
/// row `r` asks for it only when it was never asked before, after which
/// it has been asked, and no row appears twice in the record of requests
/// (which `new` starts with the first row alone).
pub proof fn law_fetch_once_per_landing(m: PickerModel, n: PickerModel)
    requires
        picker_wf(m),
        preview_loaded(m, n),
        m.cursor < m.filtered.len(),
    ensures
        ({
            let r = m.filtered[m.cursor as int];
            &&& n.fetched.contains(r)
            &&& n.fetched.no_duplicates()
            &&& n.fetched == if m.fetched.contains(r) {
                m.fetched
            } else {
                m.fetched.push(r)
            }
        }),
{
    let r = m.filtered[m.cursor as int];
    assert(m.loaded[r as int] <==> m.fetched.contains(r));
    if !m.fetched.contains(r) {
        let f = m.fetched.push(r);
        assert(f[m.fetched.len() as int] == r);
        assert forall|a: int, b: int| 0 <= a < b < f.len() implies f[a] != f[b] by {
            if b == m.fetched.len() {
                assert(f[a] == m.fetched[a]);
            }
        }
    }
}

/// Decoding a project directory name and encoding it again gives the name
/// back (a directory name holds no `/`), which is why affinity compares
/// encoded paths: the lossy decoding loses nothing there.
pub proof fn law_reencode_identity(name: Seq<char>)
    requires
        !name.contains('/'),
    ensures
        encode_path(decoded_project_dir(name)) == name,
{
    let d = decoded_project_dir(name);
    assert forall|i: int| 0 <= i < name.len() implies #[trigger] encode_path(d)[i] == name[i] by {
        if name[i] == '/' {
            assert(name.contains('/'));
        }
        if name.len() > 0 && name[0] == '-' && i > 0 {
            assert(d[i] == dashes_to_slashes(name.drop_first())[i - 1]);
            assert(name.drop_first()[i - 1] == name[i]);
        }
    }
    assert(encode_path(d) =~= name);
}

fn encode_path_str(p: &str) -> (r: String)
    ensures
        r@ == encode_path(p@),
{
    let cs = chars_of(p);
    let mut out = String::new();
    let mut i: usize = 0;
    while i < cs.len()
        invariant
            i <= cs.len(),
            cs@ == p@,
            out@ =~= encode_path(cs@.take(i as int)),
        decreases cs.len() - i,
    {
        let c = if cs[i] == '/' {
            '-'
        } else {
            cs[i]
        };
        string_push(&mut out, c);
        i += 1;
    }
    assert(cs@.take(cs.len() as int) =~= cs@);
    out
}

fn dash_prefix(shorter: &str, longer: &str) -> (b: bool)
    ensures
        b == is_dash_prefix(shorter@, longer@),
{
    if str_eq(shorter, longer) {
        return true;
    }
    let s = chars_of(shorter);
    let l = chars_of(longer);
    if l.len() <= s.len() {
        return false;
    }
    let mut i: usize = 0;
    while i < s.len()
        invariant
            i <= s.len() < l.len(),
            s@ == shorter@,
            l@ == longer@,
            forall|j: int| 0 <= j < i ==> s@[j] == l@[j],
        decreases s.len() - i,
    {
        if s[i] != l[i] {
            assert(longer@.take(shorter@.len() as int)[i as int] != shorter@[i as int]);
            return false;
        }
        i += 1;
    }
    assert(longer@.take(shorter@.len() as int) =~= shorter@);
    l[s.len()] == '-'
}

/// Score `project_cwd` against `launch_cwd` for the default order.
pub fn cwd_affinity(project_cwd: &str, launch_cwd: &str) -> (r: i32)
    requires
        launch_cwd@.len() <= MAX_LAUNCH_PATH,
    ensures
        r as int == affinity(project_cwd@, launch_cwd@),
{
    let p_enc = encode_path_str(project_cwd);
    let l_enc = encode_path_str(launch_cwd);
    let pp = split_str(p_enc.as_str(), '-');
    let lp = split_str(l_enc.as_str(), '-');
    let ghost pv = texts_of(pp@);
    let ghost lv = texts_of(lp@);
    proof {
        lemma_split_on_len(l_enc@, '-');
        lemma_shared_prefix_le(pv, lv);
        assert(shared_prefix(pv, lv) == shared_prefix(pv.skip(0), lv.skip(0))) by {
            assert(pv.skip(0) =~= pv);
            assert(lv.skip(0) =~= lv);
        }
    }
    let mut shared: usize = 0;
    while shared < pp.len() && shared < lp.len() && str_eq(pp[shared].as_str(), lp[shared].as_str())
        invariant
            shared <= pp@.len(),
            shared <= lp@.len(),
            pv == texts_of(pp@),
            lv == texts_of(lp@),
            shared_prefix(pv, lv) == shared + shared_prefix(
                pv.skip(shared as int),
                lv.skip(shared as int),
            ),
        decreases pp.len() - shared,
    {
        proof {
            assert(pv.skip(shared as int)[0] == pv[shared as int]);
            assert(lv.skip(shared as int)[0] == lv[shared as int]);
            assert(pv.skip(shared as int).drop_first() =~= pv.skip(shared + 1));
            assert(lv.skip(shared as int).drop_first() =~= lv.skip(shared + 1));
        }
        shared += 1;
    }
    proof {
        if shared < pp.len() && shared < lp.len() {
            assert(pv.skip(shared as int)[0] == pv[shared as int]);
            assert(lv.skip(shared as int)[0] == lv[shared as int]);
        }
        assert(shared_prefix(pv.skip(shared as int), lv.skip(shared as int)) == 0);
    }
    let bonus: i32 = if dash_prefix(p_enc.as_str(), l_enc.as_str()) || dash_prefix(
        l_enc.as_str(),
        p_enc.as_str(),
    ) {
        1000
    } else {
        0
    };
    (shared as i32) + bonus
}

// ---------------------------------------------------------------------
// ordering
// ---------------------------------------------------------------------

/// The sort key of a row: affinity (0 without a launch directory) and
/// modification time; larger keys come first.
pub open spec fn row_key(s: SessionFileModel, launch: Option<Seq<char>>) -> (int, int) {
    (
        match launch {
            Some(l) => affinity(s.project_cwd, l),
            None => 0,
        },
        s.modified as int,
    )
}

/// `a` sorts no later than `b` when it is at least as large.
pub open spec fn key_ge(a: (int, int), b: (int, int)) -> bool {
    a.0 > b.0 || (a.0 == b.0 && a.1 >= b.1)
}

/// How many leading entries of an ordered index list stay before index
/// `x`: those whose key is at least `x`'s.
pub open spec fn insert_pos(order: Seq<usize>, keys: Seq<(int, int)>, x: usize) -> nat
    decreases order.len(),
{
    if order.len() == 0 || !key_ge(keys[order[0] as int], keys[x as int]) {
        0
    } else {
        1 + insert_pos(order.drop_first(), keys, x)
    }
}

/// The stable descending order of the first `n` keys, as indices:
/// insertion sort, each index placed after every earlier one whose key is
/// at least its own.
pub open spec fn sorted_order(keys: Seq<(int, int)>, n: nat) -> Seq<usize>
    decreases n,
{
    if n == 0 {
        Seq::empty()
    } else {
        let o = sorted_order(keys, (n - 1) as nat);
        let x = (n - 1) as usize;
        let p = insert_pos(o, keys, x) as int;
        o.take(p).push(x) + o.skip(p)
    }
}

pub open spec fn session_keys(v: Seq<SessionFileModel>, launch: Option<Seq<char>>) -> Seq<(int, int)> {
    Seq::new(v.len(), |i: int| row_key(v[i], launch))
}

pub proof fn lemma_insert_pos_le(order: Seq<usize>, keys: Seq<(int, int)>, x: usize)
    ensures
        insert_pos(order, keys, x) <= order.len(),
    decreases order.len(),
{
    if order.len() > 0 && key_ge(keys[order[0] as int], keys[x as int]) {
        lemma_insert_pos_le(order.drop_first(), keys, x);
    }
}

pub proof fn lemma_sorted_order_len(keys: Seq<(int, int)>, n: nat)
    ensures
        sorted_order(keys, n).len() == n,
        forall|i: int| 0 <= i < n ==> (#[trigger] sorted_order(keys, n)[i]) < n,
    decreases n,
{
    if n > 0 {
        lemma_sorted_order_len(keys, (n - 1) as nat);
        let o = sorted_order(keys, (n - 1) as nat);
        lemma_insert_pos_le(o, keys, (n - 1) as usize);
        let p = insert_pos(o, keys, (n - 1) as usize) as int;
        let r = o.take(p).push((n - 1) as usize) + o.skip(p);
        assert forall|i: int| 0 <= i < n implies (#[trigger] r[i]) < n by {
            if i < p {
                assert(r[i] == o[i]);
            } else if i > p {
                assert(r[i] == o[i - 1]);
            }
        }
    }
}

proof fn lemma_insert_pos_facts(order: Seq<usize>, keys: Seq<(int, int)>, x: usize)
    ensures
        forall|i: int| 0 <= i < insert_pos(order, keys, x) ==> key_ge(keys[(#[trigger] order[i]) as int], keys[x as int]),
        insert_pos(order, keys, x) < order.len() ==> !key_ge(keys[order[insert_pos(order, keys, x) as int] as int], keys[x as int]),
    decreases order.len(),
{
    if order.len() > 0 && key_ge(keys[order[0] as int], keys[x as int]) {
        let rest = order.drop_first();
        lemma_insert_pos_facts(rest, keys, x);
        lemma_insert_pos_le(order, keys, x);
        let p = insert_pos(order, keys, x);
        assert forall|i: int| 0 <= i < p implies key_ge(keys[(#[trigger] order[i]) as int], keys[x as int]) by {
            if i > 0 {
                assert(order[i] == rest[i - 1]);
            }
        }
        if p < order.len() {
            assert(order[p as int] == rest[p - 1]);
        }
    }
}

/// Rows come out ordered by key, largest first: newest first without a
/// launch directory, closest project first with one, then newest. No row
/// is lost or repeated.
pub proof fn law_sorted_order(keys: Seq<(int, int)>, n: nat)
    requires
        n <= keys.len(),
        n <= usize::MAX + 1,
    ensures
        ({
            let o = sorted_order(keys, n);
            &&& o.len() == n
            &&& forall|i: int| 0 <= i < n ==> (#[trigger] o[i]) < n
            &&& forall|i: int, j: int| 0 <= i < j < n ==> o[i] != o[j]
            &&& forall|i: int, j: int|
                0 <= i < j < n ==> key_ge(keys[(#[trigger] o[i]) as int], keys[(#[trigger] o[j]) as int])
        }),
    decreases n,
{
    lemma_sorted_order_len(keys, n);
    if n > 0 {
        let m = (n - 1) as nat;
        law_sorted_order(keys, m);
        let o = sorted_order(keys, m);
        let x = m as usize;
        lemma_insert_pos_le(o, keys, x);
        lemma_insert_pos_facts(o, keys, x);
        let p = insert_pos(o, keys, x) as int;
        let r = sorted_order(keys, n);
        assert(r == o.take(p).push(x) + o.skip(p));
        assert forall|i: int| 0 <= i < n implies (#[trigger] r[i]) == (if i < p {
            o[i]
        } else if i == p {
            x
        } else {
            o[i - 1]
        }) by {}
        assert forall|i: int, j: int| 0 <= i < j < n implies r[i] != r[j] by {
            if i < p && j < p {
            } else if i < p && j == p {
                assert(o[i] < m);
            } else if i < p {
            } else if i == p {
                assert(o[j - 1] < m);
            } else {
            }
        }
        assert forall|i: int, j: int| 0 <= i < j < n implies key_ge(
            keys[(#[trigger] r[i]) as int],
            keys[(#[trigger] r[j]) as int],
        ) by {
            if j < p {
            } else if j == p {
            } else if i == p {
                // o[p] (if any) is below x, and o is ordered from there on.
                let q = o[p];
                assert(!key_ge(keys[q as int], keys[x as int]));
                if j - 1 > p {
                    assert(key_ge(keys[q as int], keys[o[j - 1] as int]));
                }
            } else if i < p {
            } else {
            }
        }
    }
}

/// An empty query shows every row, in order, with the cursor on the
/// first: clearing the search restores the full list.
pub proof fn law_clear_search_restores_all(m: PickerModel, n: PickerModel)
    requires
        m.query.len() > 0,
        query_cleared(m, n),
    ensures
        n.filtered == Seq::new(m.sessions.len(), |i: int| i as usize),
        n.cursor == 0,
        n.query.len() == 0,
        n.sessions == m.sessions,
{
}

/// Erasing a typed character gives the query back as it was, over the
/// same rows, with the cursor on the first shown row; from an empty query
/// the full list comes back in order. (Repeated, `k` erasures undo `k`
/// typed characters.)
pub proof fn law_pop_undoes_push(m: PickerModel, c: char, n: PickerModel, p: PickerModel)
    requires
        picker_wf(m),
        query_pushed(m, c, n),
        query_popped(n, p),
    ensures
        p.query == m.query,
        p.sessions == m.sessions,
        p.cursor == 0,
        m.query.len() == 0 ==> p.filtered == m.filtered,
{
    assert(m.query.push(c).drop_last() =~= m.query);
}

proof fn lemma_pushes(ms: Seq<PickerModel>, cs: Seq<char>, i: int)
    requires
        0 <= i <= cs.len(),
        ms.len() >= cs.len() + 1,
        forall|j: int| 0 <= j < cs.len() ==> query_pushed(#[trigger] ms[j], cs[j], ms[j + 1]),
    ensures
        ms[i].query == ms[0].query + cs.take(i),
        ms[i].sessions == ms[0].sessions,
    decreases i,
{
    if i == 0 {
        assert(ms[0].query + cs.take(0) =~= ms[0].query);
    } else {
        lemma_pushes(ms, cs, i - 1);
        assert(query_pushed(ms[i - 1], cs[i - 1], ms[i]));
        assert((ms[0].query + cs.take(i - 1)).push(cs[i - 1]) =~= ms[0].query + cs.take(i));
    }
}

proof fn lemma_pops(ms: Seq<PickerModel>, cs: Seq<char>, j: int)
    requires
        0 <= j <= cs.len(),
        ms.len() == 2 * cs.len() + 1,
        ms[cs.len() as int].query == ms[0].query + cs,
        forall|i: int| cs.len() <= i < 2 * cs.len() ==> query_popped(#[trigger] ms[i], ms[i + 1]),
    ensures
        ms[cs.len() + j].query == ms[0].query + cs.take(cs.len() - j),
        ms[cs.len() + j].sessions == ms[cs.len() as int].sessions,
        j > 0 ==> ms[cs.len() + j].cursor == 0,
        j > 0 ==> ms[cs.len() + j].filtered == filter_rows(
            ms[cs.len() + j - 1].sessions,
            ms[cs.len() + j - 1].metas,
            ms[cs.len() + j].query,
        ),
    decreases j,
{
    let k = cs.len() as int;
    if j == 0 {
        assert(cs.take(k) =~= cs);
    } else {
        lemma_pops(ms, cs, j - 1);
        assert(query_popped(ms[k + j - 1], ms[k + j]));
        let q = ms[0].query + cs.take(k - j + 1);
        assert(q.len() > 0);
        assert(q.drop_last() =~= ms[0].query + cs.take(k - j));
    }
}

/// Erasing as many characters as were typed gives the query back as it
/// was, over the same rows, with the cursor on the first shown row; from
/// an empty query the full list comes back in its order. `ms` are the
/// pickers along the way: `cs` typed one by one, then as many erasures.
#[verifier::spinoff_prover]
#[verifier::rlimit(100)]
pub proof fn law_pops_undo_pushes(ms: Seq<PickerModel>, cs: Seq<char>)
    requires
        ms.len() == 2 * cs.len() + 1,
        picker_wf(ms[0]),
        forall|i: int| 0 <= i < cs.len() ==> query_pushed(#[trigger] ms[i], cs[i], ms[i + 1]),
        forall|i: int| cs.len() <= i < 2 * cs.len() ==> query_popped(#[trigger] ms[i], ms[i + 1]),
    ensures
        ms.last().query == ms[0].query,
        ms.last().sessions == ms[0].sessions,
        cs.len() > 0 ==> ms.last().cursor == 0,
        ms[0].query.len() == 0 ==> ms.last().filtered == ms[0].filtered,
{
    let k = cs.len() as int;
    assert(ms.last() == ms[2 * k]);
    assert(ms[k].query == ms[0].query + cs && ms[k].sessions == ms[0].sessions) by {
        lemma_pushes(ms, cs, k);
        assert(cs.take(k) =~= cs);
    }
    lemma_pops(ms, cs, k);
    assert(ms[0].query + cs.take(0) =~= ms[0].query);
    if ms[0].query.len() == 0 && k > 0 {
        let p = ms[2 * k - 1];
        assert(ms[2 * k].filtered == filter_rows(p.sessions, p.metas, ms[2 * k].query));
        assert(ms[2 * k].filtered =~= all_rows(ms[0].sessions.len()));
    }
}

// ---------------------------------------------------------------------
// fuzzy search
// ---------------------------------------------------------------------

/// The score `nucleo` gives `haystack` for `query` (parsed with smart
/// case and smart normalization, default matcher configuration); `None`
/// when it does not match.
pub uninterp spec fn spec_fuzzy_score(query: Seq<char>, haystack: Seq<char>) -> Option<u32>;

/// `Pattern::parse(query, CaseMatching::Smart, Normalization::Smart)`
/// scored against `haystack` with a `Matcher` built from
/// `Config::DEFAULT`. The contract only names the result, which depends
/// on the query and the haystack alone.
#[verifier::external_body]
fn fuzzy_score(query: &str, haystack: &str) -> (r: Option<u32>)
    ensures
        r == spec_fuzzy_score(query@, haystack@),
{
    let pattern = Pattern::parse(query, CaseMatching::Smart, Normalization::Smart);
    let mut matcher = Matcher::new(Config::DEFAULT);
    let mut buf: Vec<char> = Vec::new();
    pattern.score(Utf32Str::new(haystack, &mut buf), &mut matcher)
}

/// What a row is searched by: project path, session id, and the preview
/// once it has been loaded.
pub open spec fn searchable(s: SessionFileModel, meta: PickerRowModel) -> Seq<char> {
    let base = s.project_cwd + " "@ + s.session_id;
    match meta.first_prompt {
        Some(p) => base + " "@ + p,
        None => base,
    }
}

/// Stable descending order of scores, as indices into `scored`.
pub open spec fn score_keys(scored: Seq<(u32, usize)>) -> Seq<(int, int)> {
    Seq::new(scored.len(), |i: int| (scored[i].0 as int, 0int))
}

/// `(score, row)` for every row that matches `q`, in row order.
pub open spec fn scored_rows(rows: Seq<SessionFileModel>, metas: Seq<PickerRowModel>, q: Seq<char>) -> Seq<(u32, usize)>
    decreases rows.len(),
{
    if rows.len() == 0 {
        Seq::empty()
    } else {
        let prev = scored_rows(rows.drop_last(), metas, q);
        let i = (rows.len() - 1) as int;
        match spec_fuzzy_score(q, searchable(rows[i], metas[i])) {
            Some(sc) => prev.push((sc, i as usize)),
            None => prev,
        }
    }
}

/// The rows shown for query `q`: all rows in order for an empty query,
/// else the matching rows, best score first, ties in row order.
pub open spec fn filter_rows(rows: Seq<SessionFileModel>, metas: Seq<PickerRowModel>, q: Seq<char>) -> Seq<usize> {
    if q.len() == 0 {
        Seq::new(rows.len(), |i: int| i as usize)
    } else {
        let sc = scored_rows(rows, metas, q);
        let o = sorted_order(score_keys(sc), sc.len());
        Seq::new(o.len(), |i: int| sc[o[i] as int].1)
    }
}

/// The score of row `i` for `q`.
pub open spec fn row_score(rows: Seq<SessionFileModel>, metas: Seq<PickerRowModel>, q: Seq<char>, i: int) -> Option<u32> {
    spec_fuzzy_score(q, searchable(rows[i], metas[i]))
}

proof fn lemma_scored_rows(rows: Seq<SessionFileModel>, metas: Seq<PickerRowModel>, q: Seq<char>)
    requires
        rows.len() <= metas.len(),
        rows.len() <= usize::MAX,
    ensures
        forall|k: int| 0 <= k < scored_rows(rows, metas, q).len() ==> {
            let e = #[trigger] scored_rows(rows, metas, q)[k];
            &&& (e.1 as int) < rows.len()
            &&& row_score(rows, metas, q, e.1 as int) == Some(e.0)
        },
        forall|a: int, b: int| 0 <= a < b < scored_rows(rows, metas, q).len() ==>
            (#[trigger] scored_rows(rows, metas, q)[a]).1 < (#[trigger] scored_rows(rows, metas, q)[b]).1,
    decreases rows.len(),
{
    if rows.len() > 0 {
        let u = rows.drop_last();
        lemma_scored_rows(u, metas, q);
        let p = scored_rows(u, metas, q);
        let sc = scored_rows(rows, metas, q);
        let i = (rows.len() - 1) as int;
        assert forall|k: int| 0 <= k < p.len() implies row_score(rows, metas, q, p[k].1 as int) == row_score(
            u,
            metas,
            q,
            p[k].1 as int,
        ) by {
            assert(rows[p[k].1 as int] == u[p[k].1 as int]);
        }
        assert forall|k: int| 0 <= k < sc.len() implies {
            let e = #[trigger] sc[k];
            &&& (e.1 as int) < rows.len()
            &&& row_score(rows, metas, q, e.1 as int) == Some(e.0)
        } by {
            if k < p.len() {
                assert(sc[k] == p[k]);
            }
        }
        assert forall|a: int, b: int| 0 <= a < b < sc.len() implies (#[trigger] sc[a]).1 < (#[trigger] sc[b]).1 by {
            if b < p.len() {
                assert(sc[a] == p[a] && sc[b] == p[b]);
            } else {
                assert(sc[a] == p[a]);
            }
        }
    }
}

/// A non-empty query shows only rows that match it, each once, best
/// score first: every shown row scores at least as well as every row
/// shown after it.
pub proof fn law_filter_best_first(rows: Seq<SessionFileModel>, metas: Seq<PickerRowModel>, q: Seq<char>)
    requires
        q.len() > 0,
        metas.len() == rows.len(),
        rows.len() <= usize::MAX,
    ensures
        ({
            let f = filter_rows(rows, metas, q);
            &&& forall|i: int| 0 <= i < f.len() ==> (#[trigger] f[i] as int) < rows.len() && row_score(
                rows,
                metas,
                q,
                f[i] as int,
            ) is Some
            &&& forall|i: int, j: int| 0 <= i < j < f.len() ==> (#[trigger] f[i]) != (#[trigger] f[j])
            &&& forall|i: int, j: int| 0 <= i < j < f.len() ==> row_score(rows, metas, q, #[trigger] f[i] as int)->0
                >= row_score(rows, metas, q, #[trigger] f[j] as int)->0
        }),
{
    let sc = scored_rows(rows, metas, q);
    lemma_scored_rows(rows, metas, q);
    lemma_scored_len(rows, metas, q);
    let keys = score_keys(sc);
    law_sorted_order(keys, sc.len());
    let o = sorted_order(keys, sc.len());
    let f = filter_rows(rows, metas, q);
    assert(f == Seq::new(o.len(), |i: int| sc[o[i] as int].1));
    assert forall|i: int| 0 <= i < f.len() implies (#[trigger] f[i] as int) < rows.len() && row_score(
        rows,
        metas,
        q,
        f[i] as int,
    ) is Some by {
        assert(f[i] == sc[o[i] as int].1);
    }
    assert forall|i: int, j: int| 0 <= i < j < f.len() implies (#[trigger] f[i]) != (#[trigger] f[j]) by {
        assert(f[i] == sc[o[i] as int].1 && f[j] == sc[o[j] as int].1);
        if o[i] < o[j] {
        } else {
        }
    }
    assert forall|i: int, j: int| 0 <= i < j < f.len() implies row_score(rows, metas, q, #[trigger] f[i] as int)->0
        >= row_score(rows, metas, q, #[trigger] f[j] as int)->0 by {
        assert(f[i] == sc[o[i] as int].1 && f[j] == sc[o[j] as int].1);
        assert(key_ge(keys[o[i] as int], keys[o[j] as int]));
    }
}

proof fn lemma_scored_len(rows: Seq<SessionFileModel>, metas: Seq<PickerRowModel>, q: Seq<char>)
    ensures
        scored_rows(rows, metas, q).len() <= rows.len(),
    decreases rows.len(),
{
    if rows.len() > 0 {
        lemma_scored_len(rows.drop_last(), metas, q);
    }
}

// ---------------------------------------------------------------------
// rows and state
// ---------------------------------------------------------------------

/// One picker row: a session and its (possibly empty) preview data.
pub struct PickerRow {
    pub session: SessionFile,
    pub meta: PickerRowData,
    /// The metadata source has been asked for this row.
    pub meta_loaded: bool,
}

impl PickerRow {
    fn new(session: SessionFile) -> (r: PickerRow)
        ensures
            r.session@ == session@,
            r.meta@ == crate::metadata::empty_row(),
            !r.meta_loaded,
    {
        PickerRow { session, meta: PickerRowData::default(), meta_loaded: false }
    }
}

pub ghost struct PickerModel {
    pub sessions: Seq<SessionFileModel>,
    pub metas: Seq<PickerRowModel>,
    pub loaded: Seq<bool>,
    pub filtered: Seq<usize>,
    pub cursor: nat,
    pub query: Seq<char>,
    pub search_mode: bool,
    pub open_requested: bool,
    /// The rows whose preview the source was asked for, in the order of
    /// the requests.
    pub fetched: Seq<usize>,
}

/// Picker state, over a metadata source `S`.
pub struct PickerState<S: SessionMetadataSource> {
    rows: Vec<PickerRow>,
    filtered: Vec<usize>,
    cursor: usize,
    search_query: String,
    /// `/` search is active: keys edit the query.
    pub search_mode: bool,
    open_requested: bool,
    source: S,
    fetched: Ghost<Seq<usize>>,
}

impl<S: SessionMetadataSource> View for PickerState<S> {
    type V = PickerModel;

    closed spec fn view(&self) -> PickerModel {
        PickerModel {
            sessions: Seq::new(self.rows@.len(), |i: int| self.rows@[i].session@),
            metas: Seq::new(self.rows@.len(), |i: int| self.rows@[i].meta@),
            loaded: Seq::new(self.rows@.len(), |i: int| self.rows@[i].meta_loaded),
            filtered: self.filtered@,
            cursor: self.cursor as nat,
            query: self.search_query@,
            search_mode: self.search_mode,
            open_requested: self.open_requested,
            fetched: self.fetched@,
        }
    }
}

/// Every shown index is a row, the cursor is on a shown row (or 0), and
/// an empty query shows every row, in order.
pub open spec fn picker_wf(m: PickerModel) -> bool {
    &&& m.metas.len() == m.sessions.len()
    &&& m.loaded.len() == m.sessions.len()
    &&& forall|i: int| 0 <= i < m.filtered.len() ==> (#[trigger] m.filtered[i]) < m.sessions.len()
    &&& (m.cursor < m.filtered.len() || m.cursor == 0)
    &&& m.query.len() == 0 ==> m.filtered == all_rows(m.sessions.len())
    &&& fetch_record_wf(m)
}

/// The source was asked once for each loaded row, and for no other.
pub open spec fn fetch_record_wf(m: PickerModel) -> bool {
    &&& m.fetched.no_duplicates()
    &&& forall|i: int| 0 <= i < m.fetched.len() ==> (#[trigger] m.fetched[i]) < m.loaded.len()
    &&& forall|r: usize| (r as int) < m.loaded.len() ==> (#[trigger] m.loaded[r as int] <==> m.fetched.contains(r))
}

/// Every row index below `n`, in order.
pub open spec fn all_rows(n: nat) -> Seq<usize> {
    Seq::new(n, |i: int| i as usize)
}

/// After fetching: the row under the cursor has been loaded; nothing
/// else changed but its metadata.
pub open spec fn preview_loaded(old: PickerModel, new: PickerModel) -> bool {
    &&& new.sessions == old.sessions
    &&& new.filtered == old.filtered
    &&& new.cursor == old.cursor
    &&& new.query == old.query
    &&& new.search_mode == old.search_mode
    &&& new.open_requested == old.open_requested
    &&& new.metas.len() == old.metas.len()
    &&& if old.cursor < old.filtered.len() {
        let r = old.filtered[old.cursor as int] as int;
        &&& new.loaded == old.loaded.update(r, true)
        &&& new.fetched == if old.loaded[r] {
            old.fetched
        } else {
            old.fetched.push(r as usize)
        }
        &&& old.loaded[r] ==> new.metas == old.metas
        &&& forall|j: int| 0 <= j < old.metas.len() && j != r ==> new.metas[j] == old.metas[j]
    } else {
        new.loaded == old.loaded && new.metas == old.metas && new.fetched == old.fetched
    }
}

impl<S: SessionMetadataSource> PickerState<S> {
    pub open spec fn wf(&self) -> bool {
        picker_wf(self@)
    }

    /// A picker over `sessions`, ordered by affinity to `launch_cwd`
    /// (when given) and then newest first; the first row's preview is
    /// fetched, and no other.
    pub fn new(sessions: Vec<SessionFile>, source: S, launch_cwd: Option<&str>) -> (p: PickerState<S>)
        requires
            launch_cwd matches Some(l) ==> l@.len() <= MAX_LAUNCH_PATH,
        ensures
            p.wf(),
            ({
                let launch = match launch_cwd {
                    Some(l) => Some(l@),
                    None => None,
                };
                let sv = sessions_view(sessions@);
                let o = sorted_order(session_keys(sv, launch), sv.len());
                &&& p@.sessions == Seq::new(o.len(), |i: int| sv[o[i] as int])
                &&& p@.filtered == Seq::new(sv.len(), |i: int| i as usize)
                &&& p@.cursor == 0
                &&& p@.query.len() == 0
                &&& !p@.search_mode
                &&& !p@.open_requested
            }),
            forall|i: int| 0 <= i < p@.loaded.len() ==> (#[trigger] p@.loaded[i]) == (i == 0),
            forall|i: int| 0 < i < p@.metas.len() ==> (#[trigger] p@.metas[i]) == crate::metadata::empty_row(),
            p@.fetched == if sessions@.len() > 0 {
                seq![0usize]
            } else {
                Seq::<usize>::empty()
            },
    {
        let ghost launch = match launch_cwd {
            Some(l) => Some(l@),
            None => None,
        };
        let ghost sv = sessions_view(sessions@);
        // sort keys
        let mut keys: Vec<(i64, u64)> = Vec::new();
        let mut i: usize = 0;
        while i < sessions.len()
            invariant
                i <= sessions@.len(),
                sv == sessions_view(sessions@),
                launch == match launch_cwd {
                    Some(l) => Some(l@),
                    None => None,
                },
                launch_cwd matches Some(l) ==> l@.len() <= MAX_LAUNCH_PATH,
                keys@.len() == i,
                forall|j: int|
                    0 <= j < i ==> ((#[trigger] keys@[j]).0 as int, keys@[j].1 as int) == row_key(
                        sv[j],
                        launch,
                    ),
            decreases sessions.len() - i,
        {
            let a: i64 = match launch_cwd {
                Some(l) => cwd_affinity(sessions[i].project_cwd.as_str(), l) as i64,
                None => 0,
            };
            keys.push((a, sessions[i].modified));
            i += 1;
        }
        let ghost kv = session_keys(sv, launch);
        let order = sort_indices(&keys, Ghost(kv));
        proof {
            lemma_sorted_order_len(kv, sv.len());
        }
        let mut rows: Vec<PickerRow> = Vec::new();
        let mut filtered: Vec<usize> = Vec::new();
        let mut k: usize = 0;
        while k < order.len()
            invariant
                k <= order@.len(),
                order@ == sorted_order(kv, sv.len()),
                order@.len() == sv.len(),
                forall|j: int| 0 <= j < order@.len() ==> (#[trigger] order@[j]) < sv.len(),
                sv == sessions_view(sessions@),
                rows@.len() == k,
                filtered@.len() == k,
                forall|j: int| 0 <= j < k ==> (#[trigger] rows@[j]).session@ == sv[order@[j] as int],
                forall|j: int| 0 <= j < k ==> (#[trigger] rows@[j]).meta@ == crate::metadata::empty_row(),
                forall|j: int| 0 <= j < k ==> !(#[trigger] rows@[j]).meta_loaded,
                forall|j: int| 0 <= j < k ==> (#[trigger] filtered@[j]) == j,
            decreases order.len() - k,
        {
            let idx = order[k];
            rows.push(PickerRow::new(sessions[idx].duplicate()));
            filtered.push(k);
            k += 1;
        }
        let mut state = PickerState {
            rows,
            filtered,
            cursor: 0,
            search_query: String::new(),
            search_mode: false,
            open_requested: false,
            source,
            fetched: Ghost(Seq::empty()),
        };
        proof {
            assert(state@.sessions =~= Seq::new(order@.len(), |i: int| sv[order@[i] as int]));
            assert(state@.filtered =~= Seq::new(sv.len(), |i: int| i as usize));
        }
        let ghost before = state@;
        state.ensure_preview_for_cursor();
        state
    }

    pub fn is_empty(&self) -> (b: bool)
        ensures
            b == (self@.filtered.len() == 0),
    {
        self.filtered.len() == 0
    }

    pub fn visible_len(&self) -> (n: usize)
        ensures
            n == self@.filtered.len(),
    {
        self.filtered.len()
    }

    pub fn total_len(&self) -> (n: usize)
        ensures
            n == self@.sessions.len(),
    {
        self.rows.len()
    }

    pub fn search_query(&self) -> (r: &str)
        ensures
            r@ == self@.query,
    {
        self.search_query.as_str()
    }

    pub fn cursor(&self) -> (r: usize)
        ensures
            r == self@.cursor,
    {
        self.cursor
    }

    /// The rows, in display order before filtering.
    pub fn rows(&self) -> (r: &Vec<PickerRow>)
        ensures
            r@.len() == self@.sessions.len(),
            forall|i: int| 0 <= i < r@.len() ==> (#[trigger] r@[i]).session@ == self@.sessions[i],
    {
        &self.rows
    }

    /// Indices of the rows shown, in order.
    pub fn filtered(&self) -> (r: &Vec<usize>)
        ensures
            r@ == self@.filtered,
    {
        &self.filtered
    }

    /// Ask the metadata source for the preview of the row under the
    /// cursor, once per row.
    fn ensure_preview_for_cursor(&mut self)
        requires
            old(self).wf(),
        ensures
            final(self).wf(),
            preview_loaded(old(self)@, final(self)@),
    {
        if self.cursor >= self.filtered.len() {
            proof {
                assert(self@.loaded =~= old(self)@.loaded);
                assert(self@.metas =~= old(self)@.metas);
            }
            return;
        }
        let idx = self.filtered[self.cursor];
        if self.rows[idx].meta_loaded {
            proof {
                assert(self@.loaded =~= old(self)@.loaded.update(idx as int, true));
            }
            return;
        }
        proof {
            assert(!self@.loaded[idx as int]);
            assert(!old(self)@.fetched.contains(idx));
        }
        let meta = self.source.fetch(&self.rows[idx].session);
        self.fetched = Ghost(self.fetched@.push(idx));
        let ghost before = self.rows@;
        let mut row = self.rows.remove(idx);
        row.meta = meta;
        row.meta_loaded = true;
        self.rows.insert(idx, row);
        proof {
            assert(self.rows@ =~= before.update(idx as int, row));
            assert(self@.sessions =~= old(self)@.sessions);
            assert(self@.loaded =~= old(self)@.loaded.update(idx as int, true));
            let f0 = old(self)@.fetched;
            assert(self@.fetched == f0.push(idx));
            assert forall|a: int, b: int| 0 <= a < b < self@.fetched.len() implies self@.fetched[a]
                != self@.fetched[b] by {
                if b == f0.len() {
                    assert(f0[a] == self@.fetched[a]);
                }
            }
            assert forall|ru: usize| (ru as int) < self@.loaded.len() implies (#[trigger] self@.loaded[ru as int]
                <==> self@.fetched.contains(ru)) by {
                let r = ru as int;
                let was = old(self)@.loaded[r];
                assert(was <==> f0.contains(ru));
                if ru == idx {
                    assert(self@.fetched[f0.len() as int] == idx);
                } else {
                    assert(self@.loaded[r] == was);
                    if was {
                        let w = choose|w: int| 0 <= w < f0.len() && f0[w] == ru;
                        assert(self@.fetched[w] == ru);
                    }
                    if self@.fetched.contains(ru) {
                        let w = choose|w: int| 0 <= w < self@.fetched.len() && self@.fetched[w] == ru;
                        assert(w < f0.len());
                        assert(f0[w] == ru);
                        assert(f0.contains(ru));
                    }
                }
            }
        }
    }

    /// Consume a staged open request: the session under the cursor.
    pub fn take_open_request(&mut self) -> (r: Option<SessionFile>)
        requires
            old(self).wf(),
        ensures
            final(self).wf(),
            final(self)@ == (PickerModel { open_requested: false, ..old(self)@ }),
            match r {
                Some(s) => old(self)@.open_requested && old(self)@.cursor < old(self)@.filtered.len()
                    && s@ == old(self)@.sessions[old(self)@.filtered[old(self)@.cursor as int] as int],
                None => !(old(self)@.open_requested && old(self)@.cursor < old(self)@.filtered.len()),
            },
    {
        if !self.open_requested {
            return None;
        }
        self.open_requested = false;
        if self.cursor < self.filtered.len() {
            let idx = self.filtered[self.cursor];
            Some(self.rows[idx].session.duplicate())
        } else {
            None
        }
    }

    pub fn move_down(&mut self)
        requires
            old(self).wf(),
        ensures
            final(self).wf(),
            moved_down(old(self)@, final(self)@),
    {
        if self.filtered.len() == 0 {
            return;
        }
        if self.cursor + 1 < self.filtered.len() {
            self.cursor += 1;
            self.ensure_preview_for_cursor();
        }
    }

    pub fn move_up(&mut self)
        requires
            old(self).wf(),
        ensures
            final(self).wf(),
            moved_up(old(self)@, final(self)@),
    {
        if self.cursor > 0 {
            self.cursor -= 1;
            self.ensure_preview_for_cursor();
        }
    }

    pub fn jump_top(&mut self)
        requires
            old(self).wf(),
        ensures
            final(self).wf(),
            jumped_top(old(self)@, final(self)@),
    {
        self.cursor = 0;
        self.ensure_preview_for_cursor();
    }

    pub fn jump_bottom(&mut self)
        requires
            old(self).wf(),
        ensures
            final(self).wf(),
            jumped_bottom(old(self)@, final(self)@),
    {
        if self.filtered.len() > 0 {
            self.cursor = self.filtered.len() - 1;
            self.ensure_preview_for_cursor();
        }
    }

    /// Enter: stage the row under the cursor for opening.
    pub fn request_open(&mut self)
        requires
            old(self).wf(),
        ensures
            final(self).wf(),
            final(self)@ == (PickerModel {
                open_requested: old(self)@.open_requested || old(self)@.filtered.len() > 0,
                ..old(self)@
            }),
    {
        if self.filtered.len() > 0 {
            self.open_requested = true;
        }
    }

    pub fn enter_search(&mut self)
        requires
            old(self).wf(),
        ensures
            final(self).wf(),
            final(self)@ == (PickerModel { search_mode: true, ..old(self)@ }),
    {
        self.search_mode = true;
    }

    pub fn exit_search(&mut self)
        requires
            old(self).wf(),
        ensures
            final(self).wf(),
            final(self)@ == (PickerModel { search_mode: false, ..old(self)@ }),
    {
        self.search_mode = false;
    }

    pub fn push_search_char(&mut self, c: char)
        requires
            old(self).wf(),
        ensures
            final(self).wf(),
            query_pushed(old(self)@, c, final(self)@),
    {
        string_push(&mut self.search_query, c);
        self.recompute_filter();
    }

    pub fn pop_search_char(&mut self)
        requires
            old(self).wf(),
        ensures
            final(self).wf(),
            query_popped(old(self)@, final(self)@),
    {
        let cs = chars_of(self.search_query.as_str());
        if cs.len() > 0 {
            self.search_query = string_from_range(&cs, 0, cs.len() - 1);
            assert(self.search_query@ =~= old(self)@.query.drop_last());
            self.recompute_filter();
        }
    }

    pub fn clear_search(&mut self)
        requires
            old(self).wf(),
        ensures
            final(self).wf(),
            query_cleared(old(self)@, final(self)@),
    {
        if !self.search_query.as_str().is_empty() {
            self.search_query = String::new();
            self.recompute_filter();
        }
    }

    fn searchable_text(&self, i: usize) -> (r: String)
        requires
            i < self.rows@.len(),
        ensures
            r@ == searchable(self@.sessions[i as int], self@.metas[i as int]),
    {
        let row = &self.rows[i];
        let mut s = owned(row.session.project_cwd.as_str());
        push_str(&mut s, " ");
        push_str(&mut s, row.session.session_id.as_str());
        match &row.meta.first_prompt {
            Some(p) => {
                push_str(&mut s, " ");
                push_str(&mut s, p.as_str());
            },
            None => {},
        }
        s
    }

    /// Rescore the rows against the query and put the cursor on the first.
    fn recompute_filter(&mut self)
        requires
            old(self)@.metas.len() == old(self)@.sessions.len(),
            old(self)@.loaded.len() == old(self)@.sessions.len(),
            fetch_record_wf(old(self)@),
        ensures
            final(self).wf(),
            refiltered(old(self)@, final(self)@),
    {
        if self.search_query.as_str().is_empty() {
            let mut f: Vec<usize> = Vec::new();
            let mut i: usize = 0;
            while i < self.rows.len()
                invariant
                    i <= self.rows@.len(),
                    f@.len() == i,
                    forall|j: int| 0 <= j < i ==> (#[trigger] f@[j]) == j,
                decreases self.rows.len() - i,
            {
                f.push(i);
                i += 1;
            }
            self.filtered = f;
            self.cursor = 0;
            proof {
                assert(self@.filtered =~= filter_rows(old(self)@.sessions, old(self)@.metas, old(self)@.query));
            }
            let ghost mid = self@;
            self.ensure_preview_for_cursor();
            return;
        }
        let ghost sess = self@.sessions;
        let ghost metas = self@.metas;
        let ghost q = self@.query;
        let mut scored: Vec<(u32, usize)> = Vec::new();
        let mut i: usize = 0;
        while i < self.rows.len()
            invariant
                i <= self.rows@.len(),
                sess == self@.sessions,
                metas == self@.metas,
                q == self@.query,
                metas.len() == sess.len(),
                scored@ == scored_rows(sess.take(i as int), metas, q),
                forall|j: int| 0 <= j < scored@.len() ==> (#[trigger] scored@[j]).1 < i,
            decreases self.rows.len() - i,
        {
            let hay = self.searchable_text(i);
            proof {
                assert(sess.take(i + 1).drop_last() =~= sess.take(i as int));
                assert(sess.take(i + 1)[i as int] == sess[i as int]);
            }
            match fuzzy_score(self.search_query.as_str(), hay.as_str()) {
                Some(score) => scored.push((score, i)),
                None => {},
            }
            i += 1;
        }
        assert(sess.take(self.rows@.len() as int) =~= sess);
        let mut keys: Vec<(i64, u64)> = Vec::new();
        let ghost kv = score_keys(scored@);
        let mut k: usize = 0;
        while k < scored.len()
            invariant
                k <= scored@.len(),
                kv == score_keys(scored@),
                keys@.len() == k,
                forall|j: int|
                    0 <= j < k ==> ((#[trigger] keys@[j]).0 as int, keys@[j].1 as int) == kv[j],
            decreases scored.len() - k,
        {
            keys.push((scored[k].0 as i64, 0));
            k += 1;
        }
        let order = sort_indices(&keys, Ghost(kv));
        proof {
            lemma_sorted_order_len(kv, scored@.len() as nat);
        }
        let mut f: Vec<usize> = Vec::new();
        let mut t: usize = 0;
        while t < order.len()
            invariant
                t <= order@.len(),
                order@ == sorted_order(kv, scored@.len() as nat),
                order@.len() == scored@.len(),
                forall|j: int| 0 <= j < order@.len() ==> (#[trigger] order@[j]) < scored@.len(),
                forall|j: int| 0 <= j < scored@.len() ==> (#[trigger] scored@[j]).1 < sess.len(),
                f@.len() == t,
                forall|j: int| 0 <= j < t ==> (#[trigger] f@[j]) == scored@[order@[j] as int].1,
            decreases order.len() - t,
        {
            let o = order[t];
            f.push(scored[o].1);
            t += 1;
        }
        self.filtered = f;
        self.cursor = 0;
        proof {
            assert(self@.filtered =~= filter_rows(old(self)@.sessions, old(self)@.metas, old(self)@.query));
        }
        self.ensure_preview_for_cursor();
    }
}

/// The picker's header: how many sessions there are, and with a query how
/// many of them match it.
pub open spec fn picker_title_text(m: PickerModel) -> Seq<char> {
    if m.query.len() == 0 {
        "session scrollback — "@ + decimal(m.sessions.len()) + " sessions"@
    } else {
        "session scrollback — "@ + decimal(m.filtered.len()) + "/"@ + decimal(m.sessions.len())
            + " sessions · filter “"@ + m.query + "”"@
    }
}

/// The picker's footer: the query being typed, or the key help.
pub open spec fn picker_footer_text(m: PickerModel) -> Seq<char> {
    if m.search_mode {
        "/"@ + m.query + "  (Esc cancel · ↵ confirm)"@
    } else {
        "j/k move  ·  / search  ·  ↵ open  ·  q quit"@
    }
}

impl<S: SessionMetadataSource> PickerState<S> {
    pub fn picker_title(&self) -> (r: String)
        ensures
            r@ == picker_title_text(self@),
    {
        let mut out = owned("session scrollback — ");
        if self.search_query.as_str().is_empty() {
            push_str(&mut out, usize_to_string(self.rows.len()).as_str());
            push_str(&mut out, " sessions");
        } else {
            push_str(&mut out, usize_to_string(self.filtered.len()).as_str());
            push_str(&mut out, "/");
            push_str(&mut out, usize_to_string(self.rows.len()).as_str());
            push_str(&mut out, " sessions · filter “");
            push_str(&mut out, self.search_query.as_str());
            push_str(&mut out, "”");
        }
        out
    }

    pub fn picker_footer(&self) -> (r: String)
        ensures
            r@ == picker_footer_text(self@),
    {
        if self.search_mode {
            let mut out = owned("/");
            push_str(&mut out, self.search_query.as_str());
            push_str(&mut out, "  (Esc cancel · ↵ confirm)");
            out
        } else {
            owned("j/k move  ·  / search  ·  ↵ open  ·  q quit")
        }
    }
}

/// After a rescore: the shown rows follow the query, the cursor is on
/// the first, and its preview has been fetched.
pub open spec fn refiltered(old: PickerModel, new: PickerModel) -> bool {
    preview_loaded(
        PickerModel {
            filtered: filter_rows(old.sessions, old.metas, old.query),
            cursor: 0,
            ..old
        },
        new,
    )
}

/// `j`: one row down, unless on the last shown row.
pub open spec fn moved_down(m: PickerModel, n: PickerModel) -> bool {
    if m.cursor + 1 < m.filtered.len() {
        preview_loaded(PickerModel { cursor: m.cursor + 1, ..m }, n)
    } else {
        n == m
    }
}

/// `k`: one row up, unless on the first.
pub open spec fn moved_up(m: PickerModel, n: PickerModel) -> bool {
    if m.cursor > 0 {
        preview_loaded(PickerModel { cursor: (m.cursor - 1) as nat, ..m }, n)
    } else {
        n == m
    }
}

/// `g`: the first shown row.
pub open spec fn jumped_top(m: PickerModel, n: PickerModel) -> bool {
    preview_loaded(PickerModel { cursor: 0, ..m }, n)
}

/// `G`: the last shown row, when there is one.
pub open spec fn jumped_bottom(m: PickerModel, n: PickerModel) -> bool {
    if m.filtered.len() > 0 {
        preview_loaded(PickerModel { cursor: (m.filtered.len() - 1) as nat, ..m }, n)
    } else {
        n == m
    }
}

/// A character typed into the query, and the rows rescored.
pub open spec fn query_pushed(m: PickerModel, c: char, n: PickerModel) -> bool {
    refiltered(PickerModel { query: m.query.push(c), ..m }, n)
}

/// The last character of the query erased, when there is one.
pub open spec fn query_popped(m: PickerModel, n: PickerModel) -> bool {
    if m.query.len() > 0 {
        refiltered(PickerModel { query: m.query.drop_last(), ..m }, n)
    } else {
        n == m
    }
}

/// The query emptied, when it was not.
pub open spec fn query_cleared(m: PickerModel, n: PickerModel) -> bool {
    if m.query.len() > 0 {
        refiltered(PickerModel { query: Seq::empty(), ..m }, n)
    } else {
        n == m
    }
}

// ---------------------------------------------------------------------
// keys
// ---------------------------------------------------------------------

/// Whether a key on the picker ends the program: `q`, or `Esc` with no
/// query to clear, outside search.
pub open spec fn picker_key_quits(m: PickerModel, code: KeyCode) -> bool {
    !m.search_mode && match code {
        KeyCode::Char(c) => c == 'q',
        KeyCode::Esc => m.query.len() == 0,
        _ => false,
    }
}

/// What a key does to the picker. While searching, keys edit the query
/// (`Esc` also drops it, `Enter` keeps it); otherwise they move, search,
/// open, or clear the query.
pub open spec fn picker_key_effect(m: PickerModel, code: KeyCode, n: PickerModel) -> bool {
    if m.search_mode {
        match code {
            KeyCode::Esc => query_cleared(PickerModel { search_mode: false, ..m }, n),
            KeyCode::Enter => n == PickerModel { search_mode: false, ..m },
            KeyCode::Backspace => query_popped(m, n),
            KeyCode::Char(c) => query_pushed(m, c, n),
            _ => n == m,
        }
    } else {
        match code {
            KeyCode::Esc => query_cleared(m, n),
            KeyCode::Down => moved_down(m, n),
            KeyCode::Up => moved_up(m, n),
            KeyCode::Home => jumped_top(m, n),
            KeyCode::End => jumped_bottom(m, n),
            KeyCode::Enter => n == PickerModel {
                open_requested: m.open_requested || m.filtered.len() > 0,
                ..m
            },
            KeyCode::Char(c) => if c == 'j' {
                moved_down(m, n)
            } else if c == 'k' {
                moved_up(m, n)
            } else if c == 'g' {
                jumped_top(m, n)
            } else if c == 'G' {
                jumped_bottom(m, n)
            } else if c == '/' {
                n == PickerModel { search_mode: true, ..m }
            } else {
                n == m
            },
            _ => n == m,
        }
    }
}

/// Apply one key press to the picker; `should_quit` is raised by `q`,
/// or by `Esc` when there is no query to clear.
pub fn handle_picker_key<S: SessionMetadataSource>(
    state: &mut PickerState<S>,
    code: KeyCode,
    should_quit: &mut bool,
)
    requires
        old(state).wf(),
    ensures
        final(state).wf(),
        picker_key_effect(old(state)@, code, final(state)@),
        *final(should_quit) == (*old(should_quit) || picker_key_quits(old(state)@, code)),
{
    if state.search_mode {
        match code {
            KeyCode::Esc => {
                state.exit_search();
                state.clear_search();
            },
            KeyCode::Enter => state.exit_search(),
            KeyCode::Backspace => state.pop_search_char(),
            KeyCode::Char(c) => state.push_search_char(c),
            _ => {},
        }
        return ;
    }
    match code {
        KeyCode::Char('q') => *should_quit = true,
        KeyCode::Esc => {
            if state.search_query().is_empty() {
                *should_quit = true;
            } else {
                state.clear_search();
            }
        },
        KeyCode::Char('j') | KeyCode::Down => state.move_down(),
        KeyCode::Char('k') | KeyCode::Up => state.move_up(),
        KeyCode::Char('g') | KeyCode::Home => state.jump_top(),
        KeyCode::Char('G') | KeyCode::End => state.jump_bottom(),
        KeyCode::Char('/') => state.enter_search(),
        KeyCode::Enter => state.request_open(),
        _ => {},
    }
}

// ---------------------------------------------------------------------
// display helpers
// ---------------------------------------------------------------------

/// How long ago a file changed, coarsely: seconds, minutes, hours, days,
/// then 30-day months.
pub open spec fn age_text(secs: nat) -> Seq<char> {
    if secs < 60 {
        decimal(secs) + "s ago"@
    } else if secs < 3600 {
        decimal(secs / 60) + "m ago"@
    } else if secs < 86400 {
        decimal(secs / 3600) + "h ago"@
    } else if secs < 2592000 {
        decimal(secs / 86400) + "d ago"@
    } else {
        decimal(secs / 2592000) + "mo ago"@
    }
}

/// The "modified" column: `age` is how many seconds ago the file changed,
/// `None` for a time in the future.
pub fn format_relative_mtime(age: Option<u64>) -> (r: String)
    ensures
        r@ == match age {
            Some(secs) => age_text(secs as nat),
            None => "future"@,
        },
{
    match age {
        None => owned("future"),
        Some(secs) => {
            let (n, unit) = if secs < 60 {
                (secs, "s ago")
            } else if secs < 3600 {
                (secs / 60, "m ago")
            } else if secs < 86400 {
                (secs / 3600, "h ago")
            } else if secs < 2592000 {
                (secs / 86400, "d ago")
            } else {
                (secs / 2592000, "mo ago")
            };
            let mut out = u64_to_string(n);
            push_str(&mut out, unit);
            out
        },
    }
}

/// Path components written back as a path: a leading root is `/`, the
/// rest are joined with `/`.
pub open spec fn components_text(cs: Seq<Seq<char>>) -> Seq<char> {
    if cs.len() > 0 && cs[0] == "/"@ {
        "/"@ + join_with(cs.drop_first(), "/"@)
    } else {
        join_with(cs, "/"@)
    }
}

/// A project path for display: under `home` it is written from `~`,
/// anything else is shown as it is.
pub open spec fn home_relative(path: Seq<char>, home: Option<Seq<char>>) -> Seq<char> {
    match home {
        Some(h) => if path_starts_with(path, h) {
            let rest = path_components(path).skip(path_components(h).len() as int);
            if rest.len() == 0 {
                "~"@
            } else {
                "~/"@ + components_text(rest)
            }
        } else {
            path
        },
        None => path,
    }
}

/// The user's home directory, as text.
///
/// Calls `dirs::home_dir`, which reads `$HOME` (or the password database)
/// and never gives an empty path. What it finds depends on the
/// environment, so only that it is non-empty is stated. A home that is
/// not valid UTF-8 comes back as `None`.
#[verifier::external_body]
fn home_dir() -> (r: Option<String>)
    ensures
        r matches Some(h) ==> h@.len() > 0,
{
    dirs::home_dir().and_then(|p| p.into_os_string().into_string().ok())
}

/// `path` written from `~` when it lies under `home`.
pub fn display_path_under(path: &str, home: Option<&str>) -> (r: String)
    ensures
        r@ == home_relative(path@, match home {
            Some(h) => Some(h@),
            None => None,
        }),
{
    match home {
        None => owned(path),
        Some(h) => {
            if !starts_with_path(path, h) {
                return owned(path);
            }
            let pc = components(path);
            let hc = components(h);
            let ghost pv = texts_of(pc@);
            let ghost rest = pv.skip(hc@.len() as int);
            if pc.len() == hc.len() {
                assert(rest.len() == 0);
                return owned("~");
            }
            let mut out = owned("~/");
            let mut i: usize = hc.len();
            if str_eq(pc[i].as_str(), "/") {
                push_str(&mut out, "/");
                i += 1;
            }
            let start: usize = i;
            let ghost parts = rest.subrange((start - hc.len()) as int, rest.len() as int);
            assert(parts.take(0) =~= Seq::<Seq<char>>::empty());
            while i < pc.len()
                invariant
                    hc@.len() <= start <= i <= pc@.len(),
                    pv == texts_of(pc@),
                    rest == pv.skip(hc@.len() as int),
                    parts == pv.subrange(start as int, pc@.len() as int),
                    out@ == (if start > hc@.len() { "~/"@ + "/"@ } else { "~/"@ }) + join_with(
                        parts.take((i - start) as int),
                        "/"@,
                    ),
                decreases pc.len() - i,
            {
                proof {
                    assert(parts.take((i + 1 - start) as int).drop_last() =~= parts.take(
                        (i - start) as int,
                    ));
                }
                if i > start {
                    push_str(&mut out, "/");
                }
                push_str(&mut out, pc[i].as_str());
                i += 1;
            }
            proof {
                assert(parts.take((pc@.len() - start) as int) =~= parts);
                if start > hc@.len() {
                    assert(rest[0] == "/"@);
                    assert(rest.drop_first() =~= parts);
                } else {
                    assert(rest =~= parts);
                }
            }
            out
        },
    }
}

/// `path` written from `~` when it lies under the user's home directory.
pub fn display_path(path: &str) -> (r: String)
    ensures
        exists|h: Option<Seq<char>>| (h matches Some(hs) ==> hs.len() > 0) && r@ == home_relative(path@, h),
{
    let home = home_dir();
    match home {
        Some(h) => display_path_under(path, Some(h.as_str())),
        None => display_path_under(path, None),
    }
}

fn key_at_least(keys: &Vec<(i64, u64)>, i: usize, ka: i64, kb: u64) -> (b: bool)
    requires
        i < keys@.len(),
    ensures
        b == key_ge((keys@[i as int].0 as int, keys@[i as int].1 as int), (ka as int, kb as int)),
{
    let (ya, yb) = keys[i];
    ya > ka || (ya == ka && yb >= kb)
}

/// Stable descending insertion sort of `keys`, as indices.
fn sort_indices(keys: &Vec<(i64, u64)>, Ghost(kv): Ghost<Seq<(int, int)>>) -> (order: Vec<usize>)
    requires
        kv.len() == keys@.len(),
        forall|j: int|
            0 <= j < keys@.len() ==> ((#[trigger] keys@[j]).0 as int, keys@[j].1 as int) == kv[j],
    ensures
        order@ == sorted_order(kv, keys@.len() as nat),
{
    let mut order: Vec<usize> = Vec::new();
    let mut n: usize = 0;
    while n < keys.len()
        invariant
            n <= keys@.len(),
            kv.len() == keys@.len(),
            forall|j: int|
                0 <= j < keys@.len() ==> ((#[trigger] keys@[j]).0 as int, keys@[j].1 as int)
                    == kv[j],
            order@ == sorted_order(kv, n as nat),
        decreases keys.len() - n,
    {
        proof {
            lemma_sorted_order_len(kv, n as nat);
        }
        let ghost o = order@;
        let (ka, kb) = keys[n];
        let mut p: usize = 0;
        assert(o.skip(0) =~= o);
        while p < order.len() && key_at_least(keys, order[p], ka, kb)
            invariant
                p <= order@.len(),
                order@ == o,
                o == sorted_order(kv, n as nat),
                o.len() == n,
                n < keys@.len(),
                forall|j: int| 0 <= j < o.len() ==> (#[trigger] o[j]) < n,
                kv.len() == keys@.len(),
                forall|j: int|
                    0 <= j < keys@.len() ==> ((#[trigger] keys@[j]).0 as int, keys@[j].1 as int)
                        == kv[j],
                (ka as int, kb as int) == kv[n as int],
                insert_pos(o, kv, n) == p + insert_pos(o.skip(p as int), kv, n),
            decreases order.len() - p,
        {
            proof {
                assert(o.skip(p as int)[0] == o[p as int]);
                assert(o.skip(p as int).drop_first() =~= o.skip(p + 1));
            }
            p += 1;
        }
        proof {
            if p < order.len() {
                assert(o.skip(p as int)[0] == o[p as int]);
            }
            assert(insert_pos(o.skip(p as int), kv, n) == 0);
        }
        order.insert(p, n);
        proof {
            assert(order@ =~= o.take(p as int).push(n) + o.skip(p as int));
        }
        n += 1;
    }
    order
}

} // verus!
