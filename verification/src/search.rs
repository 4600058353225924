//! Case-insensitive substring search over the rendered line cache.
//!
//! The plain text of every line is ASCII-lowercased and concatenated into
//! one haystack, each line followed by `\n`, remembering the byte offset
//! where each line starts (plus a final sentinel). A query is lowercased
//! the same way and searched with `memchr::memmem`; each hit is mapped
//! back to `(line, byte_start, byte_end)` through the offset table.
//! Matches inside collapsed blocks are not found: only rendered lines are
//! indexed.

use vstd::prelude::*;
use vstd::utf8::*;

use crate::layout::{rlines_view, RenderedLine, RenderedLineModel};
use crate::style::{line_text, spans_view, SpanModel};
use crate::state::{index_starts, search_lines};
use crate::text::{
    ascii_lower, byte_len, chars_of, fold_ascii, lemma_ascii_fold_ascii_len, lemma_byte_len_push,
    lemma_encode_utf8_concat, owned, string_push, utf8_len,
};

verus! {

// ---------------------------------------------------------------------
// the outside substring search
// ---------------------------------------------------------------------

/// `n` occurs in `h` at byte `i`.
pub open spec fn occurs_at(h: Seq<u8>, n: Seq<u8>, i: int) -> bool {
    0 <= i && i + n.len() <= h.len() && h.subrange(i, i + n.len()) == n
}

/// Start offsets of the non-overlapping occurrences of a non-empty `n` in
/// `h` at or after `from`, found left to right: after a hit at `i` the
/// search resumes at `i + n.len()`.
pub open spec fn occurrences(h: Seq<u8>, n: Seq<u8>, from: int) -> Seq<int>
    decreases h.len() - from,
{
    if n.len() == 0 || from < 0 || from + n.len() > h.len() {
        Seq::empty()
    } else if occurs_at(h, n, from) {
        seq![from] + occurrences(h, n, from + n.len())
    } else {
        occurrences(h, n, from + 1)
    }
}

/// `memchr::memmem::Finder::new(needle).find_iter(haystack)`, collected.
/// Per the crate's source, the iterator reports the leftmost match at or
/// after its position and then moves its position past the match
/// (`pos + needle.len().max(1)`), so for a non-empty needle it yields the
/// non-overlapping occurrences from left to right.
#[verifier::external_body]
fn memmem_find_all(haystack: &[u8], needle: &[u8]) -> (r: Vec<usize>)
    requires
        needle@.len() > 0,
    ensures
        r@.map_values(|x: usize| x as int) == occurrences(haystack@, needle@, 0),
{
    memchr::memmem::Finder::new(needle).find_iter(haystack).collect()
}

// ---------------------------------------------------------------------
// index model
// ---------------------------------------------------------------------

/// Lowercased plain text of `ls`, each line followed by `\n`.
pub open spec fn haystack(ls: Seq<RenderedLineModel>) -> Seq<char>
    decreases ls.len(),
{
    if ls.len() == 0 {
        Seq::empty()
    } else {
        haystack(ls.drop_last()) + fold_ascii(line_text(ls.last().line)) + seq!['\n']
    }
}

/// One hit, in the coordinates of the line cache: the line, and the byte
/// range of the match within that line's plain text.
#[derive(Debug, Clone, Copy, PartialEq, Eq, Structural)]
pub struct SearchMatch {
    pub line: usize,
    pub byte_start: usize,
    pub byte_end: usize,
}

/// A prebuilt, case-insensitive substring index over rendered lines.
pub struct SearchIndex {
    haystack: String,
    /// Byte offset where each line starts, then the haystack's length.
    line_starts: Vec<usize>,
}

pub ghost struct SearchIndexModel {
    pub hay: Seq<char>,
    pub starts: Seq<usize>,
}

impl View for SearchIndex {
    type V = SearchIndexModel;

    closed spec fn view(&self) -> SearchIndexModel {
        SearchIndexModel { hay: self.haystack@, starts: self.line_starts@ }
    }
}

/// A line-start table fits its haystack: it starts at 0, ends at the
/// haystack's byte length, and strictly increases.
pub open spec fn starts_fit(hay: Seq<char>, starts: Seq<usize>) -> bool {
    &&& starts.len() >= 1
    &&& starts[0] == 0
    &&& starts.last() as nat == byte_len(hay)
    &&& forall|i: int, j: int| 0 <= i < j < starts.len() ==> starts[i] < starts[j]
}

impl SearchIndex {
    #[verifier::type_invariant]
    closed spec fn wf(self) -> bool {
        starts_fit(self.haystack@, self.line_starts@)
    }
}

/// `slice::partition_point(|s| s <= o)`: the length of the leading run of
/// starts at or before `o`.
pub open spec fn partition(starts: Seq<usize>, o: int) -> nat
    decreases starts.len(),
{
    if starts.len() == 0 {
        0
    } else if starts[0] <= o {
        1 + partition(starts.drop_first(), o)
    } else {
        0
    }
}

/// The line containing byte `o`.
pub open spec fn line_of(starts: Seq<usize>, o: int) -> int {
    let p = partition(starts, o);
    if p > 0 {
        p - 1
    } else {
        0
    }
}

/// The match a hit at byte `o` of length `nlen` gives, unless it runs past
/// the end of its line.
pub open spec fn match_at(starts: Seq<usize>, o: int, nlen: int) -> Option<SearchMatch> {
    let line = line_of(starts, o);
    let ls = starts[line] as int;
    let le = if starts[line + 1] > 0 {
        starts[line + 1] - 1
    } else {
        0
    };
    let bs = o - ls;
    let be = o + nlen - ls;
    if ls + be > le {
        None
    } else {
        Some(SearchMatch { line: line as usize, byte_start: bs as usize, byte_end: be as usize })
    }
}

pub open spec fn matches_of(starts: Seq<usize>, offs: Seq<int>, nlen: int) -> Seq<SearchMatch>
    decreases offs.len(),
{
    if offs.len() == 0 {
        Seq::empty()
    } else {
        let prev = matches_of(starts, offs.drop_last(), nlen);
        match match_at(starts, offs.last(), nlen) {
            Some(m) => prev.push(m),
            None => prev,
        }
    }
}

/// Every match of `q` in the index: none for an empty query, a query with
/// a newline, or an empty index; otherwise the non-overlapping
/// occurrences of the lowercased query, mapped to lines.
pub open spec fn find_matches(hay: Seq<char>, starts: Seq<usize>, q: Seq<char>) -> Seq<SearchMatch> {
    if q.len() == 0 || q.contains('\n') || hay.len() == 0 {
        Seq::empty()
    } else {
        let n = fold_ascii(q);
        matches_of(starts, occurrences(encode_utf8(hay), encode_utf8(n), 0), byte_len(n) as int)
    }
}

// ---------------------------------------------------------------------
// lemmas
// ---------------------------------------------------------------------

pub proof fn lemma_utf8_len_pos(c: char)
    ensures
        1 <= utf8_len(c) <= 4,
{
}

pub proof fn lemma_byte_len_nonempty(s: Seq<char>)
    ensures
        s.len() > 0 ==> byte_len(s) > 0,
{
    if s.len() > 0 {
        lemma_encode_utf8_concat(seq![s[0]], s.drop_first());
        assert(seq![s[0]] + s.drop_first() =~= s);
        assert(seq![s[0]].drop_first() =~= Seq::<char>::empty());
        assert(encode_utf8(seq![s[0]]) =~= encode_scalar(s[0] as u32) + encode_utf8(
            Seq::<char>::empty(),
        ));
        lemma_utf8_len_pos(s[0]);
    }
}

pub proof fn lemma_occurrences_in_range(h: Seq<u8>, n: Seq<u8>, from: int)
    ensures
        forall|k: int|
            0 <= k < occurrences(h, n, from).len() ==> from <= #[trigger] occurrences(
                h,
                n,
                from,
            )[k] && occurrences(h, n, from)[k] + n.len() <= h.len(),
    decreases h.len() - from,
{
    if n.len() == 0 || from < 0 || from + n.len() > h.len() {
    } else if occurs_at(h, n, from) {
        lemma_occurrences_in_range(h, n, from + n.len());
        let r = occurrences(h, n, from + n.len());
        let all = occurrences(h, n, from);
        assert(all == seq![from] + r);
        assert forall|k: int| 0 <= k < all.len() implies from <= #[trigger] all[k] && all[k]
            + n.len() <= h.len() by {
            if k > 0 {
                assert(all[k] == r[k - 1]);
            }
        }
    } else {
        lemma_occurrences_in_range(h, n, from + 1);
        assert(occurrences(h, n, from) == occurrences(h, n, from + 1));
    }
}

/// In a strictly increasing table, a byte inside `[s[k], s[k + 1])` has
/// `k + 1` starts at or before it.
pub proof fn lemma_partition_at(s: Seq<usize>, k: int, o: int)
    requires
        0 <= k,
        k + 1 < s.len(),
        s[k] <= o < s[k + 1],
        forall|i: int, j: int| 0 <= i < j < s.len() ==> s[i] < s[j],
    ensures
        partition(s, o) == k + 1,
    decreases k,
{
    if k == 0 {
        assert(s.drop_first()[0] == s[1]);
        assert(partition(s.drop_first(), o) == 0);
    } else {
        assert(s[0] < s[k]);
        let t = s.drop_first();
        assert forall|i: int, j: int| 0 <= i < j < t.len() implies t[i] < t[j] by {
            assert(t[i] == s[i + 1] && t[j] == s[j + 1]);
        }
        assert(t[k - 1] == s[k] && t[k] == s[k + 1]);
        lemma_partition_at(t, k - 1, o);
        assert(s[0] <= o);
        assert(partition(s, o) == 1 + partition(t, o));
    }
}

pub(crate) proof fn lemma_fold_byte_len(t: Seq<char>)
    ensures
        byte_len(fold_ascii(t)) == byte_len(t),
    decreases t.len(),
{
    if t.len() > 0 {
        let u = t.drop_last();
        lemma_fold_byte_len(u);
        assert(fold_ascii(t) =~= fold_ascii(u).push(ascii_lower(t.last())));
        assert(t =~= u.push(t.last()));
        lemma_byte_len_push(fold_ascii(u), ascii_lower(t.last()));
        lemma_byte_len_push(u, t.last());
        lemma_ascii_fold_ascii_len(t.last());
    }
}

/// Byte length of the haystack of the first `k` lines.
pub open spec fn hay_bytes(ls: Seq<RenderedLineModel>, k: int) -> nat {
    byte_len(haystack(ls.take(k)))
}

pub(crate) proof fn lemma_hay_step(ls: Seq<RenderedLineModel>, k: int)
    requires
        0 <= k < ls.len(),
    ensures
        hay_bytes(ls, k + 1) == hay_bytes(ls, k) + byte_len(line_text(ls[k].line)) + 1,
{
    let t = ls.take(k + 1);
    assert(t.drop_last() =~= ls.take(k));
    assert(t.last() == ls[k]);
    let f = fold_ascii(line_text(ls[k].line));
    lemma_encode_utf8_concat(haystack(ls.take(k)) + f, seq!['\n']);
    lemma_encode_utf8_concat(haystack(ls.take(k)), f);
    lemma_fold_byte_len(line_text(ls[k].line));
    lemma_byte_len_push(Seq::<char>::empty(), '\n');
    assert(Seq::<char>::empty().push('\n') =~= seq!['\n']);
    assert(encode_utf8(Seq::<char>::empty()).len() == 0);
}

pub(crate) proof fn lemma_hay_ge(ls: Seq<RenderedLineModel>, k: int)
    requires
        0 <= k <= ls.len(),
    ensures
        hay_bytes(ls, k) >= k,
    decreases k,
{
    if k > 0 {
        lemma_hay_ge(ls, k - 1);
        lemma_hay_step(ls, k - 1);
    } else {
        assert(ls.take(0) =~= Seq::<RenderedLineModel>::empty());
    }
}

pub(crate) proof fn lemma_hay_mono(ls: Seq<RenderedLineModel>, i: int, j: int)
    requires
        0 <= i < j <= ls.len(),
    ensures
        hay_bytes(ls, i) < hay_bytes(ls, j),
    decreases j - i,
{
    lemma_hay_step(ls, j - 1);
    if i < j - 1 {
        lemma_hay_mono(ls, i, j - 1);
    }
}

/// The haystack of the first `n` lines is that of the first `j` followed
/// by that of lines `j..n`.
pub proof fn lemma_haystack_split(ls: Seq<RenderedLineModel>, j: int, n: int)
    requires
        0 <= j <= n <= ls.len(),
    ensures
        haystack(ls.take(n)) == haystack(ls.take(j)) + haystack(ls.subrange(j, n)),
    decreases n - j,
{
    if n == j {
        assert(ls.subrange(j, n) =~= Seq::<RenderedLineModel>::empty());
        assert(haystack(ls.take(j)) + Seq::<char>::empty() =~= haystack(ls.take(j)));
    } else {
        lemma_haystack_split(ls, j, n - 1);
        assert(ls.take(n).drop_last() =~= ls.take(n - 1));
        assert(ls.take(n).last() == ls[n - 1]);
        assert(ls.subrange(j, n).drop_last() =~= ls.subrange(j, n - 1));
        assert(ls.subrange(j, n).last() == ls[n - 1]);
        let f = fold_ascii(line_text(ls[n - 1].line)) + seq!['\n'];
        assert(haystack(ls.take(n)) =~= haystack(ls.take(n - 1)) + f);
        assert(haystack(ls.subrange(j, n)) =~= haystack(ls.subrange(j, n - 1)) + f);
    }
}

/// How the index lays the lines out: line `k`'s text, lowercased in
/// ASCII (which keeps its byte length), starts at byte
/// `hay_bytes(ls, k)` and is followed by one `\n`, right after which line
/// `k + 1` starts. The first line starts at byte 0 and the start after the
/// last line is the haystack's length. (`build` records these starts.)
pub proof fn law_index_line_layout(ls: Seq<RenderedLineModel>, k: int)
    requires
        0 <= k < ls.len(),
    ensures
        hay_bytes(ls, 0) == 0,
        hay_bytes(ls, ls.len() as int) == byte_len(haystack(ls)),
        byte_len(fold_ascii(line_text(ls[k].line))) == byte_len(line_text(ls[k].line)),
        hay_bytes(ls, k + 1) == hay_bytes(ls, k) + byte_len(line_text(ls[k].line)) + 1,
        encode_utf8(haystack(ls)).subrange(hay_bytes(ls, k) as int, hay_bytes(ls, k + 1) - 1)
            == encode_utf8(fold_ascii(line_text(ls[k].line))),
        encode_utf8(haystack(ls))[hay_bytes(ls, k + 1) - 1] == 10u8,
{
    let n = ls.len() as int;
    assert(ls.take(0) =~= Seq::<RenderedLineModel>::empty());
    assert(ls.take(n) =~= ls);
    lemma_fold_byte_len(line_text(ls[k].line));
    lemma_hay_step(ls, k);
    lemma_haystack_split(ls, k + 1, n);
    let t = ls.take(k + 1);
    assert(t.drop_last() =~= ls.take(k));
    assert(t.last() == ls[k]);
    let a = haystack(ls.take(k));
    let f = fold_ascii(line_text(ls[k].line));
    let r = haystack(ls.subrange(k + 1, n));
    assert(haystack(ls) == a + f + seq!['\n'] + r);
    lemma_encode_utf8_concat(a + f + seq!['\n'], r);
    lemma_encode_utf8_concat(a + f, seq!['\n']);
    lemma_encode_utf8_concat(a, f);
    assert(encode_utf8(seq!['\n']) =~= encode_scalar('\n' as u32) + encode_utf8(seq!['\n'].drop_first()));
    assert(seq!['\n'].drop_first() =~= Seq::<char>::empty());
    assert(('\n' as u32) == 10u32);
    assert((10u32 & 0x7F) as u8 == 10u8) by (bit_vector);
    assert(encode_utf8(seq!['\n']) =~= seq![10u8]);
    let ea = encode_utf8(a);
    let ef = encode_utf8(f);
    let all = ea + ef + seq![10u8] + encode_utf8(r);
    assert(encode_utf8(haystack(ls)) == all);
    assert(ea.len() == hay_bytes(ls, k));
    let lo = ea.len() as int;
    let hi = lo + ef.len();
    assert(all.subrange(lo, hi) =~= ef);
    assert(all[hi] == 10u8);
}

/// The line holding byte `o` of the haystack.
pub(crate) proof fn lemma_find_line(ls: Seq<RenderedLineModel>, o: int, n: int) -> (k: int)
    requires
        0 <= o < hay_bytes(ls, n),
        0 < n <= ls.len(),
    ensures
        0 <= k < n,
        hay_bytes(ls, k) <= o < hay_bytes(ls, k + 1),
    decreases n,
{
    if n == 1 {
        assert(ls.take(0) =~= Seq::<RenderedLineModel>::empty());
        0
    } else if o < hay_bytes(ls, n - 1) {
        lemma_find_line(ls, o, n - 1)
    } else {
        n - 1
    }
}

/// The line-start table of `ls` holds the exact byte offsets and
/// strictly increases.
pub(crate) open spec fn starts_ok(ls: Seq<RenderedLineModel>) -> bool {
    &&& forall|k: int| #![trigger hay_bytes(ls, k)] 0 <= k <= ls.len() ==> hay_bytes(ls, k) <= usize::MAX
    &&& forall|k: int| #![trigger index_starts(ls)[k]] 0 <= k <= ls.len() ==> index_starts(ls)[k] == hay_bytes(ls, k)
    &&& forall|a: int, b: int| #![trigger index_starts(ls)[a], index_starts(ls)[b]]
        0 <= a < b < index_starts(ls).len() ==> index_starts(ls)[a] < index_starts(ls)[b]
}

pub(crate) proof fn lemma_starts_ok(ls: Seq<RenderedLineModel>)
    requires
        byte_len(haystack(ls)) <= usize::MAX,
    ensures
        starts_ok(ls),
{
    assert(ls.take(ls.len() as int) =~= ls);
    assert forall|k: int| #![trigger hay_bytes(ls, k)] 0 <= k <= ls.len() implies hay_bytes(ls, k)
        <= usize::MAX by {
        if k < ls.len() {
            lemma_hay_mono(ls, k, ls.len() as int);
        }
    }
    assert forall|k: int| #![trigger index_starts(ls)[k]] 0 <= k <= ls.len() implies index_starts(ls)[k]
        == hay_bytes(ls, k) by {
        assert(hay_bytes(ls, k) <= usize::MAX);
        assert(index_starts(ls)[k] == byte_len(haystack(ls.take(k))) as usize);
    }
    assert forall|a: int, b: int| #![trigger index_starts(ls)[a], index_starts(ls)[b]]
        0 <= a < b < index_starts(ls).len() implies index_starts(ls)[a] < index_starts(ls)[b] by {
        lemma_hay_mono(ls, a, b);
        assert(index_starts(ls)[a] == hay_bytes(ls, a));
        assert(index_starts(ls)[b] == hay_bytes(ls, b));
    }
}

/// Every search hit lies inside one line of the cache: a real line, a
/// non-empty byte range, ending no later than the line's text does.
pub proof fn law_matches_inside_lines(ls: Seq<RenderedLineModel>, q: Seq<char>)
    requires
        byte_len(haystack(ls)) <= usize::MAX,
    ensures
        forall|j: int|
            0 <= j < search_lines(ls, q).len() ==> {
                let m = #[trigger] search_lines(ls, q)[j];
                &&& m.line < ls.len()
                &&& m.byte_start < m.byte_end
                &&& m.byte_end <= byte_len(line_text(ls[m.line as int].line))
            },
{
    let hay = haystack(ls);
    if !(q.len() == 0 || q.contains('\n') || hay.len() == 0) {
        let n = fold_ascii(q);
        let nlen = byte_len(n) as int;
        let h = encode_utf8(hay);
        let offs = occurrences(h, encode_utf8(n), 0);
        lemma_occurrences_in_range(h, encode_utf8(n), 0);
        lemma_byte_len_nonempty(n);
        assert(n.len() == q.len());
        assert(ls.take(ls.len() as int) =~= ls);
        lemma_starts_ok(ls);
        assert(ls.len() > 0) by {
            if ls.len() == 0 {
                assert(hay =~= Seq::<char>::empty());
            }
        }
        assert(h.len() == hay_bytes(ls, ls.len() as int));
        assert forall|k: int| 0 <= k < offs.len() implies 0 <= #[trigger] offs[k] && offs[k] + nlen
            <= hay_bytes(ls, ls.len() as int) by {}
        lemma_matches_of_inside(ls, offs, nlen);
    }
}

proof fn lemma_matches_of_inside(ls: Seq<RenderedLineModel>, offs: Seq<int>, nlen: int)
    requires
        nlen > 0,
        ls.len() > 0 || offs.len() == 0,
        starts_ok(ls),
        forall|k: int| 0 <= k < offs.len() ==> 0 <= #[trigger] offs[k] && offs[k] + nlen <= hay_bytes(ls, ls.len() as int),
    ensures
        forall|j: int|
            0 <= j < matches_of(index_starts(ls), offs, nlen).len() ==> {
                let m = #[trigger] matches_of(index_starts(ls), offs, nlen)[j];
                &&& m.line < ls.len()
                &&& m.byte_start < m.byte_end
                &&& m.byte_end <= byte_len(line_text(ls[m.line as int].line))
            },
    decreases offs.len(),
{
    let starts = index_starts(ls);
    if offs.len() > 0 {
        assert forall|k: int| 0 <= k < offs.drop_last().len() implies 0 <= #[trigger] offs.drop_last()[k]
            && offs.drop_last()[k] + nlen <= hay_bytes(ls, ls.len() as int) by {
            assert(offs.drop_last()[k] == offs[k]);
        }
        lemma_matches_of_inside(ls, offs.drop_last(), nlen);
        let prev = matches_of(starts, offs.drop_last(), nlen);
        let r = matches_of(starts, offs, nlen);
        let o = offs.last();
        assert(o == offs[offs.len() - 1]);
        match match_at(starts, o, nlen) {
            Some(m) => {
                let k = lemma_find_line(ls, o, ls.len() as int);
                assert(starts[k] == hay_bytes(ls, k));
                assert(starts[k + 1] == hay_bytes(ls, k + 1));
                lemma_partition_at(starts, k, o);
                lemma_hay_step(ls, k);
                lemma_hay_ge(ls, k);
                if k + 1 < ls.len() {
                    lemma_hay_mono(ls, k + 1, ls.len() as int);
                }
                assert(line_of(starts, o) == k);
                assert(m.line == k);
                assert(m.byte_end <= byte_len(line_text(ls[k].line)));
                assert(r == prev.push(m));
                assert forall|j: int| 0 <= j < r.len() implies {
                    let mm = #[trigger] r[j];
                    &&& mm.line < ls.len()
                    &&& mm.byte_start < mm.byte_end
                    &&& mm.byte_end <= byte_len(line_text(ls[mm.line as int].line))
                } by {
                    if j < prev.len() {
                        assert(r[j] == prev[j]);
                    }
                }
            },
            None => {
                assert(r == prev);
            },
        }
    }
}

// ---------------------------------------------------------------------
// building and querying
// ---------------------------------------------------------------------

/// ASCII-lowercase fold of `s`.
pub fn fold_ascii_str(s: &str) -> (r: String)
    ensures
        r@ == fold_ascii(s@),
{
    let cs = chars_of(s);
    let mut out = String::new();
    let mut i: usize = 0;
    while i < cs.len()
        invariant
            i <= cs.len(),
            cs@ == s@,
            out@ =~= fold_ascii(cs@.take(i as int)),
        decreases cs.len() - i,
    {
        string_push(&mut out, lower_ascii(cs[i]));
        i += 1;
    }
    assert(cs@.take(cs.len() as int) =~= cs@);
    out
}

/// `char::to_ascii_lowercase` applied to uppercase ASCII only.
pub fn lower_ascii(c: char) -> (r: char)
    ensures
        r == ascii_lower(c),
{
    if 'A' <= c && c <= 'Z' {
        let u = (c as u32) + 32;
        assert(u == (c as u32) + 32);
        let r = char_from_ascii(u);
        r
    } else {
        c
    }
}

fn char_from_ascii(u: u32) -> (c: char)
    requires
        97 <= u <= 122,
    ensures
        c as u32 == u,
{
    let b = u as u8;
    b as char
}

fn byte_len_exec(s: &String) -> (n: usize)
    ensures
        n as nat == byte_len(s@),
{
    s.as_str().as_bytes().len()
}

impl SearchIndex {
    /// Index `lines`. An empty slice gives an index that matches nothing.
    pub fn build(lines: &[RenderedLine]) -> (idx: SearchIndex)
        ensures
            idx@.hay == haystack(rlines_view(lines@)),
            idx@.starts.len() == lines@.len() + 1,
            forall|k: int|
                0 <= k <= lines@.len() ==> idx@.starts[k] as nat == byte_len(
                    haystack(rlines_view(lines@).take(k)),
                ),
    {
        let ghost lv = rlines_view(lines@);
        let mut hay = String::new();
        let mut starts: Vec<usize> = Vec::new();
        let mut i: usize = 0;
        assert(lv.take(0) =~= Seq::<RenderedLineModel>::empty());
        while i < lines.len()
            invariant
                i <= lines.len(),
                lv == rlines_view(lines@),
                hay@ == haystack(lv.take(i as int)),
                starts@.len() == i,
                forall|k: int|
                    0 <= k < i ==> starts@[k] as nat == byte_len(haystack(lv.take(k))),
                forall|a: int, b: int| 0 <= a < b < starts@.len() ==> starts@[a] < starts@[b],
                i > 0 ==> starts@[i - 1] < byte_len(hay@),
            decreases lines.len() - i,
        {
            let ghost h0 = hay@;
            let s0 = byte_len_exec(&hay);
            starts.push(s0);
            let line = &lines[i];
            let ghost lt = line_text(line.line@);
            let mut j: usize = 0;
            proof {
                assert(line.line@.take(0) =~= Seq::<SpanModel>::empty());
                assert(fold_ascii(Seq::<char>::empty()) =~= Seq::<char>::empty());
                assert(h0 + fold_ascii(line_text(line.line@.take(0))) =~= h0);
            }
            while j < line.line.spans.len()
                invariant
                    j <= line.line.spans.len(),
                    hay@ == h0 + fold_ascii(line_text(line.line@.take(j as int))),
                decreases line.line.spans.len() - j,
            {
                let cs = chars_of(line.line.spans[j].content.as_str());
                let ghost h1 = hay@;
                let mut k: usize = 0;
                while k < cs.len()
                    invariant
                        k <= cs.len(),
                        hay@ == h1 + fold_ascii(cs@.take(k as int)),
                    decreases cs.len() - k,
                {
                    string_push(&mut hay, lower_ascii(cs[k]));
                    proof {
                        assert(fold_ascii(cs@.take(k + 1)) =~= fold_ascii(cs@.take(k as int)).push(
                            ascii_lower(cs@[k as int]),
                        ));
                    }
                    k += 1;
                }
                proof {
                    let l = line.line@;
                    assert(cs@.take(cs.len() as int) =~= cs@);
                    assert(l.take(j + 1).drop_last() =~= l.take(j as int));
                    assert(l.take(j + 1).last() == l[j as int]);
                    assert(l[j as int].content == cs@);
                    assert(fold_ascii(line_text(l.take(j + 1))) =~= fold_ascii(
                        line_text(l.take(j as int)),
                    ) + fold_ascii(cs@));
                }
                j += 1;
            }
            string_push(&mut hay, '\n');
            proof {
                let l = line.line@;
                assert(l.take(l.len() as int) =~= l);
                assert(lv.take(i + 1).drop_last() =~= lv.take(i as int));
                assert(lv.take(i + 1).last() == line@);
                assert(hay@ =~= haystack(lv.take(i + 1)));
                lemma_encode_utf8_concat(h0, fold_ascii(lt) + seq!['\n']);
                lemma_byte_len_nonempty(fold_ascii(lt) + seq!['\n']);
                assert(hay@ =~= h0 + (fold_ascii(lt) + seq!['\n']));
            }
            i += 1;
        }
        let total = byte_len_exec(&hay);
        starts.push(total);
        proof {
            assert(lv.take(lines.len() as int) =~= lv);
        }
        let idx = SearchIndex { haystack: hay, line_starts: starts };
        idx
    }

    /// The line containing byte `o` of the haystack.
    fn line_of_offset(&self, o: usize) -> (r: usize)
        requires
            (o as nat) < byte_len(self@.hay),
        ensures
            r as int == line_of(self@.starts, o as int),
            r + 1 < self@.starts.len(),
            self@.starts[r as int] <= o < self@.starts[r + 1],
    {
        proof {
            use_type_invariant(self);
        }
        let s = &self.line_starts;
        // s[lo] <= o < s[hi]
        let mut lo: usize = 0;
        let mut hi: usize = s.len() - 1;
        while hi - lo > 1
            invariant
                starts_fit(self.haystack@, self.line_starts@),
                s@ == self.line_starts@,
                lo < hi < s.len(),
                s@[lo as int] <= o < s@[hi as int],
            decreases hi - lo,
        {
            let mid = lo + (hi - lo) / 2;
            if s[mid] <= o {
                lo = mid;
            } else {
                hi = mid;
            }
        }
        proof {
            assert(hi == lo + 1);
            lemma_partition_at(s@, lo as int, o as int);
        }
        lo
    }

    /// Every non-overlapping, case-insensitive match of `query`.
    pub fn find_all(&self, query: &str) -> (r: Vec<SearchMatch>)
        ensures
            r@ == find_matches(self@.hay, self@.starts, query@),
    {
        proof {
            use_type_invariant(self);
        }
        let qc = chars_of(query);
        let mut has_nl = false;
        let mut i: usize = 0;
        while i < qc.len()
            invariant
                i <= qc.len(),
                qc@ == query@,
                has_nl == exists|j: int| 0 <= j < i && qc@[j] == '\n',
            decreases qc.len() - i,
        {
            if qc[i] == '\n' {
                has_nl = true;
            }
            i += 1;
        }
        proof {
            if has_nl {
                let j = choose|j: int| 0 <= j < qc.len() && qc@[j] == '\n';
                assert(query@.contains('\n')) by {
                    assert(query@[j] == '\n');
                }
            }
        }
        if qc.len() == 0 || has_nl || self.haystack.as_str().is_empty() {
            return Vec::new();
        }
        let needle = fold_ascii_str(query);
        let nb = needle.as_str().as_bytes();
        let hb = self.haystack.as_str().as_bytes();
        proof {
            lemma_byte_len_nonempty(needle@);
        }
        let offs = memmem_find_all(hb, nb);
        let nlen = nb.len();
        let ghost occ = occurrences(hb@, nb@, 0);
        proof {
            lemma_occurrences_in_range(hb@, nb@, 0);
            assert(offs@.len() == occ.len());
            assert forall|k: int| 0 <= k < offs@.len() implies offs@[k] as int == occ[k] by {
                assert(offs@.map_values(|x: usize| x as int)[k] == offs@[k] as int);
            }
        }
        let mut out: Vec<SearchMatch> = Vec::new();
        let mut k: usize = 0;
        assert(occ.take(0) =~= Seq::<int>::empty());
        while k < offs.len()
            invariant
                k <= offs.len(),
                offs@.len() == occ.len(),
                forall|t: int| 0 <= t < offs@.len() ==> offs@[t] as int == occ[t],
                forall|t: int| 0 <= t < occ.len() ==> 0 <= #[trigger] occ[t] && occ[t] + nlen <= hb@.len(),
                hb@ == encode_utf8(self@.hay),
                hb@.len() == byte_len(self@.hay),
                nlen > 0,
                nlen as nat == byte_len(needle@),
                out@ == matches_of(self@.starts, occ.take(k as int), nlen as int),
                starts_fit(self.haystack@, self.line_starts@),
            decreases offs.len() - k,
        {
            let o = offs[k];
            assert(occ[k as int] == o as int);
            let line = self.line_of_offset(o);
            let nstarts = self.line_starts.len();
            assert(line + 1 < nstarts);
            let line_start = self.line_starts[line];
            let next = self.line_starts[line + 1];
            let line_end = if next > 0 {
                next - 1
            } else {
                0
            };
            let byte_start = o - line_start;
            let byte_end = (o + nlen) - line_start;
            proof {
                assert(occ.take(k + 1).drop_last() =~= occ.take(k as int));
                assert(occ.take(k + 1).last() == o as int);
            }
            if line_start + byte_end <= line_end {
                out.push(SearchMatch { line, byte_start, byte_end });
            }
            k += 1;
        }
        assert(occ.take(offs.len() as int) =~= occ);
        out
    }
}

// ---------------------------------------------------------------------
// search mode
// ---------------------------------------------------------------------

/// The in-viewer search UI: idle, typing a query, or stepping through
/// the matches of a committed query.
#[derive(Debug, Clone, PartialEq, Eq)]
pub enum SearchMode {
    Idle,
    Typing { query: String },
    Active { query: String, matches: Vec<SearchMatch>, cursor: usize },
}

pub ghost enum SearchModeModel {
    Idle,
    Typing(Seq<char>),
    Active(Seq<char>, Seq<SearchMatch>, usize),
}

impl View for SearchMode {
    type V = SearchModeModel;

    open spec fn view(&self) -> SearchModeModel {
        match self {
            SearchMode::Idle => SearchModeModel::Idle,
            SearchMode::Typing { query } => SearchModeModel::Typing(query@),
            SearchMode::Active { query, matches, cursor } => SearchModeModel::Active(
                query@,
                matches@,
                *cursor,
            ),
        }
    }
}

/// The match cursor of an active search points at one of its matches
/// whenever there are any.
pub open spec fn search_mode_wf(m: SearchModeModel) -> bool {
    match m {
        SearchModeModel::Active(_, ms, c) => ms.len() > 0 ==> c < ms.len(),
        _ => true,
    }
}

impl SearchMode {
    pub fn new() -> (m: SearchMode)
        ensures
            m@ == SearchModeModel::Idle,
    {
        SearchMode::Idle
    }

    pub fn is_typing(&self) -> (b: bool)
        ensures
            b == (self@ is Typing),
    {
        match self {
            SearchMode::Typing { .. } => true,
            _ => false,
        }
    }

    pub fn is_active(&self) -> (b: bool)
        ensures
            b == (self@ is Active),
    {
        match self {
            SearchMode::Active { .. } => true,
            _ => false,
        }
    }

    /// The query being typed or searched for.
    pub fn query(&self) -> (r: Option<&str>)
        ensures
            match self@ {
                SearchModeModel::Idle => r is None,
                SearchModeModel::Typing(q) => r matches Some(s) && s@ == q,
                SearchModeModel::Active(q, _, _) => r matches Some(s) && s@ == q,
            },
    {
        match self {
            SearchMode::Idle => None,
            SearchMode::Typing { query } => Some(query.as_str()),
            SearchMode::Active { query, .. } => Some(query.as_str()),
        }
    }

    /// The match under the match cursor of an active search.
    pub fn current_match(&self) -> (r: Option<SearchMatch>)
        requires
            search_mode_wf(self@),
        ensures
            r == (match self@ {
                SearchModeModel::Active(_, ms, c) => if ms.len() > 0 {
                    Some(ms[c as int])
                } else {
                    None
                },
                _ => None,
            }),
    {
        match self {
            SearchMode::Active { matches, cursor, .. } => {
                if matches.len() > 0 {
                    Some(matches[*cursor])
                } else {
                    None
                }
            },
            _ => None,
        }
    }
}

impl Default for SearchMode {
    fn default() -> (m: SearchMode)
        ensures
            m@ == SearchModeModel::Idle,
    {
        SearchMode::new()
    }
}

} // verus!
