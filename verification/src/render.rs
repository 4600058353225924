//! What the transcript viewer draws: its title, the visible slice of the
//! line cache with search hits highlighted, and the status line.
//!
//! Search hits are byte ranges in a line's plain text. A span that a hit
//! overlaps is cut into the part before it, the highlighted part and the
//! part after it, keeping the span's own style outside the hit.

use vstd::prelude::*;

use crate::layout::{rlines_view, RenderedLine, RenderedLineModel};
use crate::search::{SearchMatch, SearchMode, SearchModeModel};
use crate::state::{current_msg_index, StateModel, TranscriptState};
use crate::style::{
    default_style, line_text, spans_view, Color, Line, Span, SpanModel, Style,
};
use crate::text::{
    byte_len, char_utf8_len, chars_of, decimal, lemma_encode_utf8_concat, owned, push_str,
    string_from_range, usize_to_string, utf8_len,
};

verus! {

// ---------------------------------------------------------------------
// byte positions in text
// ---------------------------------------------------------------------

/// How many characters of `c` start before byte `x`.
pub open spec fn chars_before(c: Seq<char>, x: int) -> nat
    decreases c.len(),
{
    if c.len() == 0 || x <= 0 {
        0
    } else {
        1 + chars_before(c.drop_first(), x - utf8_len(c[0]))
    }
}

/// Byte `x` falls between two characters of `c` (or at or past its end),
/// so that `&text[..x]` is a valid slice.
pub open spec fn on_boundary(c: Seq<char>, x: int) -> bool {
    x >= byte_len(c) || byte_len(c.take(chars_before(c, x) as int)) == x
}

/// The text between bytes `a` and `b` of `c`, for boundaries `a <= b`:
/// `&text[a..b]`.
pub open spec fn byte_slice(c: Seq<char>, a: int, b: int) -> Seq<char> {
    c.subrange(chars_before(c, a) as int, chars_before(c, b) as int)
}

pub proof fn lemma_chars_before_bounds(c: Seq<char>, x: int)
    ensures
        chars_before(c, x) <= c.len(),
        x >= byte_len(c) ==> chars_before(c, x) == c.len(),
    decreases c.len(),
{
    if c.len() > 0 && x > 0 {
        lemma_byte_len_first(c);
        lemma_chars_before_bounds(c.drop_first(), x - utf8_len(c[0]));
    }
}

pub proof fn lemma_chars_before_mono(c: Seq<char>, x: int, y: int)
    requires
        x <= y,
    ensures
        chars_before(c, x) <= chars_before(c, y),
    decreases c.len(),
{
    if c.len() > 0 && x > 0 {
        lemma_chars_before_mono(c.drop_first(), x - utf8_len(c[0]), y - utf8_len(c[0]));
    }
}

pub proof fn lemma_byte_len_first(c: Seq<char>)
    requires
        c.len() > 0,
    ensures
        byte_len(c) == utf8_len(c[0]) + byte_len(c.drop_first()),
{
    lemma_encode_utf8_concat(seq![c[0]], c.drop_first());
    assert(seq![c[0]] + c.drop_first() =~= c);
    assert(seq![c[0]].drop_first() =~= Seq::<char>::empty());
}

/// Byte length of a concatenation.
pub proof fn lemma_byte_len_concat(a: Seq<char>, b: Seq<char>)
    ensures
        byte_len(a + b) == byte_len(a) + byte_len(b),
{
    lemma_encode_utf8_concat(a, b);
}

/// Index of the first character of `cs` that does not start before byte
/// `x`.
fn char_index_at(cs: &Vec<char>, x: usize) -> (i: usize)
    ensures
        i as nat == chars_before(cs@, x as int),
{
    let mut i: usize = 0;
    let mut rem: usize = x;
    assert(cs@.skip(0) =~= cs@);
    while i < cs.len() && rem > 0
        invariant
            i <= cs@.len(),
            chars_before(cs@, x as int) == i + chars_before(cs@.skip(i as int), rem as int),
        decreases cs.len() - i,
    {
        let l = char_utf8_len(cs[i]);
        proof {
            assert(cs@.skip(i as int).drop_first() =~= cs@.skip(i + 1));
            assert(cs@.skip(i as int)[0] == cs@[i as int]);
            if l >= rem {
                assert(chars_before(cs@.skip(i + 1), rem - l) == 0);
            }
        }
        i += 1;
        rem = if l >= rem {
            0
        } else {
            rem - l
        };
    }
    proof {
        if i == cs.len() {
            assert(cs@.skip(i as int).len() == 0);
        }
    }
    i
}

/// `&text[a..b]` on the characters of a text.
fn byte_slice_of(cs: &Vec<char>, a: usize, b: usize) -> (r: String)
    requires
        a <= b,
    ensures
        r@ == byte_slice(cs@, a as int, b as int),
{
    let i = char_index_at(cs, a);
    let j = char_index_at(cs, b);
    proof {
        lemma_chars_before_mono(cs@, a as int, b as int);
        lemma_chars_before_bounds(cs@, b as int);
    }
    string_from_range(cs, i, j)
}

// ---------------------------------------------------------------------
// ordering the hits inside a span
// ---------------------------------------------------------------------

/// `x` inserted into `s` after every element that starts no later.
pub open spec fn insert_by_start(s: Seq<(usize, usize)>, x: (usize, usize)) -> Seq<(usize, usize)>
    decreases s.len(),
{
    if s.len() == 0 {
        seq![x]
    } else if s.last().0 <= x.0 {
        s.push(x)
    } else {
        insert_by_start(s.drop_last(), x).push(s.last())
    }
}

/// `sort_by_key(|o| o.0)`: ordered by start, stable.
pub open spec fn sort_by_start(s: Seq<(usize, usize)>) -> Seq<(usize, usize)>
    decreases s.len(),
{
    if s.len() == 0 {
        Seq::empty()
    } else {
        insert_by_start(sort_by_start(s.drop_last()), s.last())
    }
}

fn insert_by_start_exec(v: &mut Vec<(usize, usize)>, x: (usize, usize))
    ensures
        final(v)@ == insert_by_start(old(v)@, x),
{
    let ghost o = v@;
    let mut p: usize = v.len();
    assert(o.take(p as int) =~= o);
    assert(o.skip(p as int) =~= Seq::<(usize, usize)>::empty());
    while p > 0 && v[p - 1].0 > x.0
        invariant
            p <= o.len(),
            v@ == o,
            insert_by_start(o, x) == insert_by_start(o.take(p as int), x) + o.skip(p as int),
        decreases p,
    {
        proof {
            let t = o.take(p as int);
            assert(t.drop_last() =~= o.take(p - 1));
            assert(t.last() == o[p - 1]);
            assert(o.skip(p - 1) =~= seq![o[p - 1]] + o.skip(p as int));
            assert(insert_by_start(t, x) == insert_by_start(o.take(p - 1), x).push(o[p - 1]));
            assert(insert_by_start(o.take(p - 1), x).push(o[p - 1]) + o.skip(p as int)
                =~= insert_by_start(o.take(p - 1), x) + o.skip(p - 1));
        }
        p -= 1;
    }
    proof {
        let t = o.take(p as int);
        if p > 0 {
            assert(t.last() == o[p - 1]);
        }
        assert(insert_by_start(t, x) =~= t.push(x));
    }
    v.insert(p, x);
    assert(v@ =~= o.take(p as int).push(x) + o.skip(p as int));
}

fn sort_by_start_exec(v: &Vec<(usize, usize)>) -> (r: Vec<(usize, usize)>)
    ensures
        r@ == sort_by_start(v@),
{
    let mut r: Vec<(usize, usize)> = Vec::new();
    let mut k: usize = 0;
    assert(v@.take(0) =~= Seq::<(usize, usize)>::empty());
    while k < v.len()
        invariant
            k <= v@.len(),
            r@ == sort_by_start(v@.take(k as int)),
        decreases v.len() - k,
    {
        assert(v@.take(k + 1).drop_last() =~= v@.take(k as int));
        insert_by_start_exec(&mut r, v[k]);
        k += 1;
    }
    assert(v@.take(v.len() as int) =~= v@);
    r
}

// ---------------------------------------------------------------------
// highlighting one line
// ---------------------------------------------------------------------

/// Search hits: black on yellow.
pub open spec fn highlight_style() -> Style {
    Style { fg: Color::Black, bg: Color::Yellow, ..default_style() }
}

/// The hits on line `idx`, in their order.
pub open spec fn on_line(ms: Seq<SearchMatch>, idx: usize) -> Seq<SearchMatch>
    decreases ms.len(),
{
    if ms.len() == 0 {
        Seq::empty()
    } else {
        let prev = on_line(ms.drop_last(), idx);
        if ms.last().line == idx {
            prev.push(ms.last())
        } else {
            prev
        }
    }
}

/// The parts of `hits` that fall in bytes `lo..hi`, relative to `lo`.
pub open spec fn overlaps_of(hits: Seq<SearchMatch>, lo: int, hi: int) -> Seq<(usize, usize)>
    decreases hits.len(),
{
    if hits.len() == 0 {
        Seq::empty()
    } else {
        let prev = overlaps_of(hits.drop_last(), lo, hi);
        let m = hits.last();
        let s = if m.byte_start >= lo {
            m.byte_start as int
        } else {
            lo
        };
        let e = if m.byte_end <= hi {
            m.byte_end as int
        } else {
            hi
        };
        if s < e {
            prev.push(((s - lo) as usize, (e - lo) as usize))
        } else {
            prev
        }
    }
}

/// A span cut at the hit ranges `ov` (relative, ordered by start), from
/// byte `from` on: unstyled text before each hit keeps the span's style.
pub open spec fn span_pieces(c: Seq<char>, st: Style, ov: Seq<(usize, usize)>, from: int) -> Seq<
    SpanModel,
>
    decreases ov.len(),
{
    if ov.len() == 0 {
        if from < byte_len(c) {
            seq![SpanModel { content: byte_slice(c, from, byte_len(c) as int), style: st }]
        } else {
            Seq::empty()
        }
    } else {
        let ms = ov[0].0 as int;
        let me = ov[0].1 as int;
        let head = if ms > from {
            seq![SpanModel { content: byte_slice(c, from, ms), style: st }]
        } else {
            Seq::empty()
        };
        head + seq![SpanModel { content: byte_slice(c, ms, me), style: highlight_style() }]
            + span_pieces(c, st, ov.drop_first(), me)
    }
}

/// One span starting at byte `base` of its line, after highlighting.
pub open spec fn span_out(sp: SpanModel, hits: Seq<SearchMatch>, base: int) -> Seq<SpanModel> {
    let ov = sort_by_start(overlaps_of(hits, base, base + byte_len(sp.content)));
    if ov.len() == 0 {
        seq![sp]
    } else {
        span_pieces(sp.content, sp.style, ov, 0)
    }
}

pub open spec fn highlight_spans(spans: Seq<SpanModel>, hits: Seq<SearchMatch>) -> Seq<SpanModel>
    decreases spans.len(),
{
    if spans.len() == 0 {
        Seq::empty()
    } else {
        highlight_spans(spans.drop_last(), hits) + span_out(
            spans.last(),
            hits,
            byte_len(line_text(spans.drop_last())) as int,
        )
    }
}

/// Line `idx` with the hits of `ms` on it highlighted.
pub open spec fn highlighted(line: Seq<SpanModel>, idx: usize, ms: Seq<SearchMatch>) -> Seq<
    SpanModel,
> {
    let hits = on_line(ms, idx);
    if hits.len() == 0 {
        line
    } else {
        highlight_spans(line, hits)
    }
}

/// Every hit on the line starts and ends between characters of its text.
pub open spec fn hits_on_boundaries(text: Seq<char>, hits: Seq<SearchMatch>) -> bool {
    forall|j: int|
        0 <= j < hits.len() ==> on_boundary(text, (#[trigger] hits[j]).byte_start as int)
            && on_boundary(text, hits[j].byte_end as int)
}

proof fn lemma_line_text_concat(a: Seq<SpanModel>, b: Seq<SpanModel>)
    ensures
        line_text(a + b) == line_text(a) + line_text(b),
    decreases b.len(),
{
    if b.len() == 0 {
        assert(a + b =~= a);
    } else {
        assert((a + b).drop_last() =~= a + b.drop_last());
        lemma_line_text_concat(a, b.drop_last());
    }
}

proof fn lemma_line_text_prefix(s: Seq<SpanModel>, i: int)
    requires
        0 <= i <= s.len(),
    ensures
        byte_len(line_text(s.take(i))) <= byte_len(line_text(s)),
{
    assert(s.take(i) + s.skip(i) =~= s);
    lemma_line_text_concat(s.take(i), s.skip(i));
    lemma_byte_len_concat(line_text(s.take(i)), line_text(s.skip(i)));
}

fn copy_span(s: &Span) -> (r: Span)
    ensures
        r@ == s@,
{
    Span { content: owned(s.content.as_str()), style: s.style }
}

fn copy_line(l: &Line) -> (r: Line)
    ensures
        r@ == l@,
{
    let mut v: Vec<Span> = Vec::new();
    let mut i: usize = 0;
    while i < l.spans.len()
        invariant
            i <= l.spans@.len(),
            spans_view(v@) == spans_view(l.spans@).take(i as int),
        decreases l.spans.len() - i,
    {
        let ghost prev = v@;
        let c = copy_span(&l.spans[i]);
        v.push(c);
        assert(v@ == prev.push(c));
        assert(spans_view(v@) =~= spans_view(prev).push(c@));
        assert(spans_view(l.spans@).take(i + 1) =~= spans_view(l.spans@).take(i as int).push(
            l.spans@[i as int]@,
        ));
        assert(spans_view(v@) =~= spans_view(l.spans@).take(i + 1));
        i += 1;
    }
    assert(spans_view(l.spans@).take(i as int) =~= spans_view(l.spans@));
    Line { spans: v }
}

/// The hits of `ms` that lie on line `idx`.
fn hits_on_line(ms: &[SearchMatch], idx: usize) -> (r: Vec<SearchMatch>)
    ensures
        r@ == on_line(ms@, idx),
{
    let mut r: Vec<SearchMatch> = Vec::new();
    let mut k: usize = 0;
    assert(ms@.take(0) =~= Seq::<SearchMatch>::empty());
    while k < ms.len()
        invariant
            k <= ms@.len(),
            r@ == on_line(ms@.take(k as int), idx),
        decreases ms.len() - k,
    {
        assert(ms@.take(k + 1).drop_last() =~= ms@.take(k as int));
        let m = ms[k];
        if m.line == idx {
            r.push(m);
        }
        k += 1;
    }
    assert(ms@.take(ms.len() as int) =~= ms@);
    r
}

/// The hit ranges inside bytes `lo..hi`, relative to `lo`.
fn overlaps_in(hits: &Vec<SearchMatch>, lo: usize, hi: usize) -> (r: Vec<(usize, usize)>)
    requires
        lo <= hi,
    ensures
        r@ == overlaps_of(hits@, lo as int, hi as int),
{
    let mut r: Vec<(usize, usize)> = Vec::new();
    let mut k: usize = 0;
    assert(hits@.take(0) =~= Seq::<SearchMatch>::empty());
    while k < hits.len()
        invariant
            k <= hits@.len(),
            lo <= hi,
            r@ == overlaps_of(hits@.take(k as int), lo as int, hi as int),
        decreases hits.len() - k,
    {
        assert(hits@.take(k + 1).drop_last() =~= hits@.take(k as int));
        let m = hits[k];
        let s = if m.byte_start >= lo {
            m.byte_start
        } else {
            lo
        };
        let e = if m.byte_end <= hi {
            m.byte_end
        } else {
            hi
        };
        if s < e {
            r.push((s - lo, e - lo));
        }
        k += 1;
    }
    assert(hits@.take(hits.len() as int) =~= hits@);
    r
}

/// Cut one span at its (ordered) hit ranges.
fn cut_span(sp: &Span, ov: &Vec<(usize, usize)>, out: &mut Vec<Span>)
    requires
        forall|j: int| 0 <= j < ov@.len() ==> (#[trigger] ov@[j]).0 < ov@[j].1,
        forall|j: int| 0 <= j < ov@.len() ==> (#[trigger] ov@[j]).1 <= byte_len(sp.content@),
        byte_len(sp.content@) <= usize::MAX,
    ensures
        spans_view(final(out)@) == spans_view(old(out)@) + span_pieces(
            sp.content@,
            sp.style,
            ov@,
            0,
        ),
{
    let cs = chars_of(sp.content.as_str());
    let span_len = sp.content.as_str().len();
    let ghost c = sp.content@;
    assert(span_len == byte_len(c));
    let ghost total = span_pieces(c, sp.style, ov@, 0);
    let mut slice_start: usize = 0;
    let mut k: usize = 0;
    assert(ov@.skip(0) =~= ov@);
    assert(spans_view(out@) =~= spans_view(old(out)@) + Seq::<SpanModel>::empty());
    while k < ov.len()
        invariant
            k <= ov@.len(),
            cs@ == c,
            c == sp.content@,
            span_len == byte_len(c),
            slice_start <= span_len,
            forall|j: int| 0 <= j < ov@.len() ==> (#[trigger] ov@[j]).0 < ov@[j].1,
            forall|j: int| 0 <= j < ov@.len() ==> (#[trigger] ov@[j]).1 <= byte_len(sp.content@),
            spans_view(old(out)@) + total == spans_view(out@) + span_pieces(
                c,
                sp.style,
                ov@.skip(k as int),
                slice_start as int,
            ),
        decreases ov.len() - k,
    {
        let (ms, me) = ov[k];
        let ghost before = spans_view(out@);
        proof {
            assert(ov@.skip(k as int)[0] == ov@[k as int]);
            assert(ov@.skip(k as int).drop_first() =~= ov@.skip(k + 1));
        }
        if ms > slice_start {
            let t = byte_slice_of(&cs, slice_start, ms);
            out.push(Span { content: t, style: sp.style });
        }
        let t = byte_slice_of(&cs, ms, me);
        out.push(Span { content: t, style: Style { fg: Color::Black, bg: Color::Yellow, ..crate::style::plain() } });
        proof {
            let head = if ms > slice_start {
                seq![SpanModel { content: byte_slice(c, slice_start as int, ms as int), style: sp.style }]
            } else {
                Seq::empty()
            };
            assert(spans_view(out@) =~= before + head + seq![
                SpanModel { content: byte_slice(c, ms as int, me as int), style: highlight_style() },
            ]);
        }
        slice_start = me;
        k += 1;
    }
    let ghost before = spans_view(out@);
    if slice_start < span_len {
        let t = byte_slice_of(&cs, slice_start, span_len);
        out.push(Span { content: t, style: sp.style });
    }
    proof {
        assert(ov@.skip(k as int).len() == 0);
        if slice_start < span_len {
            assert(spans_view(out@) =~= before + seq![
                SpanModel { content: byte_slice(c, slice_start as int, byte_len(c) as int), style: sp.style },
            ]);
        } else {
            assert(spans_view(out@) =~= before + Seq::<SpanModel>::empty());
        }
    }
}

/// Overlay the search hits on line `line_idx` onto `line`: each span a
/// hit overlaps is cut into before / hit / after pieces, the hit pieces
/// drawn black on yellow.
pub fn highlight_matches(line: &Line, line_idx: usize, matches: &[SearchMatch]) -> (r: Line)
    requires
        byte_len(line_text(line@)) <= usize::MAX,
        hits_on_boundaries(line_text(line@), on_line(matches@, line_idx)),
    ensures
        r@ == highlighted(line@, line_idx, matches@),
{
    let hits = hits_on_line(matches, line_idx);
    if hits.len() == 0 {
        return copy_line(line);
    }
    let ghost sv = line@;
    let mut out: Vec<Span> = Vec::new();
    let mut cursor: usize = 0;
    let mut i: usize = 0;
    assert(sv.take(0) =~= Seq::<SpanModel>::empty());
    while i < line.spans.len()
        invariant
            i <= sv.len(),
            sv == line@,
            sv.len() == line.spans@.len(),
            hits@ == on_line(matches@, line_idx),
            byte_len(line_text(sv)) <= usize::MAX,
            cursor == byte_len(line_text(sv.take(i as int))),
            spans_view(out@) == highlight_spans(sv.take(i as int), hits@),
        decreases line.spans.len() - i,
    {
        let sp = &line.spans[i];
        let ghost pre = sv.take(i as int);
        proof {
            assert(sv.take(i + 1).drop_last() =~= pre);
            assert(sv.take(i + 1).last() == sp@);
            assert(line_text(sv.take(i + 1)) == line_text(pre) + sp.content@);
            lemma_byte_len_concat(line_text(pre), sp.content@);
            lemma_line_text_prefix(sv, i + 1);
        }
        let span_len = sp.content.as_str().len();
        let span_end = cursor + span_len;
        let overlaps = overlaps_in(&hits, cursor, span_end);
        let sorted = sort_by_start_exec(&overlaps);
        let ghost before = spans_view(out@);
        if sorted.len() == 0 {
            out.push(copy_span(sp));
            assert(spans_view(out@) =~= before + seq![sp@]);
        } else {
            proof {
                lemma_overlaps_ranges(hits@, cursor as int, span_end as int);
                lemma_sort_keeps(overlaps@, span_len as int);
            }
            cut_span(sp, &sorted, &mut out);
        }
        cursor = span_end;
        i += 1;
    }
    assert(sv.take(sv.len() as int) =~= sv);
    Line { spans: out }
}

/// The clamped hit ranges are non-empty and lie inside the span.
proof fn lemma_overlaps_ranges(hits: Seq<SearchMatch>, lo: int, hi: int)
    requires
        0 <= lo <= hi <= usize::MAX,
    ensures
        forall|j: int|
            0 <= j < overlaps_of(hits, lo, hi).len() ==> (#[trigger] overlaps_of(hits, lo, hi)[j]).0
                < overlaps_of(hits, lo, hi)[j].1 && overlaps_of(hits, lo, hi)[j].1 <= hi - lo,
    decreases hits.len(),
{
    if hits.len() > 0 {
        lemma_overlaps_ranges(hits.drop_last(), lo, hi);
        let prev = overlaps_of(hits.drop_last(), lo, hi);
        let r = overlaps_of(hits, lo, hi);
        assert forall|j: int| 0 <= j < r.len() implies (#[trigger] r[j]).0 < r[j].1 && r[j].1
            <= hi - lo by {
            if j < prev.len() {
                assert(r[j] == prev[j]);
            }
        }
    }
}

/// Sorting keeps every element's property: non-empty, inside `n` bytes.
proof fn lemma_sort_keeps(s: Seq<(usize, usize)>, n: int)
    requires
        forall|j: int| 0 <= j < s.len() ==> (#[trigger] s[j]).0 < s[j].1 && s[j].1 <= n,
    ensures
        forall|j: int|
            0 <= j < sort_by_start(s).len() ==> (#[trigger] sort_by_start(s)[j]).0 < sort_by_start(
                s,
            )[j].1 && sort_by_start(s)[j].1 <= n,
    decreases s.len(),
{
    if s.len() > 0 {
        lemma_sort_keeps(s.drop_last(), n);
        lemma_insert_keeps(sort_by_start(s.drop_last()), s.last(), n);
    }
}

proof fn lemma_insert_keeps(s: Seq<(usize, usize)>, x: (usize, usize), n: int)
    requires
        forall|j: int| 0 <= j < s.len() ==> (#[trigger] s[j]).0 < s[j].1 && s[j].1 <= n,
        x.0 < x.1 <= n,
    ensures
        forall|j: int|
            0 <= j < insert_by_start(s, x).len() ==> (#[trigger] insert_by_start(s, x)[j]).0
                < insert_by_start(s, x)[j].1 && insert_by_start(s, x)[j].1 <= n,
    decreases s.len(),
{
    let r = insert_by_start(s, x);
    if s.len() == 0 {
        assert(r == seq![x]);
    } else if s.last().0 <= x.0 {
        assert(r == s.push(x));
        assert forall|j: int| 0 <= j < r.len() implies (#[trigger] r[j]).0 < r[j].1 && r[j].1 <= n by {
            if j < s.len() {
                assert(r[j] == s[j]);
            }
        }
    } else {
        lemma_insert_keeps(s.drop_last(), x, n);
        let q = insert_by_start(s.drop_last(), x);
        assert(r == q.push(s.last()));
        assert forall|j: int| 0 <= j < r.len() implies (#[trigger] r[j]).0 < r[j].1 && r[j].1 <= n by {
            if j < q.len() {
                assert(r[j] == q[j]);
            } else {
                assert(r[j] == s[s.len() - 1]);
            }
        }
    }
}

// ---------------------------------------------------------------------
// the visible slice
// ---------------------------------------------------------------------

/// The hits of the committed search, none otherwise.
pub open spec fn active_hits(m: SearchModeModel) -> Seq<SearchMatch> {
    match m {
        SearchModeModel::Active(_, ms, _) => ms,
        _ => Seq::empty(),
    }
}

/// The index one past the last line shown in a body `h` lines tall.
pub open spec fn visible_end(s: StateModel, h: nat) -> nat {
    if s.scroll + h < s.lines.len() {
        s.scroll + h
    } else {
        s.lines.len()
    }
}

/// Every shown line can be highlighted: its text's length fits in
/// `usize` and the hits on it fall between characters.
pub open spec fn visible_ok(s: StateModel, h: nat) -> bool {
    forall|i: int|
        s.scroll <= i < visible_end(s, h) ==> {
            let text = line_text(#[trigger] s.lines[i].line);
            &&& byte_len(text) <= usize::MAX
            &&& hits_on_boundaries(text, on_line(active_hits(s.search), i as usize))
        }
}

/// The dimmed placeholder of an empty transcript.
pub open spec fn empty_placeholder() -> Seq<SpanModel> {
    seq![SpanModel { content: "(empty transcript)"@, style: Style { dim: true, ..default_style() } }]
}

/// The lines of the body: from the scroll position, as many as fit, with
/// the hits of the committed search highlighted.
pub open spec fn visible_lines(s: StateModel, h: nat) -> Seq<Seq<SpanModel>> {
    if s.lines.len() == 0 {
        seq![empty_placeholder()]
    } else {
        Seq::new(
            (visible_end(s, h) - s.scroll) as nat,
            |k: int| highlighted(s.lines[s.scroll + k].line, (s.scroll + k) as usize, active_hits(s.search)),
        )
    }
}

pub fn slice_visible(state: &TranscriptState, height: u16) -> (r: Vec<Line>)
    requires
        state.wf(),
        visible_ok(state@, height as nat),
    ensures
        crate::style::lines_view(r@) == visible_lines(state@, height as nat),
{
    let lines = state.lines();
    let ghost s = state@;
    proof {
        state.lemma_wf_model();
    }
    if lines.len() == 0 {
        let mut v: Vec<Line> = Vec::new();
        let l = crate::style::line_of(
            Span { content: owned("(empty transcript)"), style: crate::style::with_dim(crate::style::plain()) },
        );
        v.push(l);
        assert(crate::style::lines_view(v@) =~= seq![empty_placeholder()]);
        return v;
    }
    let start = state.scroll();
    let end = if lines.len() - start < height as usize {
        lines.len()
    } else {
        start + height as usize
    };
    let empty: Vec<SearchMatch> = Vec::new();
    let mode = state.search_mode();
    let active: &[SearchMatch] = match mode {
        SearchMode::Active { matches, .. } => matches.as_slice(),
        _ => empty.as_slice(),
    };
    assert(active@ == active_hits(s.search));
    let mut out: Vec<Line> = Vec::new();
    let mut i: usize = start;
    while i < end
        invariant
            start == s.scroll,
            start <= i <= end,
            end == visible_end(s, height as nat),
            end <= lines@.len(),
            rlines_view(lines@) == s.lines,
            active@ == active_hits(s.search),
            visible_ok(s, height as nat),
            crate::style::lines_view(out@) == Seq::new(
                (i - start) as nat,
                |k: int| highlighted(s.lines[start + k].line, (start + k) as usize, active_hits(s.search)),
            ),
        decreases end - i,
    {
        let ghost before = crate::style::lines_view(out@);
        assert(rlines_view(lines@)[i as int] == lines@[i as int]@);
        assert(line_text(s.lines[i as int].line) == line_text(lines@[i as int].line@));
        let l = highlight_matches(&lines[i].line, i, active);
        let ghost prev = out@;
        assert(before.len() == i - start);
        assert(prev.len() == before.len());
        out.push(l);
        assert(out@ == prev.push(l));
        assert(l@ == highlighted(s.lines[i as int].line, i, active_hits(s.search)));
        assert forall|k: int| 0 <= k < i + 1 - start implies #[trigger] crate::style::lines_view(out@)[k]
            == highlighted(s.lines[start + k].line, (start + k) as usize, active_hits(s.search)) by {
            if k < i - start {
                assert(out@[k] == prev[k]);
                assert(before[k] == prev[k]@);
            } else {
                assert(out@[k] == l);
            }
        }
        assert(crate::style::lines_view(out@) =~= Seq::new(
            (i + 1 - start) as nat,
            |k: int| highlighted(s.lines[start + k].line, (start + k) as usize, active_hits(s.search)),
        ));
        i += 1;
    }
    out
}

// ---------------------------------------------------------------------
// title and status
// ---------------------------------------------------------------------

pub open spec fn title_text(s: StateModel, live: bool) -> Seq<char> {
    if live {
        "transcript viewer — live-tail"@
    } else if s.transcript.session_id.len() == 0 {
        "transcript viewer"@
    } else {
        "transcript viewer — "@ + s.transcript.session_id
    }
}

/// The header line of the viewer.
pub fn build_title(state: &TranscriptState, live: bool) -> (r: String)
    ensures
        r@ == title_text(state@, live),
{
    let t = state.transcript();
    if live {
        return owned("transcript viewer — live-tail");
    }
    if t.session_id.as_str().is_empty() {
        owned("transcript viewer")
    } else {
        let mut out = owned("transcript viewer — ");
        push_str(&mut out, t.session_id.as_str());
        out
    }
}

/// A session id shortened to its first 12 bytes and an ellipsis; `-`
/// when empty.
pub open spec fn short_id(id: Seq<char>) -> Seq<char> {
    if id.len() == 0 {
        "-"@
    } else if byte_len(id) <= 12 {
        id
    } else {
        byte_slice(id, 0, 12) + "…"@
    }
}

/// Whether `short_session_id` can cut `id` (the cut falls between
/// characters).
pub open spec fn short_id_ok(id: Seq<char>) -> bool {
    on_boundary(id, 12)
}

/// `byte_len(cs) <= n`, without overflow.
fn bytes_at_most(cs: &Vec<char>, n: usize) -> (b: bool)
    ensures
        b == (byte_len(cs@) <= n),
{
    let mut i: usize = 0;
    let mut total: usize = 0;
    assert(cs@.take(0) =~= Seq::<char>::empty());
    while i < cs.len()
        invariant
            i <= cs@.len(),
            total == byte_len(cs@.take(i as int)),
            total <= n,
        decreases cs.len() - i,
    {
        let l = char_utf8_len(cs[i]);
        proof {
            assert(cs@.take(i + 1) =~= cs@.take(i as int).push(cs@[i as int]));
            crate::text::lemma_byte_len_push(cs@.take(i as int), cs@[i as int]);
        }
        if l > n - total {
            proof {
                assert(cs@.take(i + 1) + cs@.skip(i + 1) =~= cs@);
                lemma_byte_len_concat(cs@.take(i + 1), cs@.skip(i + 1));
            }
            return false;
        }
        total = total + l;
        i += 1;
    }
    assert(cs@.take(i as int) =~= cs@);
    true
}

/// Whether byte `x` of `cs` falls between characters (or at or past
/// the end).
fn on_boundary_exec(cs: &Vec<char>, x: usize) -> (b: bool)
    ensures
        b == on_boundary(cs@, x as int),
{
    let mut i: usize = 0;
    let mut rem: usize = x;
    assert(cs@.skip(0) =~= cs@);
    assert(cs@.take(0) =~= Seq::<char>::empty());
    while i < cs.len() && rem > 0
        invariant
            i <= cs@.len(),
            byte_len(cs@.take(i as int)) + rem == x,
            chars_before(cs@, x as int) == i + chars_before(cs@.skip(i as int), rem as int),
        decreases cs.len() - i,
    {
        let l = char_utf8_len(cs[i]);
        proof {
            assert(cs@.skip(i as int).drop_first() =~= cs@.skip(i + 1));
            assert(cs@.skip(i as int)[0] == cs@[i as int]);
            assert(cs@.take(i + 1) =~= cs@.take(i as int).push(cs@[i as int]));
            crate::text::lemma_byte_len_push(cs@.take(i as int), cs@[i as int]);
        }
        if l > rem {
            proof {
                // x falls inside character i: the prefix ending there is
                // too long, the one before it too short.
                assert(chars_before(cs@.skip(i + 1), rem - l) == 0);
                assert(chars_before(cs@, x as int) == i + 1);
                assert(byte_len(cs@.take(i + 1)) > x);
                assert(cs@ =~= cs@.take(i + 1) + cs@.skip(i + 1));
                lemma_byte_len_concat(cs@.take(i + 1), cs@.skip(i + 1));
            }
            return false;
        }
        i += 1;
        rem = rem - l;
    }
    proof {
        if rem > 0 {
            assert(i == cs.len());
            assert(cs@.take(i as int) =~= cs@);
        } else {
            assert(chars_before(cs@.skip(i as int), 0) == 0);
        }
    }
    true
}

/// Whether `short_session_id` can take `id` as it is.
pub fn short_id_fits(id: &str) -> (b: bool)
    ensures
        b == short_id_ok(id@),
{
    let cs = chars_of(id);
    on_boundary_exec(&cs, 12)
}

/// The first 12 bytes of a session id and `…`; the id itself when it is
/// no longer; `-` when empty.
pub fn short_session_id(id: &str) -> (r: String)
    requires
        short_id_ok(id@),
    ensures
        r@ == short_id(id@),
{
    let cs = chars_of(id);
    if cs.len() == 0 {
        return owned("-");
    }
    if bytes_at_most(&cs, 12) {
        return owned(id);
    }
    let mut out = byte_slice_of(&cs, 0, 12);
    push_str(&mut out, "…");
    out
}

/// The status line's counters, when nothing else is shown there.
pub open spec fn status_text(s: StateModel) -> Seq<char> {
    let t = s.transcript;
    let total_msgs = t.messages.len();
    let current_msg = if total_msgs == 0 {
        0
    } else {
        current_msg_index(s) + 1
    };
    let total_lines = s.lines.len();
    let current_line = if total_lines == 0 {
        0
    } else {
        s.cursor + 1
    };
    let project = match t.project {
        Some(p) => p,
        None => "-"@,
    };
    "session "@ + short_id(t.session_id) + "  ·  project "@ + project + "  ·  msg "@ + decimal(
        current_msg,
    ) + "/"@ + decimal(total_msgs) + "  ·  line "@ + decimal(current_line) + "/"@ + decimal(
        total_lines,
    ) + "  ·  q/Esc quit"@
}

/// The footer: the query being typed, else the flash message, else the
/// session counters.
pub open spec fn status_line(s: StateModel) -> Seq<SpanModel> {
    match s.search {
        SearchModeModel::Typing(q) => seq![
            SpanModel { content: "/"@, style: Style { fg: Color::Yellow, bold: true, ..default_style() } },
            SpanModel { content: q, style: default_style() },
        ],
        _ => match s.flash {
            Some(f) => seq![
                SpanModel { content: "⚠ "@ + f, style: Style { fg: Color::Yellow, ..default_style() } },
            ],
            None => seq![SpanModel { content: status_text(s), style: default_style() }],
        },
    }
}

/// What `build_status` needs: a session id it can shorten, and a message
/// number that can be counted from one.
pub open spec fn status_ok(s: StateModel) -> bool {
    &&& short_id_ok(s.transcript.session_id)
    &&& current_msg_index(s) < usize::MAX
}

pub fn build_status(state: &TranscriptState) -> (r: Line)
    requires
        state.wf(),
        status_ok(state@),
    ensures
        r@ == status_line(state@),
{
    let mode = state.search_mode();
    if let SearchMode::Typing { query } = mode {
        let mut v: Vec<Span> = Vec::new();
        v.push(Span { content: owned("/"), style: crate::style::with_bold(crate::style::with_fg(crate::style::plain(), Color::Yellow)) });
        v.push(Span { content: owned(query.as_str()), style: crate::style::plain() });
        let l = Line { spans: v };
        assert(l@ =~= status_line(state@));
        return l;
    }
    if let Some(flash) = state.flash() {
        let mut text = owned("⚠ ");
        push_str(&mut text, flash);
        return crate::style::line_of(Span { content: text, style: crate::style::with_fg(crate::style::plain(), Color::Yellow) });
    }
    let t = state.transcript();
    let total_msgs = t.messages.len();
    let current_msg = if total_msgs == 0 {
        0
    } else {
        state.current_msg_index() + 1
    };
    let total_lines = state.lines().len();
    let current_line = if total_lines == 0 {
        0
    } else {
        proof {
            state.lemma_wf_model();
        }
        state.cursor() + 1
    };
    let mut out = owned("session ");
    let short = short_session_id(t.session_id.as_str());
    push_str(&mut out, short.as_str());
    push_str(&mut out, "  ·  project ");
    match &t.project {
        Some(p) => push_str(&mut out, p.as_str()),
        None => push_str(&mut out, "-"),
    }
    push_str(&mut out, "  ·  msg ");
    push_str(&mut out, usize_to_string(current_msg).as_str());
    push_str(&mut out, "/");
    push_str(&mut out, usize_to_string(total_msgs).as_str());
    push_str(&mut out, "  ·  line ");
    push_str(&mut out, usize_to_string(current_line).as_str());
    push_str(&mut out, "/");
    push_str(&mut out, usize_to_string(total_lines).as_str());
    push_str(&mut out, "  ·  q/Esc quit");
    crate::style::line_of(Span { content: out, style: crate::style::plain() })
}

/// The characters of a line's plain text.
fn line_chars(line: &Line) -> (r: Vec<char>)
    ensures
        r@ == line_text(line@),
{
    let mut out: Vec<char> = Vec::new();
    let mut i: usize = 0;
    let ghost sv = line@;
    assert(sv.take(0) =~= Seq::<SpanModel>::empty());
    while i < line.spans.len()
        invariant
            i <= sv.len(),
            sv == line@,
            sv.len() == line.spans@.len(),
            out@ == line_text(sv.take(i as int)),
        decreases line.spans.len() - i,
    {
        assert(sv.take(i + 1).drop_last() =~= sv.take(i as int));
        let cs = chars_of(line.spans[i].content.as_str());
        let mut k: usize = 0;
        let ghost base = out@;
        while k < cs.len()
            invariant
                k <= cs@.len(),
                out@ == base + cs@.take(k as int),
            decreases cs.len() - k,
        {
            out.push(cs[k]);
            assert(out@ =~= base + cs@.take(k + 1));
            k += 1;
        }
        assert(cs@.take(k as int) =~= cs@);
        i += 1;
    }
    assert(sv.take(sv.len() as int) =~= sv);
    out
}

/// Whether every hit in `hits` that lies on line `idx` falls between
/// characters of `cs`.
fn hits_fit(cs: &Vec<char>, hits: &[SearchMatch], idx: usize) -> (b: bool)
    ensures
        b == hits_on_boundaries(cs@, on_line(hits@, idx)),
{
    let lh = hits_on_line(hits, idx);
    let mut k: usize = 0;
    while k < lh.len()
        invariant
            k <= lh@.len(),
            lh@ == on_line(hits@, idx),
            forall|j: int|
                0 <= j < k ==> on_boundary(cs@, (#[trigger] lh@[j]).byte_start as int) && on_boundary(
                    cs@,
                    lh@[j].byte_end as int,
                ),
        decreases lh.len() - k,
    {
        let m = lh[k];
        if !on_boundary_exec(cs, m.byte_start) || !on_boundary_exec(cs, m.byte_end) {
            return false;
        }
        k += 1;
    }
    true
}

/// Whether `slice_visible` can draw the body `height` lines tall: the
/// shown lines fit in memory sizes and every search hit on them falls
/// between characters.
pub fn can_slice_visible(state: &TranscriptState, height: u16) -> (b: bool)
    requires
        state.wf(),
    ensures
        b == visible_ok(state@, height as nat),
{
    let lines = state.lines();
    let ghost s = state@;
    proof {
        state.lemma_wf_model();
    }
    if lines.len() == 0 {
        return true;
    }
    let start = state.scroll();
    let end = if lines.len() - start < height as usize {
        lines.len()
    } else {
        start + height as usize
    };
    let empty: Vec<SearchMatch> = Vec::new();
    let active: &[SearchMatch] = match state.search_mode() {
        SearchMode::Active { matches, .. } => matches.as_slice(),
        _ => empty.as_slice(),
    };
    assert(active@ == active_hits(s.search));
    let mut i: usize = start;
    while i < end
        invariant
            s == state@,
            start == s.scroll,
            start <= i <= end,
            end == visible_end(s, height as nat),
            end <= lines@.len(),
            rlines_view(lines@) == s.lines,
            active@ == active_hits(s.search),
            forall|j: int|
                start <= j < i ==> {
                    let text = line_text(#[trigger] s.lines[j].line);
                    &&& byte_len(text) <= usize::MAX
                    &&& hits_on_boundaries(text, on_line(active_hits(s.search), j as usize))
                },
        decreases end - i,
    {
        assert(rlines_view(lines@)[i as int] == lines@[i as int]@);
        let cs = line_chars(&lines[i].line);
        assert(line_text(s.lines[i as int].line) == cs@);
        if !bytes_at_most(&cs, usize::MAX) || !hits_fit(&cs, active, i) {
            proof {
                let ii = i as int;
                assert(s.scroll <= ii < visible_end(s, height as nat));
                assert(ii as usize == i);
            }
            return false;
        }
        i += 1;
    }
    true
}

/// Whether `build_status` can draw the footer of `state`.
pub fn can_build_status(state: &TranscriptState) -> (b: bool)
    ensures
        b == status_ok(state@),
{
    short_id_fits(state.transcript().session_id.as_str()) && state.current_msg_index() < usize::MAX
}

} // verus!
