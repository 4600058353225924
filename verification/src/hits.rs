//! Search hits fall between characters.
//!
//! A hit is where the UTF-8 bytes of the (lowercased) query occur in the
//! bytes of the (lowercased) line cache. Since a valid encoding never
//! starts with a continuation byte, such an occurrence starts on a
//! character, and since it is a whole encoding it also ends on one; and
//! lowercasing ASCII keeps every character's width, so the same offsets
//! are character boundaries of the line as it is drawn. Highlighting the
//! hits of a search over the current lines can therefore always cut the
//! line's spans.

use vstd::prelude::*;
use vstd::utf8::*;

use crate::layout::RenderedLineModel;
use crate::render::{
    active_hits, chars_before, hits_on_boundaries, on_boundary, on_line, visible_end, visible_ok,
};
use crate::search::{
    SearchMatch, SearchModeModel, hay_bytes, haystack, lemma_partition_at, line_of, match_at, matches_of, occurrences, occurs_at,
    starts_ok,
};
use crate::state::{index_starts, search_lines, StateModel};
use crate::style::line_text;
use crate::text::{
    ascii_lower, byte_len, fold_ascii, lemma_ascii_fold_ascii_len, lemma_encode_utf8_concat, utf8_len,
};

verus! {

// ---------------------------------------------------------------------
// character boundaries of encoded text
// ---------------------------------------------------------------------

/// Byte `x` of the encoding of `s` starts a character (or is its end)
/// exactly when the characters before it take up `x` bytes.
pub proof fn lemma_boundary_of_encoding(s: Seq<char>, x: int)
    requires
        0 <= x,
    ensures
        is_char_boundary(encode_utf8(s), x) <==> (x <= byte_len(s) && byte_len(
            s.take(chars_before(s, x) as int),
        ) == x),
    decreases s.len(),
{
    let e = encode_utf8(s);
    encode_utf8_valid_utf8(s);
    if x == 0 {
        assert(s.take(0) =~= Seq::<char>::empty());
    } else if s.len() == 0 {
        assert(e.len() == 0);
    } else {
        encode_utf8_first_scalar(s);
        let l = encode_scalar(s[0] as u32).len() as int;
        assert(pop_first_scalar(e) =~= encode_utf8(s.drop_first()));
        crate::render::lemma_byte_len_first(s);
        assert(utf8_len(s[0]) == l);
        if x < l {
            assert(!is_char_boundary(pop_first_scalar(e), x - l));
            assert(chars_before(s.drop_first(), x - l) == 0);
            assert(s.take(1) =~= seq![s[0]]);
            assert(byte_len(s.take(1)) == l) by {
                crate::render::lemma_byte_len_first(seq![s[0]]);
                assert(seq![s[0]].drop_first() =~= Seq::<char>::empty());
            }
        } else {
            lemma_boundary_of_encoding(s.drop_first(), x - l);
            let k = chars_before(s.drop_first(), x - l);
            crate::render::lemma_chars_before_bounds(s.drop_first(), x - l);
            assert(s.take(k + 1 as int) =~= seq![s[0]] + s.drop_first().take(k as int));
            crate::render::lemma_byte_len_concat(seq![s[0]], s.drop_first().take(k as int));
            assert(byte_len(seq![s[0]]) == l) by {
                crate::render::lemma_byte_len_first(seq![s[0]]);
                assert(seq![s[0]].drop_first() =~= Seq::<char>::empty());
            }
        }
    }
}

/// Behind a valid prefix, boundaries are those of what follows it.
pub proof fn lemma_boundary_after_prefix(a: Seq<u8>, b: Seq<u8>, k: int)
    requires
        valid_utf8(a),
        valid_utf8(a + b),
        0 <= k,
    ensures
        valid_utf8(b),
        is_char_boundary(a + b, a.len() + k) == is_char_boundary(b, k),
    decreases a.len(),
{
    if a.len() == 0 {
        assert(a + b =~= b);
    } else {
        let ab = a + b;
        let l = length_of_first_scalar(a);
        assert(ab[0] == a[0]);
        assert(valid_first_scalar(a));
        assert(length_of_first_scalar(ab) == l);
        assert(1 <= l <= a.len());
        assert(pop_first_scalar(ab) =~= pop_first_scalar(a) + b);
        lemma_boundary_after_prefix(pop_first_scalar(a), b, k);
    }
}

/// An occurrence of an encoded non-empty text inside an encoded text starts
/// and ends on character boundaries.
pub proof fn lemma_occurrence_on_boundaries(h: Seq<char>, n: Seq<char>, o: int)
    requires
        n.len() > 0,
        0 <= o,
        o + encode_utf8(n).len() <= encode_utf8(h).len(),
        encode_utf8(h).subrange(o, o + encode_utf8(n).len()) == encode_utf8(n),
    ensures
        is_char_boundary(encode_utf8(h), o),
        is_char_boundary(encode_utf8(h), o + encode_utf8(n).len()),
{
    let hb = encode_utf8(h);
    let nb = encode_utf8(n);
    encode_utf8_valid_utf8(h);
    encode_utf8_valid_utf8(n);
    crate::search::lemma_byte_len_nonempty(n);
    // The needle starts with a leading byte, so the hit starts a character.
    is_char_boundary_iff_not_is_continuation_byte(nb, 0);
    assert(hb[o] == nb[0]);
    is_char_boundary_iff_not_is_continuation_byte(hb, o);
    // Split at the start; the rest begins with the whole needle.
    valid_utf8_split(hb, o);
    let pre = hb.subrange(0, o);
    let post = hb.subrange(o, hb.len() as int);
    assert(pre + post =~= hb);
    let r = post.subrange(nb.len() as int, post.len() as int);
    assert(post =~= nb + r);
    lemma_boundary_after_prefix(nb, r, 0);
    assert(is_char_boundary(r, 0));
    assert(nb.len() + 0 == nb.len());
    lemma_boundary_after_prefix(pre, post, nb.len() as int);
}

// ---------------------------------------------------------------------
// from the haystack to one line
// ---------------------------------------------------------------------

/// Counting characters before a byte inside a prefix ignores what
/// follows it.
proof fn lemma_chars_before_prefix(a: Seq<char>, b: Seq<char>, x: int)
    requires
        x <= byte_len(a),
    ensures
        chars_before(a + b, x) == chars_before(a, x),
    decreases a.len(),
{
    if a.len() > 0 && x > 0 {
        crate::render::lemma_byte_len_first(a);
        assert((a + b).drop_first() =~= a.drop_first() + b);
        assert((a + b)[0] == a[0]);
        lemma_chars_before_prefix(a.drop_first(), b, x - utf8_len(a[0]));
    } else if a.len() == 0 {
        assert(byte_len(a) == 0) by {
            assert(a =~= Seq::<char>::empty());
        }
    }
}

/// Lowercasing ASCII keeps every character's width, so boundaries too.
proof fn lemma_fold_boundaries(t: Seq<char>, x: int)
    ensures
        chars_before(fold_ascii(t), x) == chars_before(t, x),
        forall|k: int| 0 <= k <= t.len() ==> #[trigger] byte_len(fold_ascii(t).take(k)) == byte_len(t.take(k)),
    decreases t.len(),
{
    assert forall|k: int| 0 <= k <= t.len() implies #[trigger] byte_len(fold_ascii(t).take(k)) == byte_len(t.take(k)) by {
        assert(fold_ascii(t).take(k) =~= fold_ascii(t.take(k)));
        crate::search::lemma_fold_byte_len(t.take(k));
    }
    if t.len() > 0 && x > 0 {
        assert(fold_ascii(t).drop_first() =~= fold_ascii(t.drop_first()));
        assert(fold_ascii(t)[0] == ascii_lower(t[0]));
        lemma_ascii_fold_ascii_len(t[0]);
        lemma_fold_boundaries(t.drop_first(), x - utf8_len(t[0]));
    }
}

proof fn lemma_haystack_concat(a: Seq<RenderedLineModel>, b: Seq<RenderedLineModel>)
    ensures
        haystack(a + b) == haystack(a) + haystack(b),
    decreases b.len(),
{
    if b.len() == 0 {
        assert(a + b =~= a);
        assert(haystack(b) =~= Seq::<char>::empty());
        assert(haystack(a) + haystack(b) =~= haystack(a));
    } else {
        assert((a + b).drop_last() =~= a + b.drop_last());
        assert((a + b).last() == b.last());
        lemma_haystack_concat(a, b.drop_last());
        let f = fold_ascii(line_text(b.last().line)) + seq!['\n'];
        assert(haystack(a) + haystack(b.drop_last()) + f =~= haystack(a) + (haystack(b.drop_last()) + f));
        assert(haystack(b.drop_last()) + fold_ascii(line_text(b.last().line)) + seq!['\n'] =~= haystack(b.drop_last()) + f);
        assert(haystack(a + b.drop_last()) + fold_ascii(line_text(b.last().line)) + seq!['\n'] =~= haystack(a + b.drop_last()) + f);
    }
}

/// A character boundary of the haystack that falls within line `k`'s text
/// is a character boundary of that line.
proof fn lemma_boundary_in_line(ls: Seq<RenderedLineModel>, k: int, x: int)
    requires
        0 <= k < ls.len(),
        0 <= x <= byte_len(line_text(ls[k].line)),
        is_char_boundary(encode_utf8(haystack(ls)), hay_bytes(ls, k) + x),
    ensures
        on_boundary(line_text(ls[k].line), x),
{
    let t = line_text(ls[k].line);
    let f = fold_ascii(t);
    let pre = haystack(ls.take(k));
    let post = haystack(ls.skip(k + 1));
    let g = f + seq!['\n'] + post;
    // The haystack is the lines before, this line, and the lines after.
    assert(ls =~= ls.take(k + 1) + ls.skip(k + 1));
    lemma_haystack_concat(ls.take(k + 1), ls.skip(k + 1));
    assert(ls.take(k + 1).drop_last() =~= ls.take(k));
    assert(ls.take(k + 1).last() == ls[k]);
    assert(haystack(ls) =~= pre + g);
    lemma_encode_utf8_concat(pre, g);
    encode_utf8_valid_utf8(pre);
    encode_utf8_valid_utf8(haystack(ls));
    lemma_boundary_after_prefix(encode_utf8(pre), encode_utf8(g), x);
    assert(encode_utf8(pre).len() == hay_bytes(ls, k));
    lemma_boundary_of_encoding(g, x);
    crate::search::lemma_fold_byte_len(t);
    assert(g =~= f + (seq!['\n'] + post));
    lemma_chars_before_prefix(f, seq!['\n'] + post, x);
    let m = chars_before(f, x);
    crate::render::lemma_chars_before_bounds(f, x);
    assert(g.take(m as int) =~= f.take(m as int));
    lemma_fold_boundaries(t, x);
    assert(f.len() == t.len());
}

/// Every offset `occurrences` reports is an occurrence.
proof fn lemma_occurrences_occur(h: Seq<u8>, n: Seq<u8>, from: int)
    ensures
        forall|k: int| 0 <= k < occurrences(h, n, from).len() ==> occurs_at(h, n, #[trigger] occurrences(h, n, from)[k]),
    decreases h.len() - from,
{
    if n.len() == 0 || from < 0 || from + n.len() > h.len() {
    } else if occurs_at(h, n, from) {
        lemma_occurrences_occur(h, n, from + n.len());
        let r = occurrences(h, n, from + n.len());
        let all = occurrences(h, n, from);
        assert(all == seq![from] + r);
        assert forall|k: int| 0 <= k < all.len() implies occurs_at(h, n, #[trigger] all[k]) by {
            if k > 0 {
                assert(all[k] == r[k - 1]);
            }
        }
    } else {
        lemma_occurrences_occur(h, n, from + 1);
        assert(occurrences(h, n, from) == occurrences(h, n, from + 1));
    }
}

/// Every hit of a search over `ls` starts and ends between characters of
/// its line's text, so the line can always be cut around it for
/// highlighting.
pub proof fn law_hits_on_boundaries(ls: Seq<RenderedLineModel>, q: Seq<char>)
    requires
        byte_len(haystack(ls)) <= usize::MAX,
    ensures
        forall|j: int|
            0 <= j < search_lines(ls, q).len() ==> {
                let m = #[trigger] search_lines(ls, q)[j];
                &&& m.line < ls.len()
                &&& on_boundary(line_text(ls[m.line as int].line), m.byte_start as int)
                &&& on_boundary(line_text(ls[m.line as int].line), m.byte_end as int)
            },
{
    let hay = haystack(ls);
    if !(q.len() == 0 || q.contains('\n') || hay.len() == 0) {
        let n = fold_ascii(q);
        let nb = encode_utf8(n);
        let h = encode_utf8(hay);
        let offs = occurrences(h, nb, 0);
        crate::search::lemma_occurrences_in_range(h, nb, 0);
        lemma_occurrences_occur(h, nb, 0);
        crate::search::lemma_byte_len_nonempty(n);
        assert(n.len() == q.len());
        assert(ls.take(ls.len() as int) =~= ls);
        crate::search::lemma_starts_ok(ls);
        assert(ls.len() > 0) by {
            if ls.len() == 0 {
                assert(hay =~= Seq::<char>::empty());
            }
        }
        lemma_hits_of(ls, n, offs);
    }
}

proof fn lemma_hits_of(ls: Seq<RenderedLineModel>, n: Seq<char>, offs: Seq<int>)
    requires
        n.len() > 0,
        ls.len() > 0,
        starts_ok(ls),
        forall|k: int| 0 <= k < offs.len() ==> occurs_at(encode_utf8(haystack(ls)), encode_utf8(n), #[trigger] offs[k]),
    ensures
        forall|j: int|
            0 <= j < matches_of(index_starts(ls), offs, byte_len(n) as int).len() ==> {
                let m = #[trigger] matches_of(index_starts(ls), offs, byte_len(n) as int)[j];
                &&& m.line < ls.len()
                &&& on_boundary(line_text(ls[m.line as int].line), m.byte_start as int)
                &&& on_boundary(line_text(ls[m.line as int].line), m.byte_end as int)
            },
    decreases offs.len(),
{
    let starts = index_starts(ls);
    let nlen = byte_len(n) as int;
    if offs.len() > 0 {
        assert forall|k: int| 0 <= k < offs.drop_last().len() implies occurs_at(
            encode_utf8(haystack(ls)),
            encode_utf8(n),
            #[trigger] offs.drop_last()[k],
        ) by {
            assert(offs.drop_last()[k] == offs[k]);
        }
        lemma_hits_of(ls, n, offs.drop_last());
        let prev = matches_of(starts, offs.drop_last(), nlen);
        let r = matches_of(starts, offs, nlen);
        let o = offs.last();
        assert(o == offs[offs.len() - 1]);
        match match_at(starts, o, nlen) {
            Some(m) => {
                let hb = encode_utf8(haystack(ls));
                assert(ls.take(ls.len() as int) =~= ls);
                crate::search::lemma_byte_len_nonempty(n);
                let k = crate::search::lemma_find_line(ls, o, ls.len() as int);
                assert(starts[k] == hay_bytes(ls, k));
                assert(starts[k + 1] == hay_bytes(ls, k + 1));
                lemma_partition_at(starts, k, o);
                crate::search::lemma_hay_step(ls, k);
                crate::search::lemma_hay_ge(ls, k);
                if k + 1 < ls.len() {
                    crate::search::lemma_hay_mono(ls, k + 1, ls.len() as int);
                }
                assert(line_of(starts, o) == k);
                lemma_occurrence_on_boundaries(haystack(ls), n, o);
                let x0 = o - hay_bytes(ls, k);
                let x1 = o + nlen - hay_bytes(ls, k);
                assert(hay_bytes(ls, k) + x1 == o + encode_utf8(n).len());
                lemma_boundary_in_line(ls, k, x0);
                lemma_boundary_in_line(ls, k, x1);
                assert(m.line == k);
                assert(r == prev.push(m));
                assert forall|j: int| 0 <= j < r.len() implies {
                    let mm = #[trigger] r[j];
                    &&& mm.line < ls.len()
                    &&& on_boundary(line_text(ls[mm.line as int].line), mm.byte_start as int)
                    &&& on_boundary(line_text(ls[mm.line as int].line), mm.byte_end as int)
                } by {
                    if j < prev.len() {
                        assert(r[j] == prev[j]);
                    }
                }
            },
            None => {
                assert(r == prev);
            },
        }
    }
}

proof fn lemma_on_line_members(ms: Seq<SearchMatch>, idx: usize)
    ensures
        forall|j: int|
            0 <= j < on_line(ms, idx).len() ==> (#[trigger] on_line(ms, idx)[j]).line == idx && exists|i: int|
                0 <= i < ms.len() && ms[i] == on_line(ms, idx)[j],
    decreases ms.len(),
{
    if ms.len() > 0 {
        lemma_on_line_members(ms.drop_last(), idx);
        let prev = on_line(ms.drop_last(), idx);
        let r = on_line(ms, idx);
        assert forall|j: int| 0 <= j < r.len() implies (#[trigger] r[j]).line == idx && exists|i: int|
            0 <= i < ms.len() && ms[i] == r[j] by {
            if j < prev.len() {
                assert(r[j] == prev[j]);
                let i = choose|i: int| 0 <= i < ms.drop_last().len() && ms.drop_last()[i] == prev[j];
                assert(ms[i] == ms.drop_last()[i]);
            } else {
                assert(r[j] == ms[ms.len() - 1]);
            }
        }
    }
}

/// Right after a search over the current lines is committed, every line
/// the viewer shows can be highlighted: whatever the scroll position and
/// height, `slice_visible`'s condition holds.
pub proof fn law_fresh_search_highlightable(s: StateModel, q: Seq<char>, c: usize, h: nat)
    requires
        s.search == SearchModeModel::Active(q, search_lines(s.lines, q), c),
        byte_len(haystack(s.lines)) <= usize::MAX,
    ensures
        visible_ok(s, h),
{
    let ls = s.lines;
    let ms = search_lines(ls, q);
    law_hits_on_boundaries(ls, q);
    assert(ls.take(ls.len() as int) =~= ls);
    assert forall|i: int| s.scroll <= i < visible_end(s, h) implies {
        let text = line_text(#[trigger] s.lines[i].line);
        &&& byte_len(text) <= usize::MAX
        &&& hits_on_boundaries(text, on_line(active_hits(s.search), i as usize))
    } by {
        let text = line_text(ls[i].line);
        crate::search::lemma_hay_step(ls, i);
        if i + 1 < ls.len() {
            crate::search::lemma_hay_mono(ls, i + 1, ls.len() as int);
        }
        crate::search::lemma_hay_ge(ls, i);
        assert(i <= usize::MAX);
        lemma_on_line_members(ms, i as usize);
        let hits = on_line(ms, i as usize);
        assert forall|j: int| 0 <= j < hits.len() implies on_boundary(text, (#[trigger] hits[j]).byte_start as int)
            && on_boundary(text, hits[j].byte_end as int) by {
            let w = choose|w: int| 0 <= w < ms.len() && ms[w] == hits[j];
            assert(ms[w].line == i as usize);
            assert((i as usize) as int == i);
        }
    }
}

} // verus!
