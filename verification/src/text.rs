//! Character-level string helpers shared by the rest of the crate, with
//! the spec functions that describe them (line splitting, whitespace,
//! ASCII case folding, decimal rendering, UTF-8 byte lengths).

use vstd::prelude::*;
use vstd::utf8::*;

verus! {

// ---------------------------------------------------------------------
// spec vocabulary
// ---------------------------------------------------------------------

/// `char::is_whitespace`: the Unicode `White_Space` property.
pub open spec fn is_ws(c: char) -> bool {
    ||| c == '\t'
    ||| c == '\n'
    ||| c == '\u{0b}'
    ||| c == '\u{0c}'
    ||| c == '\r'
    ||| c == ' '
    ||| c == '\u{85}'
    ||| c == '\u{a0}'
    ||| c == '\u{1680}'
    ||| ('\u{2000}' <= c && c <= '\u{200a}')
    ||| c == '\u{2028}'
    ||| c == '\u{2029}'
    ||| c == '\u{202f}'
    ||| c == '\u{205f}'
    ||| c == '\u{3000}'
}

/// Every character of `s` is whitespace (`s.trim().is_empty()`).
pub open spec fn is_blank(s: Seq<char>) -> bool {
    forall|i: int| 0 <= i < s.len() ==> is_ws(#[trigger] s[i])
}

/// Number of leading whitespace characters.
pub open spec fn lead_ws(s: Seq<char>) -> nat
    decreases s.len(),
{
    if s.len() > 0 && is_ws(s[0]) {
        1 + lead_ws(s.drop_first())
    } else {
        0
    }
}

/// Number of trailing whitespace characters.
pub open spec fn trail_ws(s: Seq<char>) -> nat
    decreases s.len(),
{
    if s.len() > 0 && is_ws(s.last()) {
        1 + trail_ws(s.drop_last())
    } else {
        0
    }
}

/// `str::trim`.
pub open spec fn trim(s: Seq<char>) -> Seq<char> {
    let a = lead_ws(s) as int;
    let b = trail_ws(s) as int;
    if a >= s.len() {
        Seq::empty()
    } else {
        s.subrange(a, s.len() - b)
    }
}

pub open spec fn is_ascii_upper(c: char) -> bool {
    'A' <= c && c <= 'Z'
}

/// `char::to_ascii_lowercase`.
pub open spec fn ascii_lower(c: char) -> char {
    if is_ascii_upper(c) {
        ((c as u32) + 32) as char
    } else {
        c
    }
}

/// ASCII-only lowercase fold of a whole string.
pub open spec fn fold_ascii(s: Seq<char>) -> Seq<char> {
    Seq::new(s.len(), |i: int| ascii_lower(s[i]))
}

/// `str::split(d)`: always at least one (possibly empty) piece.
pub open spec fn split_on(s: Seq<char>, d: char) -> Seq<Seq<char>>
    decreases s.len(),
{
    if s.len() == 0 {
        seq![Seq::<char>::empty()]
    } else {
        let p = split_on(s.drop_last(), d);
        if s.last() == d {
            p.push(Seq::<char>::empty())
        } else {
            p.update(p.len() - 1, p[p.len() - 1].push(s.last()))
        }
    }
}

pub open spec fn strip_cr(l: Seq<char>) -> Seq<char> {
    if l.len() > 0 && l.last() == '\r' {
        l.drop_last()
    } else {
        l
    }
}

/// `str::lines`: split at `\n`, drop one trailing `\r` from each line that
/// was terminated by `\n`, and produce no trailing empty line.
pub open spec fn lines(s: Seq<char>) -> Seq<Seq<char>> {
    if s.len() == 0 {
        Seq::empty()
    } else {
        let p = split_on(s, '\n');
        let q = if s.last() == '\n' {
            p.drop_last()
        } else {
            p
        };
        Seq::new(q.len(), |i: int| if i < p.len() - 1 { strip_cr(q[i]) } else { q[i] })
    }
}

/// Number of `\n` characters in `s`.
pub open spec fn count_nl(s: Seq<char>) -> nat
    decreases s.len(),
{
    if s.len() == 0 {
        0
    } else {
        count_nl(s.drop_last()) + if s.last() == '\n' {
            1nat
        } else {
            0nat
        }
    }
}

/// Decimal rendering of a natural number (`usize`'s `Display`).
pub open spec fn decimal(n: nat) -> Seq<char>
    decreases n,
{
    if n < 10 {
        seq![digit_char(n)]
    } else {
        decimal(n / 10).push(digit_char(n % 10))
    }
}

pub open spec fn digit_char(d: nat) -> char {
    ((d + 48) as u32) as char
}

/// Number of UTF-8 bytes `c` occupies.
pub open spec fn utf8_len(c: char) -> nat {
    encode_scalar(c as u32).len()
}

/// Number of UTF-8 bytes of a string (`str::len`).
pub open spec fn byte_len(s: Seq<char>) -> nat {
    encode_utf8(s).len()
}

// ---------------------------------------------------------------------
// lemmas
// ---------------------------------------------------------------------

pub proof fn lemma_split_on_nonempty(s: Seq<char>, d: char)
    ensures
        split_on(s, d).len() >= 1,
    decreases s.len(),
{
    if s.len() > 0 {
        lemma_split_on_nonempty(s.drop_last(), d);
    }
}

pub proof fn lemma_encode_utf8_concat(a: Seq<char>, b: Seq<char>)
    ensures
        encode_utf8(a + b) == encode_utf8(a) + encode_utf8(b),
    decreases a.len(),
{
    if a.len() == 0 {
        assert(a + b =~= b);
    } else {
        assert((a + b).drop_first() =~= a.drop_first() + b);
        lemma_encode_utf8_concat(a.drop_first(), b);
        assert(encode_scalar(a[0] as u32) + (encode_utf8(a.drop_first()) + encode_utf8(b))
            =~= (encode_scalar(a[0] as u32) + encode_utf8(a.drop_first())) + encode_utf8(b));
    }
}

pub proof fn lemma_byte_len_push(s: Seq<char>, c: char)
    ensures
        byte_len(s.push(c)) == byte_len(s) + utf8_len(c),
{
    lemma_encode_utf8_concat(s, seq![c]);
    assert(s.push(c) =~= s + seq![c]);
    assert(seq![c].drop_first() =~= Seq::<char>::empty());
    assert(encode_utf8(Seq::<char>::empty()) =~= Seq::<u8>::empty());
    assert(encode_utf8(seq![c]) =~= encode_scalar(c as u32) + encode_utf8(Seq::<char>::empty()));
    assert(encode_utf8(seq![c]) =~= encode_scalar(c as u32));
}

pub proof fn lemma_ascii_fold_ascii_len(c: char)
    ensures
        utf8_len(ascii_lower(c)) == utf8_len(c),
{
}

/// No piece of a split contains the delimiter.
pub proof fn lemma_split_pieces_free(s: Seq<char>, d: char)
    ensures
        forall|i: int| 0 <= i < split_on(s, d).len() ==> !(#[trigger] split_on(s, d)[i]).contains(d),
    decreases s.len(),
{
    if s.len() > 0 {
        lemma_split_pieces_free(s.drop_last(), d);
        lemma_split_on_nonempty(s.drop_last(), d);
        let p = split_on(s.drop_last(), d);
        let r = split_on(s, d);
        if s.last() == d {
            assert forall|i: int| 0 <= i < r.len() implies !(#[trigger] r[i]).contains(d) by {
                if i < p.len() {
                    assert(r[i] == p[i]);
                } else {
                    assert(r[i] =~= Seq::<char>::empty());
                }
            }
        } else {
            assert forall|i: int| 0 <= i < r.len() implies !(#[trigger] r[i]).contains(d) by {
                if i < p.len() - 1 {
                    assert(r[i] == p[i]);
                } else {
                    let q = p[p.len() - 1];
                    assert(r[i] == q.push(s.last()));
                    if r[i].contains(d) {
                        let k = choose|k: int| 0 <= k < r[i].len() && r[i][k] == d;
                        if k < q.len() {
                            assert(q[k] == d);
                        }
                    }
                }
            }
        }
    }
}

/// A text without the delimiter is one piece.
pub proof fn lemma_split_free(u: Seq<char>, d: char)
    requires
        !u.contains(d),
    ensures
        split_on(u, d) == seq![u],
    decreases u.len(),
{
    if u.len() == 0 {
        assert(u =~= Seq::<char>::empty());
        assert(split_on(u, d) =~= seq![u]);
    } else {
        let v = u.drop_last();
        assert(!v.contains(d)) by {
            if v.contains(d) {
                let k = choose|k: int| 0 <= k < v.len() && v[k] == d;
                assert(u[k] == d);
            }
        }
        lemma_split_free(v, d);
        assert(u.last() != d) by {
            if u.last() == d {
                assert(u[u.len() - 1] == d);
                assert(u.contains(d));
            }
        }
        assert(v.push(u.last()) =~= u);
        assert(seq![v].update(0, v.push(u.last())) =~= seq![u]);
    }
}

/// Splitting a concatenation: the pieces of `x` but its last, then the
/// pieces of that last piece followed by `y`.
pub proof fn lemma_split_concat(x: Seq<char>, y: Seq<char>, d: char)
    ensures
        split_on(x + y, d) == split_on(x, d).drop_last() + split_on(split_on(x, d).last() + y, d),
    decreases y.len(),
{
    lemma_split_on_nonempty(x, d);
    let sx = split_on(x, d);
    let u = sx.last();
    if y.len() == 0 {
        lemma_split_pieces_free(x, d);
        assert(!sx[sx.len() - 1].contains(d));
        lemma_split_free(u, d);
        assert(x + y =~= x);
        assert(u + y =~= u);
        assert(sx.drop_last() + seq![u] =~= sx);
    } else {
        let y1 = y.drop_last();
        let c = y.last();
        lemma_split_concat(x, y1, d);
        assert((x + y).drop_last() =~= x + y1);
        assert((x + y).last() == c);
        assert((u + y).drop_last() =~= u + y1);
        assert((u + y).last() == c);
        lemma_split_on_nonempty(u + y1, d);
        let a = sx.drop_last();
        let b = split_on(u + y1, d);
        if c == d {
            assert((a + b).push(Seq::<char>::empty()) =~= a + b.push(Seq::<char>::empty()));
        } else {
            let ab = a + b;
            assert(ab.update(ab.len() - 1, ab[ab.len() - 1].push(c)) =~= a + b.update(
                b.len() - 1,
                b[b.len() - 1].push(c),
            ));
        }
    }
}

// ---------------------------------------------------------------------
// executable helpers
// ---------------------------------------------------------------------

/// `String::push`.
#[verifier::external_body]
pub(crate) fn string_push(s: &mut String, c: char)
    ensures
        final(s)@ == old(s)@.push(c),
{
    s.push(c);
}

/// Append `t` to `s`.
pub fn push_str(s: &mut String, t: &str)
    ensures
        final(s)@ == old(s)@ + t@,
{
    s.append(t);
}

/// An owned copy of `s`.
pub fn owned(s: &str) -> (r: String)
    ensures
        r@ == s@,
{
    String::from_str(s)
}

/// The characters of `s`, in order.
pub fn chars_of(s: &str) -> (r: Vec<char>)
    ensures
        r@ == s@,
{
    let mut out: Vec<char> = Vec::new();
    for c in it: s.chars()
        invariant
            out@ == it.seq().take(it.index() as int),
            it.seq() == s@,
    {
        out.push(c);
    }
    out
}

/// A string made of `v[from..to]`.
pub fn string_from_range(v: &Vec<char>, from: usize, to: usize) -> (r: String)
    requires
        from <= to <= v.len(),
    ensures
        r@ == v@.subrange(from as int, to as int),
{
    let mut s = String::new();
    let mut i: usize = from;
    while i < to
        invariant
            from <= i <= to <= v.len(),
            s@ == v@.subrange(from as int, i as int),
        decreases to - i,
    {
        string_push(&mut s, v[i]);
        assert(v@.subrange(from as int, i as int).push(v@[i as int]) =~= v@.subrange(
            from as int,
            i + 1,
        ));
        i += 1;
    }
    s
}

/// A string made of all of `v`.
pub fn string_from_chars(v: &Vec<char>) -> (r: String)
    ensures
        r@ == v@,
{
    let r = string_from_range(v, 0, v.len());
    assert(v@.subrange(0, v.len() as int) =~= v@);
    r
}

/// `char::is_whitespace`.
pub fn is_whitespace(c: char) -> (b: bool)
    ensures
        b == is_ws(c),
{
    c == '\t' || c == '\n' || c == '\u{0b}' || c == '\u{0c}' || c == '\r' || c == ' ' || c
        == '\u{85}' || c == '\u{a0}' || c == '\u{1680}' || ('\u{2000}' <= c && c <= '\u{200a}')
        || c == '\u{2028}' || c == '\u{2029}' || c == '\u{202f}' || c == '\u{205f}' || c
        == '\u{3000}'
}

/// `s.trim().is_empty()`.
pub fn is_blank_str(s: &str) -> (b: bool)
    ensures
        b == is_blank(s@),
{
    let cs = chars_of(s);
    let mut i: usize = 0;
    while i < cs.len()
        invariant
            i <= cs.len(),
            cs@ == s@,
            forall|j: int| 0 <= j < i ==> is_ws(#[trigger] cs@[j]),
        decreases cs.len() - i,
    {
        if !is_whitespace(cs[i]) {
            return false;
        }
        i += 1;
    }
    true
}

pub proof fn lemma_lead_ws_bound(s: Seq<char>)
    ensures
        lead_ws(s) <= s.len(),
        forall|i: int| 0 <= i < lead_ws(s) ==> is_ws(#[trigger] s[i]),
        lead_ws(s) < s.len() ==> !is_ws(s[lead_ws(s) as int]),
    decreases s.len(),
{
    if s.len() > 0 && is_ws(s[0]) {
        lemma_lead_ws_bound(s.drop_first());
        assert forall|i: int| 0 <= i < lead_ws(s) implies is_ws(#[trigger] s[i]) by {
            if i > 0 {
                assert(s[i] == s.drop_first()[i - 1]);
            }
        }
    }
}

pub proof fn lemma_trail_ws_bound(s: Seq<char>)
    ensures
        trail_ws(s) <= s.len(),
        forall|i: int| s.len() - trail_ws(s) <= i < s.len() ==> is_ws(#[trigger] s[i]),
        trail_ws(s) < s.len() ==> !is_ws(s[s.len() - trail_ws(s) - 1]),
    decreases s.len(),
{
    if s.len() > 0 && is_ws(s.last()) {
        lemma_trail_ws_bound(s.drop_last());
        assert forall|i: int| s.len() - trail_ws(s) <= i < s.len() implies is_ws(
            #[trigger] s[i],
        ) by {
            if i < s.len() - 1 {
                assert(s[i] == s.drop_last()[i]);
            }
        }
    }
}

/// Characters `[lo, hi)` of `v` with surrounding whitespace removed
/// (`str::trim` of that slice).
pub fn trim_range(v: &Vec<char>, lo: usize, hi: usize) -> (r: String)
    requires
        lo <= hi <= v.len(),
    ensures
        r@ == trim(v@.subrange(lo as int, hi as int)),
{
    let ghost s = v@.subrange(lo as int, hi as int);
    let mut a = lo;
    while a < hi && is_whitespace(v[a])
        invariant
            lo <= a <= hi <= v.len(),
            s == v@.subrange(lo as int, hi as int),
            forall|i: int| lo <= i < a ==> is_ws(#[trigger] v@[i]),
        decreases hi - a,
    {
        a += 1;
    }
    proof {
        lemma_lead_ws_bound(s);
        let k = lead_ws(s) as int;
        if k < a - lo {
            assert(is_ws(v@[lo + k]));
            assert(s[k] == v@[lo + k]);
        }
        if k > a - lo {
            assert(is_ws(s[a - lo]));
        }
    }
    if a == hi {
        return String::new();
    }
    let mut b = hi;
    while b > a && is_whitespace(v[b - 1])
        invariant
            lo <= a < hi,
            a <= b <= hi <= v.len(),
            !is_ws(v@[a as int]),
            forall|i: int| b <= i < hi ==> is_ws(#[trigger] v@[i]),
        decreases b,
    {
        b -= 1;
    }
    proof {
        lemma_trail_ws_bound(s);
        let k = trail_ws(s) as int;
        if k < hi - b {
            assert(is_ws(v@[hi - k - 1]));
            assert(s[s.len() - k - 1] == v@[hi - k - 1]);
        }
        if k > hi - b {
            assert(is_ws(s[b - lo - 1]));
        }
        assert(s.subrange(a - lo, s.len() - k) =~= v@.subrange(a as int, b as int));
    }
    string_from_range(v, a, b)
}

/// Decimal rendering of `n`.
pub fn usize_to_string(n: usize) -> (r: String)
    ensures
        r@ == decimal(n as nat),
    decreases n,
{
    if n < 10 {
        let mut s = String::new();
        let c = char_from_digit(n);
        string_push(&mut s, c);
        s
    } else {
        let mut s = usize_to_string(n / 10);
        let c = char_from_digit(n % 10);
        string_push(&mut s, c);
        s
    }
}

/// Decimal rendering of `n`.
pub fn u64_to_string(n: u64) -> (r: String)
    ensures
        r@ == decimal(n as nat),
    decreases n,
{
    if n < 10 {
        let mut s = String::new();
        let c = char_from_digit(n as usize);
        string_push(&mut s, c);
        s
    } else {
        let mut s = u64_to_string(n / 10);
        let c = char_from_digit((n % 10) as usize);
        string_push(&mut s, c);
        s
    }
}

fn char_from_digit(d: usize) -> (c: char)
    requires
        d < 10,
    ensures
        c == digit_char(d as nat),
{
    if d == 0 {
        '0'
    } else if d == 1 {
        '1'
    } else if d == 2 {
        '2'
    } else if d == 3 {
        '3'
    } else if d == 4 {
        '4'
    } else if d == 5 {
        '5'
    } else if d == 6 {
        '6'
    } else if d == 7 {
        '7'
    } else if d == 8 {
        '8'
    } else {
        '9'
    }
}

/// Number of UTF-8 bytes of `c` (`char::len_utf8`).
pub fn char_utf8_len(c: char) -> (n: usize)
    ensures
        n as nat == utf8_len(c),
        1 <= n <= 4,
{
    let u = c as u32;
    if u < 0x80 {
        1
    } else if u < 0x800 {
        2
    } else if u < 0x10000 {
        3
    } else {
        4
    }
}

/// `str::split_whitespace`: the maximal runs of non-whitespace characters.
pub open spec fn words(s: Seq<char>) -> Seq<Seq<char>>
    decreases s.len(),
{
    if s.len() == 0 {
        Seq::empty()
    } else {
        let w = words(s.drop_last());
        let c = s.last();
        if is_ws(c) {
            w
        } else if s.len() > 1 && !is_ws(s[s.len() - 2]) {
            w.update(w.len() - 1, w.last().push(c))
        } else {
            w.push(seq![c])
        }
    }
}

pub proof fn lemma_words_nonempty_when_in_word(s: Seq<char>)
    ensures
        s.len() > 0 && !is_ws(s.last()) ==> words(s).len() > 0,
    decreases s.len(),
{
    if s.len() > 1 {
        lemma_words_nonempty_when_in_word(s.drop_last());
    }
}

/// `s.split(d)`, each piece an owned string.
pub fn split_str(s: &str, d: char) -> (r: Vec<String>)
    ensures
        texts_of(r@) == split_on(s@, d),
{
    let cs = chars_of(s);
    let mut out: Vec<String> = Vec::new();
    let mut start: usize = 0;
    let mut i: usize = 0;
    proof {
        assert(cs@.take(0) =~= Seq::<char>::empty());
        assert(split_on(Seq::<char>::empty(), d) =~= seq![Seq::<char>::empty()]);
        assert(texts_of(out@) =~= Seq::<Seq<char>>::empty());
    }
    while i < cs.len()
        invariant
            start <= i <= cs.len(),
            cs@ == s@,
            split_on(cs@.take(i as int), d).len() >= 1,
            split_on(cs@.take(i as int), d).last() == cs@.subrange(start as int, i as int),
            texts_of(out@) == split_on(cs@.take(i as int), d).drop_last(),
        decreases cs.len() - i,
    {
        let ghost pi = split_on(cs@.take(i as int), d);
        proof {
            assert(cs@.take(i + 1).drop_last() =~= cs@.take(i as int));
            assert(cs@.take(i + 1).last() == cs@[i as int]);
        }
        if cs[i] == d {
            let piece = string_from_range(&cs, start, i);
            let ghost before = texts_of(out@);
            out.push(piece);
            proof {
                let pn = split_on(cs@.take(i + 1), d);
                assert(pn == pi.push(Seq::<char>::empty()));
                assert(texts_of(out@) =~= before.push(piece@));
                assert(pi =~= pi.drop_last().push(pi.last()));
                assert(pn.drop_last() =~= pi);
            }
            start = i + 1;
            proof {
                assert(cs@.subrange(start as int, i + 1) =~= Seq::<char>::empty());
            }
        } else {
            proof {
                let pn = split_on(cs@.take(i + 1), d);
                assert(pn == pi.update(pi.len() - 1, pi.last().push(cs@[i as int])));
                assert(pn.drop_last() =~= pi.drop_last());
                assert(cs@.subrange(start as int, i + 1) =~= cs@.subrange(
                    start as int,
                    i as int,
                ).push(cs@[i as int]));
            }
        }
        i += 1;
    }
    let last = string_from_range(&cs, start, cs.len());
    let ghost before = texts_of(out@);
    out.push(last);
    proof {
        assert(cs@.take(cs.len() as int) =~= cs@);
        let p = split_on(cs@, d);
        assert(texts_of(out@) =~= before.push(last@));
        assert(p =~= p.drop_last().push(p.last()));
    }
    out
}

pub open spec fn texts_of(v: Seq<String>) -> Seq<Seq<char>> {
    Seq::new(v.len(), |i: int| v[i]@)
}

/// `l` without one trailing `\r`.
pub fn strip_cr_str(l: &str) -> (r: String)
    ensures
        r@ == strip_cr(l@),
{
    let cs = chars_of(l);
    if cs.len() > 0 && cs[cs.len() - 1] == '\r' {
        let r = string_from_range(&cs, 0, cs.len() - 1);
        assert(r@ =~= cs@.drop_last());
        r
    } else {
        string_from_chars(&cs)
    }
}

/// `s.lines()`, each line an owned string.
pub fn str_lines(s: &str) -> (r: Vec<String>)
    ensures
        texts_of(r@) == lines(s@),
{
    let cs = chars_of(s);
    if cs.len() == 0 {
        let r: Vec<String> = Vec::new();
        assert(texts_of(r@) =~= lines(s@));
        return r;
    }
    let p = split_str(s, '\n');
    proof {
        lemma_split_on_nonempty(s@, '\n');
    }
    let n = if cs[cs.len() - 1] == '\n' {
        p.len() - 1
    } else {
        p.len()
    };
    let ghost pv = split_on(s@, '\n');
    let ghost q = if s@.last() == '\n' {
        pv.drop_last()
    } else {
        pv
    };
    let mut out: Vec<String> = Vec::new();
    let mut k: usize = 0;
    while k < n
        invariant
            k <= n <= p.len(),
            texts_of(p@) == pv,
            q.len() == n,
            forall|j: int| 0 <= j < n ==> q[j] == pv[j],
            texts_of(out@) =~= Seq::new(
                k as nat,
                |j: int| if j < pv.len() - 1 { strip_cr(q[j]) } else { q[j] },
            ),
        decreases n - k,
    {
        let ghost before = texts_of(out@);
        if k + 1 < p.len() {
            let l = strip_cr_str(p[k].as_str());
            out.push(l);
        } else {
            let l = owned(p[k].as_str());
            out.push(l);
        }
        proof {
            assert(texts_of(out@) =~= before.push(texts_of(out@).last()));
        }
        k += 1;
    }
    out
}

/// `s.split_whitespace()`, each word an owned string.
pub fn str_words(s: &str) -> (r: Vec<String>)
    ensures
        texts_of(r@) == words(s@),
{
    let cs = chars_of(s);
    let mut out: Vec<String> = Vec::new();
    let mut cur = String::new();
    let mut in_word = false;
    let mut i: usize = 0;
    proof {
        assert(cs@.take(0) =~= Seq::<char>::empty());
    }
    while i < cs.len()
        invariant
            i <= cs.len(),
            cs@ == s@,
            in_word == (i > 0 && !is_ws(cs@[i - 1])),
            in_word ==> texts_of(out@).push(cur@) == words(cs@.take(i as int)),
            !in_word ==> texts_of(out@) == words(cs@.take(i as int)),
        decreases cs.len() - i,
    {
        let ghost wi = words(cs@.take(i as int));
        proof {
            assert(cs@.take(i + 1).drop_last() =~= cs@.take(i as int));
            assert(cs@.take(i + 1).last() == cs@[i as int]);
            if i > 0 {
                assert(cs@.take(i + 1)[i - 1] == cs@[i - 1]);
            }
        }
        let c = cs[i];
        if is_whitespace(c) {
            if in_word {
                let ghost before = texts_of(out@);
                let w = cur;
                cur = String::new();
                out.push(w);
                assert(texts_of(out@) =~= before.push(w@));
            }
            in_word = false;
        } else {
            if in_word {
                proof {
                    assert(wi =~= texts_of(out@).push(cur@));
                }
                string_push(&mut cur, c);
                proof {
                    assert(words(cs@.take(i + 1)) =~= wi.update(wi.len() - 1, wi.last().push(c)));
                    assert(texts_of(out@).push(cur@) =~= words(cs@.take(i + 1)));
                }
            } else {
                cur = String::new();
                string_push(&mut cur, c);
                proof {
                    assert(cur@ =~= seq![c]);
                }
            }
            in_word = true;
        }
        i += 1;
    }
    proof {
        assert(cs@.take(cs.len() as int) =~= cs@);
    }
    if in_word {
        let ghost before = texts_of(out@);
        out.push(cur);
        assert(texts_of(out@) =~= before.push(cur@));
    }
    out
}

/// The number of `\n` in `s`, and the length of `split_on` it gives.
pub proof fn lemma_split_len(s: Seq<char>)
    ensures
        split_on(s, '\n').len() == count_nl(s) + 1,
    decreases s.len(),
{
    if s.len() > 0 {
        lemma_split_len(s.drop_last());
    }
}

/// Number of `\n` characters in `s`.
pub fn count_newlines(s: &str) -> (n: usize)
    ensures
        n as nat == count_nl(s@),
{
    let cs = chars_of(s);
    let mut n: usize = 0;
    let mut i: usize = 0;
    while i < cs.len()
        invariant
            i <= cs.len(),
            cs@ == s@,
            n as nat == count_nl(cs@.take(i as int)),
            n <= i,
        decreases cs.len() - i,
    {
        proof {
            assert(cs@.take(i + 1).drop_last() =~= cs@.take(i as int));
        }
        if cs[i] == '\n' {
            n += 1;
        }
        i += 1;
    }
    assert(cs@.take(cs.len() as int) =~= cs@);
    n
}

/// `a == b`.
pub fn str_eq(a: &str, b: &str) -> (r: bool)
    ensures
        r == (a@ == b@),
{
    let ac = chars_of(a);
    let bc = chars_of(b);
    if ac.len() != bc.len() {
        return false;
    }
    let mut i: usize = 0;
    while i < ac.len()
        invariant
            i <= ac.len() == bc.len(),
            ac@ == a@,
            bc@ == b@,
            forall|j: int| 0 <= j < i ==> ac@[j] == bc@[j],
        decreases ac.len() - i,
    {
        if ac[i] != bc[i] {
            assert(a@[i as int] != b@[i as int]);
            return false;
        }
        i += 1;
    }
    assert(ac@ =~= bc@);
    true
}

} // verus!
