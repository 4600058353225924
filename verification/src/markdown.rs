//! Minimal terminal markdown renderer.
//!
//! Walks a markdown event stream and emits styled lines: paragraphs, bold,
//! italic, inline code, fenced code blocks (dim, not re-wrapped), bulleted
//! and numbered lists, headings (`#` prefix), block quotes (`│ ` indent),
//! rules, hard and soft breaks. Wrapping is width-aware: each character
//! counts for its display width, and a line is broken at its last space
//! when the next character would not fit.
//!
//! The contract of [`render_markdown`] is the walker's transition
//! function: [`step`] says what each event does to the walker state.

use pulldown_cmark::{Event, Tag, TagEnd};
use vstd::prelude::*;

use crate::style::{default_style, empty_line, line_of, lines_view, plain, spans_view, Color, Line, Span, SpanModel, Style};
use crate::text::{u64_to_string,
    chars_of, decimal, owned, push_str, split_on, string_from_range, string_push,
};

verus! {

// ---------------------------------------------------------------------
// the event stream
// ---------------------------------------------------------------------

/// Block and inline containers the renderer distinguishes.
#[derive(Debug)]
pub enum MdTag {
    Paragraph,
    /// Heading of level 1 to 6.
    Heading(u8),
    BlockQuote,
    CodeBlock,
    /// A list, with the number of its first item when ordered.
    List(Option<u64>),
    Item,
    Emphasis,
    Strong,
    Strikethrough,
    Link,
    Image,
    /// Tables, footnotes, HTML blocks and the like: their text still flows.
    Other,
}

#[derive(Debug)]
pub enum MdEvent {
    Start(MdTag),
    End(MdTag),
    Text(String),
    Code(String),
    /// Raw HTML, which is dropped.
    Html,
    /// Footnote references and task-list markers, which are dropped.
    Ignored,
    InlineMath(String),
    DisplayMath(String),
    SoftBreak,
    HardBreak,
    Rule,
}

pub ghost enum MdEventModel {
    Start(MdTag),
    End(MdTag),
    Text(Seq<char>),
    Code(Seq<char>),
    Html,
    Ignored,
    InlineMath(Seq<char>),
    DisplayMath(Seq<char>),
    SoftBreak,
    HardBreak,
    Rule,
}

pub open spec fn tag_copy(t: &MdTag) -> MdTag {
    match t {
        MdTag::Paragraph => MdTag::Paragraph,
        MdTag::Heading(l) => MdTag::Heading(*l),
        MdTag::BlockQuote => MdTag::BlockQuote,
        MdTag::CodeBlock => MdTag::CodeBlock,
        MdTag::List(s) => MdTag::List(*s),
        MdTag::Item => MdTag::Item,
        MdTag::Emphasis => MdTag::Emphasis,
        MdTag::Strong => MdTag::Strong,
        MdTag::Strikethrough => MdTag::Strikethrough,
        MdTag::Link => MdTag::Link,
        MdTag::Image => MdTag::Image,
        MdTag::Other => MdTag::Other,
    }
}

impl View for MdEvent {
    type V = MdEventModel;

    open spec fn view(&self) -> MdEventModel {
        match self {
            MdEvent::Start(t) => MdEventModel::Start(tag_copy(t)),
            MdEvent::End(t) => MdEventModel::End(tag_copy(t)),
            MdEvent::Text(s) => MdEventModel::Text(s@),
            MdEvent::Code(s) => MdEventModel::Code(s@),
            MdEvent::Html => MdEventModel::Html,
            MdEvent::Ignored => MdEventModel::Ignored,
            MdEvent::InlineMath(s) => MdEventModel::InlineMath(s@),
            MdEvent::DisplayMath(s) => MdEventModel::DisplayMath(s@),
            MdEvent::SoftBreak => MdEventModel::SoftBreak,
            MdEvent::HardBreak => MdEventModel::HardBreak,
            MdEvent::Rule => MdEventModel::Rule,
        }
    }
}

pub open spec fn md_events_view(v: Seq<MdEvent>) -> Seq<MdEventModel> {
    Seq::new(v.len(), |i: int| v[i]@)
}

/// The events `pulldown_cmark::Parser::new_ext(src, Options::empty())`
/// produces for `src`.
pub uninterp spec fn spec_markdown_events(src: Seq<char>) -> Seq<MdEventModel>;

/// Display width `unicode_width` gives `c` (0 for control characters).
pub uninterp spec fn spec_char_width(c: char) -> nat;

/// The parser's event type, carried through opaquely.
#[verifier::external_type_specification]
#[verifier::external_body]
pub struct ExMdParserEvent<'a>(pulldown_cmark::Event<'a>);

/// The parser's start-tag type, carried through opaquely.
#[verifier::external_type_specification]
#[verifier::external_body]
pub struct ExMdParserTag<'a>(pulldown_cmark::Tag<'a>);

/// The parser's end-tag type, carried through opaquely.
#[verifier::external_type_specification]
#[verifier::external_body]
pub struct ExMdParserTagEnd(pulldown_cmark::TagEnd);

/// One-for-one conversion of a start tag.
#[verifier::external_body]
fn md_tag(t: Tag<'_>) -> MdTag {
    match t {
        Tag::Paragraph => MdTag::Paragraph,
        Tag::Heading { level, .. } => MdTag::Heading(level as u8),
        Tag::BlockQuote(_) => MdTag::BlockQuote,
        Tag::CodeBlock(_) => MdTag::CodeBlock,
        Tag::List(start) => MdTag::List(start),
        Tag::Item => MdTag::Item,
        Tag::Emphasis => MdTag::Emphasis,
        Tag::Strong => MdTag::Strong,
        Tag::Strikethrough => MdTag::Strikethrough,
        Tag::Link { .. } => MdTag::Link,
        Tag::Image { .. } => MdTag::Image,
        _ => MdTag::Other,
    }
}

/// One-for-one conversion of an end tag.
#[verifier::external_body]
fn md_tag_end(t: TagEnd) -> MdTag {
    match t {
        TagEnd::Paragraph => MdTag::Paragraph,
        TagEnd::Heading(level) => MdTag::Heading(level as u8),
        TagEnd::BlockQuote(_) => MdTag::BlockQuote,
        TagEnd::CodeBlock => MdTag::CodeBlock,
        TagEnd::List(_) => MdTag::List(None),
        TagEnd::Item => MdTag::Item,
        TagEnd::Emphasis => MdTag::Emphasis,
        TagEnd::Strong => MdTag::Strong,
        TagEnd::Strikethrough => MdTag::Strikethrough,
        TagEnd::Link => MdTag::Link,
        TagEnd::Image => MdTag::Image,
        _ => MdTag::Other,
    }
}

/// One-for-one conversion of a parser event.
#[verifier::external_body]
fn md_event(e: Event<'_>) -> MdEvent {
    match e {
        Event::Start(t) => MdEvent::Start(md_tag(t)),
        Event::End(t) => MdEvent::End(md_tag_end(t)),
        Event::Text(s) => MdEvent::Text(s.to_string()),
        Event::Code(s) => MdEvent::Code(s.to_string()),
        Event::InlineMath(s) => MdEvent::InlineMath(s.to_string()),
        Event::DisplayMath(s) => MdEvent::DisplayMath(s.to_string()),
        Event::Html(_) | Event::InlineHtml(_) => MdEvent::Html,
        Event::SoftBreak => MdEvent::SoftBreak,
        Event::HardBreak => MdEvent::HardBreak,
        Event::Rule => MdEvent::Rule,
        _ => MdEvent::Ignored,
    }
}

/// The event stream of `pulldown_cmark::Parser::new_ext(src,
/// Options::empty())`, each event mapped one for one. The contract only
/// names the result.
#[verifier::external_body]
pub(crate) fn markdown_events(src: &str) -> (r: Vec<MdEvent>)
    ensures
        md_events_view(r@) == spec_markdown_events(src@),
{
    pulldown_cmark::Parser::new_ext(src, pulldown_cmark::Options::empty()).map(md_event).collect()
}

/// `UnicodeWidthChar::width(c).unwrap_or(0)`. Per the crate's source the
/// width is at most 3, printable ASCII is 1 wide and control characters
/// have no width.
#[verifier::external_body]
pub(crate) fn char_width(c: char) -> (w: usize)
    ensures
        w as nat == spec_char_width(c),
        w <= 3,
        (' ' <= c && c < '\u{7f}') ==> w == 1,
        (c < ' ' || ('\u{7f}' <= c && c < '\u{a0}')) ==> w == 0,
{
    unicode_width::UnicodeWidthChar::width(c).unwrap_or(0)
}

// ---------------------------------------------------------------------
// walker state and its transition function
// ---------------------------------------------------------------------

pub ghost struct WalkerModel {
    pub wrap_at: nat,
    pub out: Seq<Seq<SpanModel>>,
    pub cur: Seq<SpanModel>,
    pub cur_width: nat,
    pub styles: Seq<Style>,
    pub in_code: bool,
    pub lists: Seq<Option<u64>>,
    pub indent: Seq<char>,
    pub pending: Option<Seq<char>>,
}

pub open spec fn umax() -> nat {
    usize::MAX as nat
}

/// Addition that stops at `usize::MAX`.
pub open spec fn sat(a: nat) -> nat {
    if a > umax() {
        umax()
    } else {
        a
    }
}

pub open spec fn str_width(s: Seq<char>) -> nat
    decreases s.len(),
{
    if s.len() == 0 {
        0
    } else {
        sat(str_width(s.drop_last()) + spec_char_width(s.last()))
    }
}

pub open spec fn spans_width(v: Seq<SpanModel>) -> nat
    decreases v.len(),
{
    if v.len() == 0 {
        0
    } else {
        sat(spans_width(v.drop_last()) + str_width(v.last().content))
    }
}

pub open spec fn cur_style(w: WalkerModel) -> Style {
    if w.styles.len() > 0 {
        w.styles.last()
    } else {
        default_style()
    }
}

pub open spec fn push_style(w: WalkerModel, s: Style) -> WalkerModel {
    WalkerModel { styles: w.styles.push(s), ..w }
}

pub open spec fn pop_style(w: WalkerModel) -> WalkerModel {
    if w.styles.len() > 1 {
        WalkerModel { styles: w.styles.drop_last(), ..w }
    } else {
        w
    }
}

pub open spec fn opt_seq(o: Option<Seq<char>>) -> Seq<SpanModel> {
    match o {
        Some(p) => seq![SpanModel { content: p, style: default_style() }],
        None => Seq::empty(),
    }
}

pub open spec fn dim_style() -> Style {
    Style { dim: true, ..default_style() }
}

/// Emit the current line (indent, pending list marker, spans) unless
/// there is nothing to emit.
pub open spec fn flush(w: WalkerModel) -> WalkerModel {
    if w.cur.len() == 0 && w.pending is None && w.indent.len() == 0 {
        w
    } else {
        let ind = if w.indent.len() > 0 {
            seq![SpanModel { content: w.indent, style: dim_style() }]
        } else {
            Seq::empty()
        };
        WalkerModel {
            out: w.out.push(ind + opt_seq(w.pending) + w.cur),
            cur: Seq::empty(),
            cur_width: 0,
            pending: None,
            ..w
        }
    }
}

pub open spec fn line_budget(w: WalkerModel) -> nat {
    let used = sat(
        str_width(w.indent) + match w.pending {
            Some(p) => str_width(p),
            None => 0,
        },
    );
    let b = if w.wrap_at > used {
        (w.wrap_at - used) as nat
    } else {
        0
    };
    if b < 1 {
        1
    } else {
        b
    }
}

/// Index of the last occurrence of `c` in `s`.
pub open spec fn last_index_of(s: Seq<char>, c: char) -> Option<nat>
    decreases s.len(),
{
    if s.len() == 0 {
        None
    } else if s.last() == c {
        Some((s.len() - 1) as nat)
    } else {
        last_index_of(s.drop_last(), c)
    }
}

/// `(span, char)` position of the last space in the current spans.
pub open spec fn last_space(v: Seq<SpanModel>) -> Option<(nat, nat)>
    decreases v.len(),
{
    if v.len() == 0 {
        None
    } else {
        match last_index_of(v.last().content, ' ') {
            Some(ci) => Some(((v.len() - 1) as nat, ci)),
            None => last_space(v.drop_last()),
        }
    }
}

/// Number of trailing spaces.
pub open spec fn trail_spaces(s: Seq<char>) -> nat
    decreases s.len(),
{
    if s.len() > 0 && s.last() == ' ' {
        1 + trail_spaces(s.drop_last())
    } else {
        0
    }
}

pub open spec fn trim_end_spaces(s: Seq<char>) -> Seq<char> {
    s.take(s.len() - trail_spaces(s))
}

/// Break the current line after its last space; the text after the space
/// starts the next line. Without a space, break where we are.
pub open spec fn wrap_last_space(w: WalkerModel) -> WalkerModel {
    match last_space(w.cur) {
        Some((si, ci)) => {
            let sp = w.cur[si as int];
            let before = trim_end_spaces(sp.content.take(ci + 1int));
            let after = sp.content.skip(ci + 1int);
            let trailing = w.cur.skip(si + 1int);
            let kept = if before.len() == 0 {
                w.cur.take(si as int)
            } else {
                w.cur.take(si as int).push(SpanModel { content: before, style: sp.style })
            };
            let tail = if after.len() > 0 {
                seq![SpanModel { content: after, style: sp.style }] + trailing
            } else {
                trailing
            };
            let w1 = flush(WalkerModel { cur: kept, ..w });
            WalkerModel { cur: tail, cur_width: spans_width(tail), ..w1 }
        },
        None => flush(w),
    }
}

pub open spec fn append_span(w: WalkerModel, sp: SpanModel, width: nat) -> WalkerModel {
    if w.cur.len() > 0 && w.cur.last().style == sp.style {
        WalkerModel {
            cur: w.cur.update(
                w.cur.len() - 1,
                SpanModel { content: w.cur.last().content + sp.content, style: sp.style },
            ),
            cur_width: sat(w.cur_width + width),
            ..w
        }
    } else {
        WalkerModel { cur: w.cur.push(sp), cur_width: sat(w.cur_width + width), ..w }
    }
}

pub open spec fn push_char(w: WalkerModel, c: char) -> WalkerModel {
    let cw = spec_char_width(c);
    let w1 = if sat(w.cur_width + cw) > line_budget(w) && w.cur_width > 0 {
        wrap_last_space(w)
    } else {
        w
    };
    append_span(w1, SpanModel { content: seq![c], style: cur_style(w1) }, cw)
}

pub open spec fn emit_chars(w: WalkerModel, s: Seq<char>) -> WalkerModel
    decreases s.len(),
{
    if s.len() == 0 {
        w
    } else {
        let w1 = emit_chars(w, s.drop_last());
        if s.last() == '\n' {
            flush(w1)
        } else {
            push_char(w1, s.last())
        }
    }
}

pub open spec fn emit_raw(w: WalkerModel, s: Seq<char>) -> WalkerModel
    decreases s.len(),
{
    if s.len() == 0 {
        w
    } else {
        push_char(emit_raw(w, s.drop_last()), s.last())
    }
}

/// A newline-terminated code line goes straight out, with the indent.
pub open spec fn code_line(w: WalkerModel, l: Seq<char>) -> WalkerModel {
    let st = Style { dim: true, ..cur_style(w) };
    let ind = if w.indent.len() > 0 {
        seq![SpanModel { content: w.indent, style: default_style() }]
    } else {
        Seq::empty()
    };
    WalkerModel { out: w.out.push(ind + seq![SpanModel { content: l, style: st }]), ..w }
}

pub open spec fn code_lines(w: WalkerModel, ls: Seq<Seq<char>>) -> WalkerModel
    decreases ls.len(),
{
    if ls.len() == 0 {
        w
    } else {
        code_line(code_lines(w, ls.drop_last()), ls.last())
    }
}

/// Code block text: each complete line is emitted as is; an unterminated
/// last piece joins the current line.
pub open spec fn code_text(w: WalkerModel, s: Seq<char>) -> WalkerModel {
    let parts = split_on(s, '\n');
    let w1 = code_lines(w, parts.drop_last());
    let last = parts.last();
    if last.len() > 0 {
        let st = Style { dim: true, ..cur_style(w1) };
        WalkerModel {
            cur: w1.cur.push(SpanModel { content: last, style: st }),
            cur_width: sat(w1.cur_width + str_width(last)),
            ..w1
        }
    } else {
        w1
    }
}

pub open spec fn emit_text(w: WalkerModel, s: Seq<char>) -> WalkerModel {
    if w.in_code {
        code_text(w, s)
    } else {
        emit_chars(w, s)
    }
}

pub open spec fn repeat(s: Seq<char>, n: nat) -> Seq<char>
    decreases n,
{
    if n == 0 {
        Seq::empty()
    } else {
        repeat(s, (n - 1) as nat) + s
    }
}

pub open spec fn code_style() -> Style {
    Style { fg: Color::Yellow, dim: true, italic: true, ..default_style() }
}

pub open spec fn item_marker(w: WalkerModel) -> (Seq<char>, Seq<Option<u64>>) {
    if w.lists.len() > 0 && w.lists.last() is Some {
        let n = w.lists.last()->0;
        let next = if n < u64::MAX {
            (n + 1) as u64
        } else {
            n
        };
        (decimal(n as nat) + ". "@, w.lists.update(w.lists.len() - 1, Some(next)))
    } else {
        ("• "@, w.lists)
    }
}

pub open spec fn start_tag(w: WalkerModel, t: MdTag) -> WalkerModel {
    match t {
        MdTag::Heading(level) => {
            let w1 = flush(w);
            let w2 = push_style(w1, Style { fg: Color::Magenta, bold: true, ..cur_style(w1) });
            emit_raw(w2, repeat("#"@, level as nat) + " "@)
        },
        MdTag::BlockQuote => {
            let w1 = flush(w);
            let w2 = WalkerModel { indent: w1.indent + "│ "@, ..w1 };
            push_style(w2, Style { dim: true, italic: true, ..cur_style(w2) })
        },
        MdTag::CodeBlock => WalkerModel { in_code: true, ..flush(w) },
        MdTag::List(start) => {
            let w1 = flush(w);
            WalkerModel { lists: w1.lists.push(start), ..w1 }
        },
        MdTag::Item => {
            let w1 = flush(w);
            let (m, lists) = item_marker(w1);
            WalkerModel { pending: Some(m), lists, ..w1 }
        },
        MdTag::Emphasis => push_style(w, Style { italic: true, ..cur_style(w) }),
        MdTag::Strong => push_style(w, Style { bold: true, ..cur_style(w) }),
        MdTag::Strikethrough => push_style(w, Style { crossed_out: true, ..cur_style(w) }),
        MdTag::Link => push_style(w, Style { fg: Color::Blue, underlined: true, ..cur_style(w) }),
        MdTag::Image => push_style(w, Style { dim: true, ..cur_style(w) }),
        _ => w,
    }
}

pub open spec fn push_blank(w: WalkerModel) -> WalkerModel {
    WalkerModel { out: w.out.push(Seq::empty()), ..w }
}

pub open spec fn pop_indent(w: WalkerModel, s: Seq<char>) -> WalkerModel {
    if w.indent.len() >= s.len() && w.indent.skip(w.indent.len() - s.len()) == s {
        WalkerModel { indent: w.indent.take(w.indent.len() - s.len()), ..w }
    } else {
        w
    }
}

/// Collapse a run of blank lines at the end of the output to one.
pub open spec fn trim_blank(out: Seq<Seq<SpanModel>>) -> Seq<Seq<SpanModel>>
    decreases out.len(),
{
    if out.len() > 1 && out.last().len() == 0 && out[out.len() - 2].len() == 0 {
        trim_blank(out.drop_last())
    } else {
        out
    }
}

pub open spec fn end_tag_inner(w: WalkerModel, t: MdTag) -> WalkerModel {
    match t {
        MdTag::Paragraph => push_blank(flush(w)),
        MdTag::Heading(_) => push_blank(pop_style(flush(w))),
        MdTag::BlockQuote => push_blank(pop_style(pop_indent(flush(w), "│ "@))),
        MdTag::CodeBlock => push_blank(WalkerModel { in_code: false, ..flush(w) }),
        MdTag::List(_) => {
            let w1 = flush(w);
            let w2 = if w1.lists.len() > 0 {
                WalkerModel { lists: w1.lists.drop_last(), ..w1 }
            } else {
                w1
            };
            if w2.lists.len() == 0 {
                push_blank(w2)
            } else {
                w2
            }
        },
        MdTag::Item => WalkerModel { pending: None, ..flush(w) },
        MdTag::Emphasis | MdTag::Strong | MdTag::Strikethrough | MdTag::Link | MdTag::Image => {
            pop_style(w)
        },
        _ => w,
    }
}

pub open spec fn end_tag(w: WalkerModel, t: MdTag) -> WalkerModel {
    let w1 = end_tag_inner(w, t);
    WalkerModel { out: trim_blank(w1.out), ..w1 }
}

/// What one markdown event does to the walker.
pub open spec fn step(w: WalkerModel, e: MdEventModel) -> WalkerModel {
    match e {
        MdEventModel::Start(t) => start_tag(w, t),
        MdEventModel::End(t) => end_tag(w, t),
        MdEventModel::Text(s) => emit_text(w, s),
        MdEventModel::Code(s) => pop_style(emit_text(push_style(w, code_style()), s)),
        MdEventModel::SoftBreak => emit_text(w, " "@),
        MdEventModel::HardBreak => flush(w),
        MdEventModel::Rule => {
            let w1 = flush(w);
            let n = if w1.wrap_at < 40 {
                w1.wrap_at
            } else {
                40
            };
            WalkerModel {
                out: w1.out.push(seq![SpanModel { content: repeat("─"@, n), style: dim_style() }]),
                ..w1
            }
        },
        MdEventModel::InlineMath(s) | MdEventModel::DisplayMath(s) => emit_text(w, s),
        MdEventModel::Html | MdEventModel::Ignored => w,
    }
}

/// Outside a code block a soft line break is a space: it does what the
/// text `" "` does, and on a line with room for one more character it
/// adds exactly a space to the current line's text and emits nothing, so
/// the words on either side of the break stay apart.
pub proof fn law_soft_break_is_a_space(w: WalkerModel)
    requires
        !w.in_code,
    ensures
        step(w, MdEventModel::SoftBreak) == step(w, MdEventModel::Text(" "@)),
        (w.cur_width == 0 || sat(w.cur_width + spec_char_width(' ')) <= line_budget(w)) ==> {
            let r = step(w, MdEventModel::SoftBreak);
            &&& crate::style::line_text(r.cur) == crate::style::line_text(w.cur) + " "@
            &&& r.out == w.out
        },
{
    let sp = " "@;
    assert(sp.len() == 1 && sp[0] == ' ') by {
        reveal_strlit(" ");
    }
    assert(sp.drop_last() =~= Seq::<char>::empty());
    assert(emit_chars(w, sp.drop_last()) == w);
    assert(sp.last() == ' ');
    assert(emit_chars(w, sp) == push_char(w, ' '));
    let cw = spec_char_width(' ');
    if w.cur_width == 0 || sat(w.cur_width + cw) <= line_budget(w) {
        let span = SpanModel { content: seq![' '], style: cur_style(w) };
        let r = append_span(w, span, cw);
        assert(push_char(w, ' ') == r);
        if w.cur.len() > 0 && w.cur.last().style == span.style {
            let l = w.cur.last();
            assert(r.cur.drop_last() =~= w.cur.drop_last());
            assert(r.cur.last().content == l.content + seq![' ']);
            assert(crate::style::line_text(r.cur) =~= crate::style::line_text(w.cur.drop_last()) + l.content
                + seq![' ']);
        } else {
            assert(r.cur.drop_last() =~= w.cur);
        }
        assert(seq![' '] =~= sp);
    }
}

pub open spec fn steps(w: WalkerModel, es: Seq<MdEventModel>) -> WalkerModel
    decreases es.len(),
{
    if es.len() == 0 {
        w
    } else {
        step(steps(w, es.drop_last()), es.last())
    }
}

pub open spec fn init_walker(wrap_at: nat) -> WalkerModel {
    WalkerModel {
        wrap_at,
        out: Seq::empty(),
        cur: Seq::empty(),
        cur_width: 0,
        styles: seq![default_style()],
        in_code: false,
        lists: Seq::empty(),
        indent: Seq::empty(),
        pending: None,
    }
}

pub open spec fn effective_md_width(width: nat) -> nat {
    if width == 0 {
        80
    } else {
        width
    }
}

/// The lines `render_markdown(src, width)` produces.
pub open spec fn markdown_lines(src: Seq<char>, width: nat) -> Seq<Seq<SpanModel>> {
    flush(steps(init_walker(effective_md_width(width)), spec_markdown_events(src))).out
}

} // verus!

verus! {

// ---------------------------------------------------------------------
// executable walker
// ---------------------------------------------------------------------

struct Walker {
    wrap_at: usize,
    out: Vec<Line>,
    cur_spans: Vec<Span>,
    cur_width: usize,
    style_stack: Vec<Style>,
    in_code_block: bool,
    list_stack: Vec<Option<u64>>,
    indent: String,
    pending_item_prefix: Option<String>,
}

pub open spec fn opt_chars(o: Option<String>) -> Option<Seq<char>> {
    match o {
        Some(s) => Some(s@),
        None => None,
    }
}

impl View for Walker {
    type V = WalkerModel;

    closed spec fn view(&self) -> WalkerModel {
        WalkerModel {
            wrap_at: self.wrap_at as nat,
            out: lines_view(self.out@),
            cur: spans_view(self.cur_spans@),
            cur_width: self.cur_width as nat,
            styles: self.style_stack@,
            in_code: self.in_code_block,
            lists: self.list_stack@,
            indent: self.indent@,
            pending: opt_chars(self.pending_item_prefix),
        }
    }
}

fn sat_add(a: usize, b: usize) -> (r: usize)
    ensures
        r as nat == sat((a + b) as nat),
{
    if a > usize::MAX - b {
        usize::MAX
    } else {
        a + b
    }
}

fn str_width_exec(s: &str) -> (r: usize)
    ensures
        r as nat == str_width(s@),
{
    let cs = chars_of(s);
    let mut w: usize = 0;
    let mut i: usize = 0;
    while i < cs.len()
        invariant
            i <= cs.len(),
            cs@ == s@,
            w as nat == str_width(cs@.take(i as int)),
        decreases cs.len() - i,
    {
        proof {
            assert(cs@.take(i + 1).drop_last() =~= cs@.take(i as int));
        }
        let cw = char_width(cs[i]);
        w = sat_add(w, cw);
        i += 1;
    }
    assert(cs@.take(cs.len() as int) =~= cs@);
    w
}

fn spans_width_exec(v: &Vec<Span>) -> (r: usize)
    ensures
        r as nat == spans_width(spans_view(v@)),
{
    let ghost sv = spans_view(v@);
    let mut w: usize = 0;
    let mut i: usize = 0;
    while i < v.len()
        invariant
            i <= v.len(),
            sv == spans_view(v@),
            w as nat == spans_width(sv.take(i as int)),
        decreases v.len() - i,
    {
        proof {
            assert(sv.take(i + 1).drop_last() =~= sv.take(i as int));
        }
        let sw = str_width_exec(v[i].content.as_str());
        w = sat_add(w, sw);
        i += 1;
    }
    assert(sv.take(v.len() as int) =~= sv);
    w
}

pub fn last_index_of_exec(cs: &Vec<char>, c: char) -> (r: Option<usize>)
    ensures
        match r {
            Some(i) => last_index_of(cs@, c) == Some(i as nat),
            None => last_index_of(cs@, c) is None,
        },
{
    let mut i: usize = cs.len();
    assert(cs@.take(cs.len() as int) =~= cs@);
    while i > 0
        invariant
            i <= cs.len(),
            last_index_of(cs@, c) == last_index_of(cs@.take(i as int), c),
        decreases i,
    {
        proof {
            assert(cs@.take(i as int).drop_last() =~= cs@.take(i - 1));
        }
        if cs[i - 1] == c {
            return Some(i - 1);
        }
        i -= 1;
    }
    None
}

impl Walker {
    fn new(wrap_at: usize) -> (w: Walker)
        ensures
            w@ == init_walker(wrap_at as nat),
    {
        let mut styles: Vec<Style> = Vec::new();
        styles.push(plain());
        let w = Walker {
            wrap_at,
            out: Vec::new(),
            cur_spans: Vec::new(),
            cur_width: 0,
            style_stack: styles,
            in_code_block: false,
            list_stack: Vec::new(),
            indent: String::new(),
            pending_item_prefix: None,
        };
        assert(w@.out =~= Seq::<Seq<SpanModel>>::empty());
        assert(w@.cur =~= Seq::<SpanModel>::empty());
        assert(w@.styles =~= seq![default_style()]);
        w
    }

    fn current_style(&self) -> (s: Style)
        ensures
            s == cur_style(self@),
    {
        if self.style_stack.len() > 0 {
            self.style_stack[self.style_stack.len() - 1]
        } else {
            plain()
        }
    }

    fn push_style(&mut self, s: Style)
        ensures
            final(self)@ == push_style(old(self)@, s),
    {
        self.style_stack.push(s);
    }

    fn pop_style(&mut self)
        ensures
            final(self)@ == pop_style(old(self)@),
    {
        if self.style_stack.len() > 1 {
            self.style_stack.pop();
        }
    }

    fn flush_line(&mut self)
        ensures
            final(self)@ == flush(old(self)@),
    {
        if self.cur_spans.len() == 0 && self.pending_item_prefix.is_none()
            && self.indent.as_str().is_empty() {
            return;
        }
        let ghost w0 = self@;
        let mut spans: Vec<Span> = Vec::new();
        if !self.indent.as_str().is_empty() {
            let mut st = plain();
            st.dim = true;
            spans.push(Span { content: self.indent.clone(), style: st });
        }
        let pend = self.pending_item_prefix.take();
        match pend {
            Some(p) => {
                spans.push(Span { content: p, style: plain() });
            },
            None => {},
        }
        let mut rest: Vec<Span> = Vec::new();
        std::mem::swap(&mut rest, &mut self.cur_spans);
        let ghost before_append = spans_view(spans@);
        spans.append(&mut rest);
        proof {
            let ind = if w0.indent.len() > 0 {
                seq![SpanModel { content: w0.indent, style: dim_style() }]
            } else {
                Seq::<SpanModel>::empty()
            };
            assert(before_append =~= ind + opt_seq(w0.pending));
            assert(spans_view(spans@) =~= ind + opt_seq(w0.pending) + w0.cur);
        }
        self.out.push(Line { spans });
        self.cur_width = 0;
        proof {
            assert(self@.out =~= flush(w0).out);
            assert(self@.cur =~= Seq::<SpanModel>::empty());
        }
    }

    fn line_budget(&self) -> (b: usize)
        ensures
            b as nat == line_budget(self@),
    {
        let indent_w = str_width_exec(self.indent.as_str());
        let prefix_w = match &self.pending_item_prefix {
            Some(p) => str_width_exec(p.as_str()),
            None => 0,
        };
        let used = sat_add(indent_w, prefix_w);
        let b = if self.wrap_at > used {
            self.wrap_at - used
        } else {
            0
        };
        if b < 1 {
            1
        } else {
            b
        }
    }

    fn last_space_position(&self) -> (r: Option<(usize, usize)>)
        ensures
            match r {
                Some((si, ci)) => last_space(self@.cur) == Some((si as nat, ci as nat)),
                None => last_space(self@.cur) is None,
            },
    {
        let ghost v = self@.cur;
        let mut i: usize = self.cur_spans.len();
        assert(v.take(v.len() as int) =~= v);
        while i > 0
            invariant
                i <= self.cur_spans.len(),
                v == spans_view(self.cur_spans@),
                last_space(v) == last_space(v.take(i as int)),
            decreases i,
        {
            proof {
                assert(v.take(i as int).drop_last() =~= v.take(i - 1));
                assert(v.take(i as int).last() == v[i - 1]);
            }
            let cs = chars_of(self.cur_spans[i - 1].content.as_str());
            match last_index_of_exec(&cs, ' ') {
                Some(ci) => {
                    return Some((i - 1, ci));
                },
                None => {},
            }
            i -= 1;
        }
        proof {
            assert(v.take(0) =~= Seq::<SpanModel>::empty());
        }
        None
    }

    fn wrap_line_at_last_space(&mut self)
        ensures
            final(self)@ == wrap_last_space(old(self)@),
    {
        let ghost w0 = self@;
        proof {
            lemma_last_space_in_range(w0.cur);
        }
        match self.last_space_position() {
            Some((si, ci)) => {
                assert(w0.cur.len() == self.cur_spans.len());
                let ghost sp0 = w0.cur[si as int];
                let mut trailing = self.cur_spans.split_off(si + 1);
                let sp = self.cur_spans.pop().unwrap();
                assert(sp@ == sp0);
                let cs = chars_of(sp.content.as_str());
                proof {
                    // the position is inside the span's text
                    lemma_last_index_in_range(sp0.content, ' ');
                }
                assert(ci < cs.len());
                let mut end: usize = ci + 1;
                while end > 0 && cs[end - 1] == ' '
                    invariant
                        end <= ci + 1 <= cs.len(),
                        cs@ == sp0.content,
                        trail_spaces(cs@.take(ci + 1)) == (ci + 1 - end) + trail_spaces(
                            cs@.take(end as int),
                        ),
                    decreases end,
                {
                    proof {
                        assert(cs@.take(end as int).drop_last() =~= cs@.take(end - 1));
                    }
                    end -= 1;
                }
                proof {
                    if end > 0 {
                        assert(cs@.take(end as int).last() == cs@[end - 1]);
                    }
                    assert(trail_spaces(cs@.take(end as int)) == 0);
                    assert(trim_end_spaces(sp0.content.take(ci + 1)) =~= cs@.take(end as int));
                }
                let before = string_from_range(&cs, 0, end);
                let after = string_from_range(&cs, ci + 1, cs.len());
                proof {
                    assert(before@ =~= trim_end_spaces(sp0.content.take(ci + 1)));
                    assert(after@ =~= sp0.content.skip(ci + 1));
                }
                let style = sp.style;
                let ghost kept_before = spans_view(self.cur_spans@);
                if end > 0 {
                    self.cur_spans.push(Span { content: before, style });
                }
                proof {
                    assert(kept_before =~= w0.cur.take(si as int));
                    let kept = if end == 0 {
                        w0.cur.take(si as int)
                    } else {
                        w0.cur.take(si as int).push(
                            SpanModel { content: before@, style: sp0.style },
                        )
                    };
                    assert(self@.cur =~= kept);
                    assert(self@ == (WalkerModel { cur: kept, ..w0 }));
                }
                let mut tail: Vec<Span> = Vec::new();
                if ci + 1 < cs.len() {
                    tail.push(Span { content: after, style });
                }
                let ghost tail_head = spans_view(tail@);
                let ghost trailing_v = spans_view(trailing@);
                tail.append(&mut trailing);
                proof {
                    assert(trailing_v =~= w0.cur.skip(si + 1int));
                    assert(spans_view(tail@) =~= tail_head + trailing_v);
                    let after_s = sp0.content.skip(ci + 1int);
                    if after_s.len() > 0 {
                        assert(tail_head =~= seq![SpanModel { content: after_s, style: sp0.style }]);
                    } else {
                        assert(tail_head =~= Seq::<SpanModel>::empty());
                        assert(spans_view(tail@) =~= trailing_v);
                    }
                }
                let ghost mid = self@;
                self.flush_line();
                let tw = spans_width_exec(&tail);
                self.cur_width = tw;
                self.cur_spans = tail;
            },
            None => {
                self.flush_line();
            },
        }
    }

    fn append_span(&mut self, sp: Span, width: usize)
        ensures
            final(self)@ == append_span(old(self)@, sp@, width as nat),
    {
        let ghost w0 = self@;
        let n = self.cur_spans.len();
        if n > 0 && self.cur_spans[n - 1].style == sp.style {
            let mut last = self.cur_spans.pop().unwrap();
            push_str(&mut last.content, sp.content.as_str());
            self.cur_spans.push(last);
            self.cur_width = sat_add(self.cur_width, width);
            proof {
                assert(self@.cur =~= w0.cur.update(
                    w0.cur.len() - 1,
                    SpanModel { content: w0.cur.last().content + sp@.content, style: sp@.style },
                ));
            }
        } else {
            self.cur_spans.push(sp);
            self.cur_width = sat_add(self.cur_width, width);
            proof {
                assert(self@.cur =~= w0.cur.push(sp@));
            }
        }
    }

    fn push_char(&mut self, ch: char)
        ensures
            final(self)@ == push_char(old(self)@, ch),
    {
        let w = char_width(ch);
        let budget = self.line_budget();
        if sat_add(self.cur_width, w) > budget && self.cur_width > 0 {
            self.wrap_line_at_last_space();
        }
        let style = self.current_style();
        let mut content = String::new();
        string_push(&mut content, ch);
        assert(content@ =~= seq![ch]);
        self.append_span(Span { content, style }, w);
    }

    fn emit_raw(&mut self, text: &str)
        ensures
            final(self)@ == emit_raw(old(self)@, text@),
    {
        let ghost w0 = self@;
        let cs = chars_of(text);
        let mut i: usize = 0;
        while i < cs.len()
            invariant
                i <= cs.len(),
                cs@ == text@,
                self@ == emit_raw(w0, cs@.take(i as int)),
            decreases cs.len() - i,
        {
            proof {
                assert(cs@.take(i + 1).drop_last() =~= cs@.take(i as int));
            }
            self.push_char(cs[i]);
            i += 1;
        }
        assert(cs@.take(cs.len() as int) =~= cs@);
    }

    fn emit_plain_text(&mut self, text: &str)
        ensures
            final(self)@ == emit_chars(old(self)@, text@),
    {
        let ghost w0 = self@;
        let cs = chars_of(text);
        let mut i: usize = 0;
        while i < cs.len()
            invariant
                i <= cs.len(),
                cs@ == text@,
                self@ == emit_chars(w0, cs@.take(i as int)),
            decreases cs.len() - i,
        {
            proof {
                assert(cs@.take(i + 1).drop_last() =~= cs@.take(i as int));
            }
            if cs[i] == '\n' {
                self.flush_line();
            } else {
                self.push_char(cs[i]);
            }
            i += 1;
        }
        assert(cs@.take(cs.len() as int) =~= cs@);
    }

    fn code_line(&mut self, cs: &Vec<char>, from: usize, to: usize)
        requires
            from <= to <= cs.len(),
        ensures
            final(self)@ == code_line(old(self)@, cs@.subrange(from as int, to as int)),
    {
        let ghost w0 = self@;
        let mut st = self.current_style();
        st.dim = true;
        let mut spans: Vec<Span> = Vec::new();
        if !self.indent.as_str().is_empty() {
            spans.push(Span { content: self.indent.clone(), style: plain() });
        }
        let content = string_from_range(cs, from, to);
        spans.push(Span { content, style: st });
        proof {
            let ind = if w0.indent.len() > 0 {
                seq![SpanModel { content: w0.indent, style: default_style() }]
            } else {
                Seq::<SpanModel>::empty()
            };
            assert(spans_view(spans@) =~= ind + seq![
                SpanModel { content: cs@.subrange(from as int, to as int), style: st },
            ]);
        }
        self.out.push(Line { spans });
        assert(self@.out =~= code_line(w0, cs@.subrange(from as int, to as int)).out);
    }

    fn emit_code_block_text(&mut self, text: &str)
        ensures
            final(self)@ == code_text(old(self)@, text@),
    {
        let ghost w0 = self@;
        let cs = chars_of(text);
        let ghost parts = split_on(cs@, '\n');
        // `start` is where the current (unterminated) line begins.
        let mut start: usize = 0;
        let mut i: usize = 0;
        proof {
            assert(cs@.take(0) =~= Seq::<char>::empty());
            assert(split_on(Seq::<char>::empty(), '\n') =~= seq![Seq::<char>::empty()]);
        }
        while i < cs.len()
            invariant
                start <= i <= cs.len(),
                cs@ == text@,
                split_on(cs@.take(i as int), '\n').last() == cs@.subrange(start as int, i as int),
                split_on(cs@.take(i as int), '\n').len() >= 1,
                self@ == code_lines(w0, split_on(cs@.take(i as int), '\n').drop_last()),
            decreases cs.len() - i,
        {
            let ghost pi = split_on(cs@.take(i as int), '\n');
            proof {
                assert(cs@.take(i + 1).drop_last() =~= cs@.take(i as int));
                assert(cs@.take(i + 1).last() == cs@[i as int]);
            }
            if cs[i] == '\n' {
                self.code_line(&cs, start, i);
                proof {
                    let pn = split_on(cs@.take(i + 1), '\n');
                    assert(pn == pi.push(Seq::<char>::empty()));
                    assert(pn.drop_last() =~= pi);
                    assert(pi == pi.drop_last().push(pi.last()));
                }
                start = i + 1;
                proof {
                    assert(cs@.subrange(start as int, i + 1) =~= Seq::<char>::empty());
                }
            } else {
                proof {
                    let pn = split_on(cs@.take(i + 1), '\n');
                    assert(pn == pi.update(pi.len() - 1, pi.last().push(cs@[i as int])));
                    assert(pn.drop_last() =~= pi.drop_last());
                    assert(cs@.subrange(start as int, i + 1) =~= cs@.subrange(
                        start as int,
                        i as int,
                    ).push(cs@[i as int]));
                }
            }
            i += 1;
        }
        proof {
            assert(cs@.take(cs.len() as int) =~= cs@);
        }
        if start < cs.len() {
            let mut st = self.current_style();
            st.dim = true;
            let content = string_from_range(&cs, start, cs.len());
            let w = str_width_exec(content.as_str());
            let ghost w1 = self@;
            self.cur_spans.push(Span { content, style: st });
            self.cur_width = sat_add(self.cur_width, w);
            proof {
                assert(self@.cur =~= w1.cur.push(
                    SpanModel { content: cs@.subrange(start as int, cs.len() as int), style: st },
                ));
            }
        }
    }

    fn emit_text(&mut self, text: &str)
        ensures
            final(self)@ == emit_text(old(self)@, text@),
    {
        if self.in_code_block {
            self.emit_code_block_text(text);
        } else {
            self.emit_plain_text(text);
        }
    }

    fn push_indent(&mut self, s: &str)
        ensures
            final(self)@ == (WalkerModel { indent: old(self)@.indent + s@, ..old(self)@ }),
    {
        push_str(&mut self.indent, s);
    }

    fn pop_indent(&mut self, s: &str)
        ensures
            final(self)@ == pop_indent(old(self)@, s@),
    {
        let ic = chars_of(self.indent.as_str());
        let sc = chars_of(s);
        if ic.len() >= sc.len() {
            let k = ic.len() - sc.len();
            let mut j: usize = 0;
            while j < sc.len()
                invariant
                    j <= sc.len(),
                    k + sc.len() == ic.len(),
                    ic@ == self.indent@,
                    sc@ == s@,
                    *self == *old(self),
                    forall|t: int| 0 <= t < j ==> ic@[k + t] == sc@[t],
                decreases sc.len() - j,
            {
                if ic[k + j] != sc[j] {
                    proof {
                        assert(ic@.skip(k as int)[j as int] == ic@[k + j]);
                        assert(!(ic@.skip(k as int) =~= sc@));
                    }
                    return;
                }
                j += 1;
            }
            assert(ic@.skip(k as int) =~= sc@);
            self.indent = string_from_range(&ic, 0, k);
        }
    }

    fn item_marker(&mut self) -> (m: String)
        ensures
            (m@, final(self)@.lists) == item_marker(old(self)@),
            final(self)@ == (WalkerModel { lists: final(self)@.lists, ..old(self)@ }),
    {
        let n = self.list_stack.len();
        if n > 0 {
            match self.list_stack[n - 1] {
                Some(k) => {
                    let mut m = u64_to_string(k);
                    push_str(&mut m, ". ");
                    let next = if k < u64::MAX {
                        k + 1
                    } else {
                        k
                    };
                    self.list_stack.set(n - 1, Some(next));
                    return m;
                },
                None => {},
            }
        }
        owned("• ")
    }

    fn start_heading(&mut self, level: u8)
        ensures
            final(self)@ == start_tag(old(self)@, MdTag::Heading(level)),
    {
        self.flush_line();
        let mut st = self.current_style();
        st.fg = Color::Magenta;
        st.bold = true;
        self.push_style(st);
        let mut h = String::new();
        let mut k: u8 = 0;
        while k < level
            invariant
                k <= level,
                h@ == repeat("#"@, k as nat),
            decreases level - k,
        {
            push_str(&mut h, "#");
            k += 1;
        }
        push_str(&mut h, " ");
        self.emit_raw(h.as_str());
    }

    fn start_block_quote(&mut self)
        ensures
            final(self)@ == start_tag(old(self)@, MdTag::BlockQuote),
    {
        self.flush_line();
        self.push_indent("│ ");
        let mut st = self.current_style();
        st.dim = true;
        st.italic = true;
        self.push_style(st);
    }

    fn start_list(&mut self, start: Option<u64>)
        ensures
            final(self)@ == start_tag(old(self)@, MdTag::List(start)),
    {
        self.flush_line();
        let ghost w1 = self@;
        self.list_stack.push(start);
        assert(self@.lists =~= w1.lists.push(start));
    }

    fn start_item(&mut self)
        ensures
            final(self)@ == start_tag(old(self)@, MdTag::Item),
    {
        self.flush_line();
        let m = self.item_marker();
        self.pending_item_prefix = Some(m);
    }

    fn start_tag(&mut self, tag: MdTag)
        ensures
            final(self)@ == start_tag(old(self)@, tag),
    {
        match tag {
            MdTag::Heading(level) => self.start_heading(level),
            MdTag::BlockQuote => self.start_block_quote(),
            MdTag::CodeBlock => {
                self.flush_line();
                self.in_code_block = true;
            },
            MdTag::List(start) => self.start_list(start),
            MdTag::Item => self.start_item(),
            MdTag::Emphasis => {
                let mut st = self.current_style();
                st.italic = true;
                self.push_style(st);
            },
            MdTag::Strong => {
                let mut st = self.current_style();
                st.bold = true;
                self.push_style(st);
            },
            MdTag::Strikethrough => {
                let mut st = self.current_style();
                st.crossed_out = true;
                self.push_style(st);
            },
            MdTag::Link => {
                let mut st = self.current_style();
                st.fg = Color::Blue;
                st.underlined = true;
                self.push_style(st);
            },
            MdTag::Image => {
                let mut st = self.current_style();
                st.dim = true;
                self.push_style(st);
            },
            _ => {},
        }
    }

    fn push_blank(&mut self)
        ensures
            final(self)@ == push_blank(old(self)@),
    {
        let ghost w0 = self@;
        self.out.push(empty_line());
        assert(self@.out =~= w0.out.push(Seq::<SpanModel>::empty()));
    }

    fn end_tag_inner(&mut self, tag: MdTag)
        ensures
            final(self)@ == end_tag_inner(old(self)@, tag),
    {
        match tag {
            MdTag::Paragraph => {
                self.flush_line();
                self.push_blank();
            },
            MdTag::Heading(_) => {
                self.flush_line();
                self.pop_style();
                self.push_blank();
            },
            MdTag::BlockQuote => {
                self.flush_line();
                self.pop_indent("│ ");
                self.pop_style();
                self.push_blank();
            },
            MdTag::CodeBlock => {
                self.flush_line();
                self.in_code_block = false;
                self.push_blank();
            },
            MdTag::List(_) => {
                self.flush_line();
                self.list_stack.pop();
                if self.list_stack.len() == 0 {
                    self.push_blank();
                }
            },
            MdTag::Item => {
                self.flush_line();
                self.pending_item_prefix = None;
            },
            MdTag::Emphasis | MdTag::Strong | MdTag::Strikethrough | MdTag::Link
            | MdTag::Image => {
                self.pop_style();
            },
            _ => {},
        }
    }

    fn end_tag(&mut self, tag: MdTag)
        ensures
            final(self)@ == end_tag(old(self)@, tag),
    {
        self.end_tag_inner(tag);
        let ghost w1 = self@;
        while self.out.len() > 1 && self.out[self.out.len() - 1].spans.len() == 0
            && self.out[self.out.len() - 2].spans.len() == 0
            invariant
                trim_blank(self@.out) == trim_blank(w1.out),
                self@ == (WalkerModel { out: self@.out, ..w1 }),
            decreases self.out.len(),
        {
            let ghost o = self@.out;
            self.out.pop();
            assert(self@.out =~= o.drop_last());
        }
    }

    fn event(&mut self, ev: MdEvent)
        ensures
            final(self)@ == step(old(self)@, ev@),
    {
        match ev {
            MdEvent::Start(tag) => self.start_tag(tag),
            MdEvent::End(tag) => self.end_tag(tag),
            MdEvent::Text(t) => self.emit_text(t.as_str()),
            MdEvent::Code(c) => {
                let mut st = plain();
                st.fg = Color::Yellow;
                st.dim = true;
                st.italic = true;
                self.push_style(st);
                self.emit_text(c.as_str());
                self.pop_style();
            },
            MdEvent::SoftBreak => self.emit_text(" "),
            MdEvent::HardBreak => self.flush_line(),
            MdEvent::Rule => {
                self.flush_line();
                let n = if self.wrap_at < 40 {
                    self.wrap_at
                } else {
                    40
                };
                let mut rule = String::new();
                let mut k: usize = 0;
                while k < n
                    invariant
                        k <= n,
                        rule@ == repeat("─"@, k as nat),
                    decreases n - k,
                {
                    push_str(&mut rule, "─");
                    k += 1;
                }
                let mut st = plain();
                st.dim = true;
                let ghost w0 = self@;
                self.out.push(line_of(Span { content: rule, style: st }));
                assert(self@.out =~= w0.out.push(
                    seq![SpanModel { content: repeat("─"@, n as nat), style: dim_style() }],
                ));
            },
            MdEvent::InlineMath(s) => self.emit_text(s.as_str()),
            MdEvent::DisplayMath(s) => self.emit_text(s.as_str()),
            MdEvent::Html => {},
            MdEvent::Ignored => {},
        }
    }
}

pub proof fn lemma_last_index_in_range(s: Seq<char>, c: char)
    ensures
        last_index_of(s, c) matches Some(i) ==> i < s.len() && s[i as int] == c,
    decreases s.len(),
{
    if s.len() > 0 && s.last() != c {
        lemma_last_index_in_range(s.drop_last(), c);
    }
}

pub proof fn lemma_last_space_in_range(v: Seq<SpanModel>)
    ensures
        last_space(v) matches Some((si, ci)) ==> si < v.len() && ci < v[si as int].content.len(),
    decreases v.len(),
{
    if v.len() > 0 {
        lemma_last_index_in_range(v.last().content, ' ');
        if last_index_of(v.last().content, ' ') is None {
            lemma_last_space_in_range(v.drop_last());
        }
    }
}

/// Render markdown `src` into wrapped, styled lines. A `width` of 0 means
/// "unknown" and falls back to 80 columns.
pub fn render_markdown(src: &str, width: usize) -> (r: Vec<Line>)
    ensures
        lines_view(r@) == markdown_lines(src@, width as nat),
{
    let wrap_at = if width == 0 {
        80
    } else {
        width
    };
    let mut walker = Walker::new(wrap_at);
    let events = markdown_events(src);
    let ghost es = md_events_view(events@);
    let ghost w0 = walker@;
    let ghost ev_seq = events@;
    for ev in it: events
        invariant
            it.seq() == ev_seq,
            es == md_events_view(ev_seq),
            walker@ == steps(w0, es.take(it.index() as int)),
    {
        proof {
            let k = it.index() as int;
            assert(es.take(k + 1).drop_last() =~= es.take(k));
            assert(es.take(k + 1).last() == ev_seq[k]@);
        }
        walker.event(ev);
    }
    assert(es.take(es.len() as int) =~= es);
    walker.flush_line();
    walker.out
}

} // verus!
