//! Styled terminal text: colours, styles, spans and lines.
//!
//! A library-side stand-in for the terminal toolkit's text types; the
//! program maps them one for one when it draws.

use vstd::prelude::*;

verus! {

#[derive(Debug, Clone, Copy, PartialEq, Eq, Structural)]
pub enum Color {
    /// No colour set (the terminal default).
    Reset,
    Black,
    Red,
    Green,
    Yellow,
    Blue,
    Magenta,
    Cyan,
    DarkGray,
    Indexed(u8),
}

/// Foreground, background and the text modifiers that are switched on.
#[derive(Debug, Clone, Copy, PartialEq, Eq, Structural)]
pub struct Style {
    pub fg: Color,
    pub bg: Color,
    pub bold: bool,
    pub dim: bool,
    pub italic: bool,
    pub underlined: bool,
    pub crossed_out: bool,
}

pub open spec fn default_style() -> Style {
    Style {
        fg: Color::Reset,
        bg: Color::Reset,
        bold: false,
        dim: false,
        italic: false,
        underlined: false,
        crossed_out: false,
    }
}

/// The style with nothing set.
pub fn plain() -> (s: Style)
    ensures
        s == default_style(),
{
    Style {
        fg: Color::Reset,
        bg: Color::Reset,
        bold: false,
        dim: false,
        italic: false,
        underlined: false,
        crossed_out: false,
    }
}

/// `s` with foreground `c`.
pub fn with_fg(s: Style, c: Color) -> (r: Style)
    ensures
        r == (Style { fg: c, ..s }),
{
    Style { fg: c, ..s }
}

pub fn with_bold(s: Style) -> (r: Style)
    ensures
        r == (Style { bold: true, ..s }),
{
    Style { bold: true, ..s }
}

pub fn with_dim(s: Style) -> (r: Style)
    ensures
        r == (Style { dim: true, ..s }),
{
    Style { dim: true, ..s }
}

pub fn with_italic(s: Style) -> (r: Style)
    ensures
        r == (Style { italic: true, ..s }),
{
    Style { italic: true, ..s }
}

/// A run of text in one style.
#[derive(Debug)]
pub struct Span {
    pub content: String,
    pub style: Style,
}

pub ghost struct SpanModel {
    pub content: Seq<char>,
    pub style: Style,
}

impl View for Span {
    type V = SpanModel;

    open spec fn view(&self) -> SpanModel {
        SpanModel { content: self.content@, style: self.style }
    }
}

pub open spec fn spans_view(v: Seq<Span>) -> Seq<SpanModel> {
    Seq::new(v.len(), |i: int| v[i]@)
}

/// One terminal line: a list of spans.
#[derive(Debug)]
pub struct Line {
    pub spans: Vec<Span>,
}

impl View for Line {
    type V = Seq<SpanModel>;

    open spec fn view(&self) -> Seq<SpanModel> {
        spans_view(self.spans@)
    }
}

pub open spec fn lines_view(v: Seq<Line>) -> Seq<Seq<SpanModel>> {
    Seq::new(v.len(), |i: int| v[i]@)
}

/// The text of a line: its spans' contents, concatenated.
pub open spec fn line_text(l: Seq<SpanModel>) -> Seq<char>
    decreases l.len(),
{
    if l.len() == 0 {
        Seq::empty()
    } else {
        line_text(l.drop_last()) + l.last().content
    }
}

pub fn span(content: String, style: Style) -> (s: Span)
    ensures
        s@ == (SpanModel { content: content@, style }),
{
    Span { content, style }
}

/// A line of one span.
pub fn line_of(s: Span) -> (l: Line)
    ensures
        l@ == seq![s@],
{
    let mut v: Vec<Span> = Vec::new();
    v.push(s);
    let l = Line { spans: v };
    assert(l@ =~= seq![s@]);
    l
}

/// A line with no spans.
pub fn empty_line() -> (l: Line)
    ensures
        l@ == Seq::<SpanModel>::empty(),
{
    let l = Line { spans: Vec::new() };
    assert(l@ =~= Seq::<SpanModel>::empty());
    l
}

} // verus!
