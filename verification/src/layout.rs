//! Pre-render a [`Transcript`] into a flat, terminal-ready line cache.
//!
//! Text blocks go through the markdown walker; thinking, tool calls, tool
//! results, attachments and unknown blocks are wrapped by character
//! count. A collapsed block is replaced by a single fold line. Next to the
//! lines, the layout records where each user turn starts and the
//! checkpoints (user turns and stop reasons) the sidebar lists.

use vstd::prelude::*;

use crate::markdown::{markdown_lines, render_markdown};
use crate::style::{
    default_style, line_of, lines_view, plain, spans_view, Color, Line, Span, SpanModel, Style,
};
use crate::text::{
    chars_of, count_newlines, count_nl, decimal, is_blank, is_blank_str, lemma_split_len, lines,
    owned, push_str, split_on, str_lines, str_words, string_from_range, string_push, texts_of,
    usize_to_string, words,
};
use crate::transcript::{join_strings, join_with, Block, BlockModel, Message, MessageModel, Role, Transcript};
use crate::yank::{role_label, role_name};

verus! {

/// Stable identifier of a block: `(msg_index, block_index)`.
pub type BlockId = (usize, usize);

/// What kind of source line a [`RenderedLine`] came from.
#[derive(Debug, Clone, Copy, PartialEq, Eq, Structural)]
pub enum LineKind {
    /// The `── user ──` / `── assistant ──` header of a message.
    Header,
    /// Body text of an expanded block.
    Body,
    /// Blank spacer between messages.
    Separator,
    /// One fold marker standing in for a collapsed block.
    Fold,
}

/// One pre-rendered terminal line.
#[derive(Debug)]
pub struct RenderedLine {
    pub line: Line,
    pub msg_index: usize,
    /// Block within the owning message: `None` for headers and
    /// separators, `Some` for body and fold lines.
    pub block_index: Option<usize>,
    pub kind: LineKind,
}

pub ghost struct RenderedLineModel {
    pub line: Seq<SpanModel>,
    pub msg_index: nat,
    pub block_index: Option<usize>,
    pub kind: LineKind,
}

impl View for RenderedLine {
    type V = RenderedLineModel;

    open spec fn view(&self) -> RenderedLineModel {
        RenderedLineModel {
            line: self.line@,
            msg_index: self.msg_index as nat,
            block_index: self.block_index,
            kind: self.kind,
        }
    }
}

pub open spec fn rlines_view(v: Seq<RenderedLine>) -> Seq<RenderedLineModel> {
    Seq::new(v.len(), |i: int| v[i]@)
}

impl RenderedLine {
    /// The `(msg_index, block_index)` this line belongs to, if it belongs
    /// to a block.
    pub fn block_id(&self) -> (r: Option<BlockId>)
        ensures
            r == (match self.block_index {
                Some(b) => Some((self.msg_index, b)),
                None => None,
            }),
    {
        match self.block_index {
            Some(b) => Some((self.msg_index, b)),
            None => None,
        }
    }
}

/// The collapse-all cycle: off, or every tool call, tool result and
/// thinking block folded.
#[derive(Debug, Clone, Copy, PartialEq, Eq, Structural)]
pub enum CollapseAll {
    Off,
    ToolsAndThinking,
}

/// What a checkpoint marks.
#[derive(Debug)]
pub enum CheckpointKind {
    /// The header of a user message.
    UserTurn,
    /// A system message carrying this stop reason.
    Stop(String),
}

pub ghost enum CheckpointKindModel {
    UserTurn,
    Stop(Seq<char>),
}

/// A sidebar entry: the line it sits on, its message, and a preview.
#[derive(Debug)]
pub struct Checkpoint {
    pub line: usize,
    pub msg_index: usize,
    pub kind: CheckpointKind,
    pub preview: String,
}

pub ghost struct CheckpointModel {
    pub line: nat,
    pub msg_index: nat,
    pub kind: CheckpointKindModel,
    pub preview: Seq<char>,
}

impl View for Checkpoint {
    type V = CheckpointModel;

    open spec fn view(&self) -> CheckpointModel {
        CheckpointModel {
            line: self.line as nat,
            msg_index: self.msg_index as nat,
            kind: match self.kind {
                CheckpointKind::UserTurn => CheckpointKindModel::UserTurn,
                CheckpointKind::Stop(r) => CheckpointKindModel::Stop(r@),
            },
            preview: self.preview@,
        }
    }
}

pub open spec fn checkpoints_view(v: Seq<Checkpoint>) -> Seq<CheckpointModel> {
    Seq::new(v.len(), |i: int| v[i]@)
}

/// The collapse state a layout pass reads: the individually collapsed
/// blocks and the collapse-all mode.
#[derive(Debug)]
pub struct CollapseContext<'a> {
    pub collapsed: &'a Vec<BlockId>,
    pub collapse_all: CollapseAll,
}

pub ghost struct CollapseModel {
    pub collapsed: Set<BlockId>,
    pub all: CollapseAll,
}

impl<'a> View for CollapseContext<'a> {
    type V = CollapseModel;

    open spec fn view(&self) -> CollapseModel {
        CollapseModel { collapsed: self.collapsed@.to_set(), all: self.collapse_all }
    }
}

/// Output of a layout pass: the line cache, the header line of each user
/// turn, and the checkpoints.
#[derive(Debug)]
pub struct LayoutOutput {
    pub lines: Vec<RenderedLine>,
    pub user_turn_line_starts: Vec<usize>,
    pub checkpoints: Vec<Checkpoint>,
}

pub ghost struct LayoutModel {
    pub lines: Seq<RenderedLineModel>,
    pub starts: Seq<usize>,
    pub checkpoints: Seq<CheckpointModel>,
}

impl View for LayoutOutput {
    type V = LayoutModel;

    open spec fn view(&self) -> LayoutModel {
        LayoutModel {
            lines: rlines_view(self.lines@),
            starts: self.user_turn_line_starts@,
            checkpoints: checkpoints_view(self.checkpoints@),
        }
    }
}

// ---------------------------------------------------------------------
// what each line looks like
// ---------------------------------------------------------------------

/// Wrap width for a body `width`; 0 (not known yet) falls back to 80.
pub open spec fn wrap_width(width: nat) -> nat {
    if width == 0 {
        80
    } else {
        width
    }
}

pub open spec fn fg_mods(c: Color, bold: bool, dim: bool, italic: bool) -> Style {
    Style { fg: c, bold, dim, italic, ..default_style() }
}

pub open spec fn role_style(r: Role) -> Style {
    match r {
        Role::User => fg_mods(Color::Cyan, true, false, false),
        Role::Assistant => fg_mods(Color::Green, true, false, false),
        Role::System => fg_mods(Color::Red, true, false, false),
    }
}

pub open spec fn sm(content: Seq<char>, style: Style) -> SpanModel {
    SpanModel { content, style }
}

pub open spec fn header_spans(m: MessageModel) -> Seq<SpanModel> {
    let label = sm("── "@ + role_name(m.role) + " ──"@, role_style(m.role));
    if m.timestamp.len() == 0 {
        seq![label]
    } else {
        seq![label, sm("  "@, default_style()), sm(m.timestamp, fg_mods(Color::Reset, false, true, false))]
    }
}

pub open spec fn header_model(m: MessageModel) -> RenderedLineModel {
    RenderedLineModel {
        line: header_spans(m),
        msg_index: m.index,
        block_index: None,
        kind: LineKind::Header,
    }
}

/// The blank line before a message (attributed to that message).
pub open spec fn separator_model(next: nat) -> RenderedLineModel {
    RenderedLineModel {
        line: seq![sm(Seq::empty(), default_style())],
        msg_index: next,
        block_index: None,
        kind: LineKind::Separator,
    }
}

/// `0` for empty text, else the number of lines (at least one).
pub open spec fn count_lines(s: Seq<char>) -> nat {
    if s.len() == 0 {
        0
    } else if lines(s).len() == 0 {
        1
    } else {
        lines(s).len()
    }
}

pub open spec fn thinking_style() -> Style {
    fg_mods(Color::Magenta, false, true, true)
}

pub open spec fn tool_style() -> Style {
    fg_mods(Color::Yellow, true, false, false)
}

pub open spec fn result_style(is_error: bool) -> Style {
    if is_error {
        fg_mods(Color::Red, true, false, false)
    } else {
        tool_style()
    }
}

pub open spec fn fold_span(b: BlockModel) -> SpanModel {
    match b {
        BlockModel::Thinking(s) => sm(
            "▸ [thinking] ("@ + decimal(count_lines(s)) + " lines hidden)"@,
            thinking_style(),
        ),
        BlockModel::ToolCall { name, .. } => sm("▸ → "@ + name + " (collapsed)"@, tool_style()),
        BlockModel::ToolResult { content, is_error, .. } => sm(
            if is_error {
                "▸ ← tool_result [error] ("@ + decimal(count_lines(content)) + " lines hidden)"@
            } else {
                "▸ ← tool_result ("@ + decimal(count_lines(content)) + " lines hidden)"@
            },
            result_style(is_error),
        ),
        _ => sm("▸ (collapsed)"@, fg_mods(Color::Reset, false, true, false)),
    }
}

pub open spec fn fold_model(mi: nat, bi: usize, b: BlockModel) -> RenderedLineModel {
    RenderedLineModel {
        line: seq![fold_span(b)],
        msg_index: mi,
        block_index: Some(bi),
        kind: LineKind::Fold,
    }
}

pub open spec fn body_model(mi: nat, bi: usize, line: Seq<SpanModel>) -> RenderedLineModel {
    RenderedLineModel { line, msg_index: mi, block_index: Some(bi), kind: LineKind::Body }
}

// ---------------------------------------------------------------------
// plain wrapping
// ---------------------------------------------------------------------

/// Pieces of `w` characters; the last one holds the rest.
pub open spec fn chunks(l: Seq<char>, w: nat) -> Seq<Seq<char>>
    decreases l.len(),
{
    if w == 0 || l.len() <= w {
        seq![l]
    } else {
        seq![l.take(w as int)] + chunks(l.skip(w as int), w)
    }
}

/// One source line: kept as an empty line, or cut into chunks.
pub open spec fn wrap_piece(l: Seq<char>, w: nat) -> Seq<Seq<char>> {
    if l.len() == 0 {
        seq![Seq::<char>::empty()]
    } else {
        chunks(
            l,
            if w == 0 {
                1
            } else {
                w
            },
        )
    }
}

pub open spec fn wrap_pieces(ps: Seq<Seq<char>>, w: nat) -> Seq<Seq<char>>
    decreases ps.len(),
{
    if ps.len() == 0 {
        Seq::empty()
    } else {
        wrap_pieces(ps.drop_last(), w) + wrap_piece(ps.last(), w)
    }
}

/// Character-count wrap of `text` at `w` columns (at least 1); every
/// `\n`-separated line wraps on its own.
pub open spec fn wrap_plain(text: Seq<char>, w: nat) -> Seq<Seq<char>> {
    wrap_pieces(split_on(text, '\n'), w)
}

/// The pieces of `ss` joined back together.
pub open spec fn joined(ss: Seq<Seq<char>>) -> Seq<char>
    decreases ss.len(),
{
    if ss.len() == 0 {
        Seq::empty()
    } else {
        ss[0] + joined(ss.drop_first())
    }
}

proof fn lemma_chunks(l: Seq<char>, w: nat)
    requires
        w > 0,
    ensures
        joined(chunks(l, w)) == l,
        forall|i: int| 0 <= i < chunks(l, w).len() ==> (#[trigger] chunks(l, w)[i]).len() <= w,
    decreases l.len(),
{
    if l.len() <= w {
        assert(seq![l].drop_first() =~= Seq::<Seq<char>>::empty());
        assert(joined(chunks(l, w)) =~= l + joined(Seq::<Seq<char>>::empty()));
        assert(l + Seq::<char>::empty() =~= l);
    } else {
        let rest = l.skip(w as int);
        lemma_chunks(rest, w);
        let c = chunks(l, w);
        assert(c == seq![l.take(w as int)] + chunks(rest, w));
        assert(c.drop_first() =~= chunks(rest, w));
        assert(l.take(w as int) + rest =~= l);
        assert forall|i: int| 0 <= i < c.len() implies (#[trigger] c[i]).len() <= w by {
            if i > 0 {
                assert(c[i] == chunks(rest, w)[i - 1]);
            }
        }
    }
}

/// Wrapping one line of text loses and adds nothing (its chunks joined
/// give the line back) and no chunk is wider than the wrap width (at
/// least one column).
pub proof fn law_wrap_keeps_text(l: Seq<char>, w: nat)
    ensures
        joined(wrap_piece(l, w)) == l,
        forall|i: int|
            0 <= i < wrap_piece(l, w).len() ==> (#[trigger] wrap_piece(l, w)[i]).len() <= if w == 0 {
                1
            } else {
                w
            },
{
    if l.len() == 0 {
        assert(seq![Seq::<char>::empty()].drop_first() =~= Seq::<Seq<char>>::empty());
        assert(joined(wrap_piece(l, w)) =~= Seq::<char>::empty() + joined(Seq::<Seq<char>>::empty()));
        assert(l =~= Seq::<char>::empty());
    } else {
        lemma_chunks(l, if w == 0 { 1 } else { w });
    }
}

// ---------------------------------------------------------------------
// blocks, messages, the whole transcript
// ---------------------------------------------------------------------

pub open spec fn sat_sub(a: nat, b: nat) -> nat {
    if a > b {
        (a - b) as nat
    } else {
        0
    }
}

/// Body lines of `chunks`, each `prefix + chunk` in `style`.
pub open spec fn styled_chunks(
    mi: nat,
    bi: usize,
    chunks: Seq<Seq<char>>,
    prefix: Seq<char>,
    style: Style,
) -> Seq<RenderedLineModel> {
    Seq::new(chunks.len(), |k: int| body_model(mi, bi, seq![sm(prefix + chunks[k], style)]))
}

pub open spec fn block_lines(mi: nat, bi: usize, b: BlockModel, wrap: nat) -> Seq<RenderedLineModel> {
    match b {
        BlockModel::Text(s) => {
            let md = markdown_lines(s, wrap);
            Seq::new(md.len(), |k: int| body_model(mi, bi, md[k]))
        },
        BlockModel::Thinking(s) => seq![body_model(mi, bi, seq![sm("  [thinking]"@, thinking_style())])]
            + styled_chunks(mi, bi, wrap_plain(s, sat_sub(wrap, 2)), "  "@, thinking_style()),
        BlockModel::ToolCall { name, input_json, .. } => seq![
            body_model(mi, bi, seq![sm("→ "@ + name, tool_style())]),
        ] + styled_chunks(
            mi,
            bi,
            wrap_plain(input_json, sat_sub(wrap, 2)),
            "  "@,
            fg_mods(Color::Yellow, false, false, false),
        ),
        BlockModel::ToolResult { content, is_error, .. } => seq![
            body_model(
                mi,
                bi,
                seq![
                    sm(
                        if is_error {
                            "← tool_result [error]"@
                        } else {
                            "← tool_result"@
                        },
                        result_style(is_error),
                    ),
                ],
            ),
        ] + styled_chunks(
            mi,
            bi,
            wrap_plain(content, sat_sub(wrap, 2)),
            "  "@,
            fg_mods(Color::Reset, false, true, false),
        ),
        BlockModel::Attachment(s) => styled_chunks(
            mi,
            bi,
            wrap_plain("[attachment] "@ + s, wrap),
            Seq::empty(),
            fg_mods(Color::Blue, false, false, false),
        ),
        BlockModel::Unknown => seq![
            body_model(mi, bi, seq![sm("[unknown block]"@, fg_mods(Color::Reset, false, true, false))]),
        ],
    }
}

pub open spec fn is_tool_or_thinking(b: BlockModel) -> bool {
    b is Thinking || b is ToolCall || b is ToolResult
}

/// A block is folded when it is in the collapse set, or when collapse-all
/// is on and it is a tool call, tool result or thinking block.
pub open spec fn is_collapsed(mi: usize, bi: usize, b: BlockModel, ctx: CollapseModel) -> bool {
    ctx.collapsed.contains((mi, bi)) || (ctx.all == CollapseAll::ToolsAndThinking
        && is_tool_or_thinking(b))
}

/// Lines of the first `blocks.len()` blocks of message `mi`.
pub open spec fn blocks_lines(
    mi: nat,
    blocks: Seq<BlockModel>,
    ctx: CollapseModel,
    wrap: nat,
) -> Seq<RenderedLineModel>
    decreases blocks.len(),
{
    if blocks.len() == 0 {
        Seq::empty()
    } else {
        let bi = (blocks.len() - 1) as usize;
        let b = blocks.last();
        blocks_lines(mi, blocks.drop_last(), ctx, wrap) + if is_collapsed(mi as usize, bi, b, ctx) {
            seq![fold_model(mi, bi, b)]
        } else {
            block_lines(mi, bi, b, wrap)
        }
    }
}

// ---------------------------------------------------------------------
// previews
// ---------------------------------------------------------------------

/// The first text block's text, if any.
pub open spec fn first_text(blocks: Seq<BlockModel>) -> Option<Seq<char>>
    decreases blocks.len(),
{
    if blocks.len() == 0 {
        None
    } else {
        match blocks[0] {
            BlockModel::Text(s) => Some(s),
            _ => first_text(blocks.drop_first()),
        }
    }
}

/// The text a preview is taken from: the first text block, else a label
/// for the kind of the first block.
pub open spec fn preview_source(m: MessageModel) -> Seq<char> {
    match first_text(m.blocks) {
        Some(s) => s,
        None => if m.blocks.len() == 0 {
            Seq::empty()
        } else {
            match m.blocks[0] {
                BlockModel::Thinking(_) => "(thinking)"@,
                BlockModel::ToolCall { name, .. } => name,
                BlockModel::ToolResult { .. } => "(tool result)"@,
                BlockModel::Attachment(_) => "(attachment)"@,
                _ => Seq::empty(),
            }
        },
    }
}

/// The first line that is not blank.
pub open spec fn first_nonblank(ls: Seq<Seq<char>>) -> Seq<char>
    decreases ls.len(),
{
    if ls.len() == 0 {
        Seq::empty()
    } else if !is_blank(ls[0]) {
        ls[0]
    } else {
        first_nonblank(ls.drop_first())
    }
}

pub const PREVIEW_MAX: usize = 48;

/// Sidebar preview of a message: the first non-blank line of its
/// preview source, whitespace runs collapsed to one space, cut to 47
/// characters plus `…` when longer than 48.
pub open spec fn message_preview(m: MessageModel) -> Seq<char> {
    let line = first_nonblank(lines(preview_source(m)));
    let collapsed = join_with(words(line), " "@);
    if collapsed.len() > PREVIEW_MAX {
        collapsed.take(PREVIEW_MAX - 1) + "…"@
    } else {
        collapsed
    }
}

/// The line cache, user-turn starts and checkpoints of `msgs`.
pub closed spec fn layout(msgs: Seq<MessageModel>, ctx: CollapseModel, wrap: nat) -> LayoutModel
    decreases msgs.len(),
{
    if msgs.len() == 0 {
        LayoutModel { lines: Seq::empty(), starts: Seq::empty(), checkpoints: Seq::empty() }
    } else {
        let prev = layout(msgs.drop_last(), ctx, wrap);
        let m = msgs.last();
        let sep = if msgs.len() > 1 {
            seq![separator_model(m.index)]
        } else {
            Seq::empty()
        };
        let hi = prev.lines.len() + sep.len();
        let lines = prev.lines + sep + seq![header_model(m)] + blocks_lines(
            m.index,
            m.blocks,
            ctx,
            wrap,
        );
        let starts = if m.role == Role::User {
            prev.starts.push(hi as usize)
        } else {
            prev.starts
        };
        let cps1 = if m.role == Role::User {
            prev.checkpoints.push(
                CheckpointModel {
                    line: hi,
                    msg_index: m.index,
                    kind: CheckpointKindModel::UserTurn,
                    preview: message_preview(m),
                },
            )
        } else {
            prev.checkpoints
        };
        let cps = match m.stop_reason {
            Some(r) => cps1.push(
                CheckpointModel {
                    line: hi,
                    msg_index: m.index,
                    kind: CheckpointKindModel::Stop(r),
                    preview: r,
                },
            ),
            None => cps1,
        };
        LayoutModel { lines, starts, checkpoints: cps }
    }
}

} // verus!

verus! {

// ---------------------------------------------------------------------
// executable layout
// ---------------------------------------------------------------------

/// Wrap width for a body `width`: 0 means "not known yet" and falls back
/// to 80 columns; any real width is used as is.
pub fn effective_wrap_width(width: u16) -> (r: usize)
    ensures
        r as nat == wrap_width(width as nat),
{
    if width == 0 {
        80
    } else {
        width as usize
    }
}

fn style_of(c: Color, bold: bool, dim: bool, italic: bool) -> (s: Style)
    ensures
        s == fg_mods(c, bold, dim, italic),
{
    Style { fg: c, bg: Color::Reset, bold, dim, italic, underlined: false, crossed_out: false }
}

fn role_style_of(r: Role) -> (s: Style)
    ensures
        s == role_style(r),
{
    match r {
        Role::User => style_of(Color::Cyan, true, false, false),
        Role::Assistant => style_of(Color::Green, true, false, false),
        Role::System => style_of(Color::Red, true, false, false),
    }
}

fn styled(content: String, style: Style) -> (l: Line)
    ensures
        l@ == seq![sm(content@, style)],
{
    line_of(Span { content, style })
}

/// The `── role ──` header of `msg`, with its timestamp when it has one.
pub fn header_line(msg: &Message) -> (r: RenderedLine)
    ensures
        r@ == header_model(msg@),
{
    let mut label = owned("── ");
    push_str(&mut label, role_label(msg.role));
    push_str(&mut label, " ──");
    let mut spans: Vec<Span> = Vec::new();
    spans.push(Span { content: label, style: role_style_of(msg.role) });
    if !msg.timestamp.as_str().is_empty() {
        spans.push(Span { content: owned("  "), style: plain() });
        spans.push(
            Span { content: msg.timestamp.clone(), style: style_of(Color::Reset, false, true, false) },
        );
    }
    let r = RenderedLine {
        line: Line { spans },
        msg_index: msg.index,
        block_index: None,
        kind: LineKind::Header,
    };
    assert(r@.line =~= header_spans(msg@));
    r
}

/// The blank spacer before message `next_msg_index`.
pub fn separator_line(next_msg_index: usize) -> (r: RenderedLine)
    ensures
        r@ == separator_model(next_msg_index as nat),
{
    RenderedLine {
        line: styled(String::new(), plain()),
        msg_index: next_msg_index,
        block_index: None,
        kind: LineKind::Separator,
    }
}

pub proof fn lemma_count_nl_le(s: Seq<char>)
    ensures
        count_nl(s) <= s.len(),
        s.len() > 0 && s.last() != '\n' ==> count_nl(s) < s.len(),
    decreases s.len(),
{
    if s.len() > 0 {
        lemma_count_nl_le(s.drop_last());
    }
}

/// How many lines a fold line reports as hidden.
pub fn count_text_lines(s: &str) -> (n: usize)
    ensures
        n as nat == count_lines(s@),
{
    let cs = chars_of(s);
    if cs.len() == 0 {
        return 0;
    }
    let n = count_newlines(s);
    proof {
        lemma_split_len(s@);
        lemma_count_nl_le(s@);
    }
    let k = if cs[cs.len() - 1] == '\n' {
        n
    } else {
        n + 1
    };
    if k == 0 {
        1
    } else {
        k
    }
}

fn hidden_label(head: &str, n: usize) -> (r: String)
    ensures
        r@ == head@ + decimal(n as nat) + " lines hidden)"@,
{
    let mut t = owned(head);
    let d = usize_to_string(n);
    push_str(&mut t, d.as_str());
    push_str(&mut t, " lines hidden)");
    t
}

/// The single line standing in for a collapsed block.
pub fn fold_line(msg_index: usize, block_index: usize, block: &Block) -> (r: RenderedLine)
    ensures
        r@ == fold_model(msg_index as nat, block_index, block@),
{
    let sp = match block {
        Block::Thinking(s) => {
            let n = count_text_lines(s.as_str());
            Span {
                content: hidden_label("▸ [thinking] (", n),
                style: style_of(Color::Magenta, false, true, true),
            }
        },
        Block::ToolCall { name, .. } => {
            let mut t = owned("▸ → ");
            push_str(&mut t, name.as_str());
            push_str(&mut t, " (collapsed)");
            Span { content: t, style: style_of(Color::Yellow, true, false, false) }
        },
        Block::ToolResult { content, is_error, .. } => {
            let n = count_text_lines(content.as_str());
            if *is_error {
                Span {
                    content: hidden_label("▸ ← tool_result [error] (", n),
                    style: style_of(Color::Red, true, false, false),
                }
            } else {
                Span {
                    content: hidden_label("▸ ← tool_result (", n),
                    style: style_of(Color::Yellow, true, false, false),
                }
            }
        },
        _ => Span { content: owned("▸ (collapsed)"), style: style_of(Color::Reset, false, true, false) },
    };
    RenderedLine {
        line: line_of(sp),
        msg_index,
        block_index: Some(block_index),
        kind: LineKind::Fold,
    }
}

fn body_line(msg_index: usize, block_index: usize, line: Line) -> (r: RenderedLine)
    ensures
        r@ == body_model(msg_index as nat, block_index, line@),
{
    RenderedLine { line, msg_index, block_index: Some(block_index), kind: LineKind::Body }
}

/// Push the chunks of `cs[from..to]` (one empty string when the range is
/// empty).
fn push_chunks(out: &mut Vec<String>, cs: &Vec<char>, from: usize, to: usize, w: usize)
    requires
        from <= to <= cs.len(),
        w >= 1,
    ensures
        texts_of(final(out)@) == texts_of(old(out)@) + wrap_piece(
            cs@.subrange(from as int, to as int),
            w as nat,
        ),
{
    let ghost base = texts_of(out@);
    let ghost l = cs@.subrange(from as int, to as int);
    if from == to {
        out.push(String::new());
        assert(texts_of(out@) =~= base + wrap_piece(l, w as nat));
        return;
    }
    let mut pos = from;
    while to - pos > w
        invariant
            from <= pos < to <= cs.len(),
            w >= 1,
            l == cs@.subrange(from as int, to as int),
            texts_of(out@) + chunks(cs@.subrange(pos as int, to as int), w as nat) == base + chunks(
                l,
                w as nat,
            ),
        decreases to - pos,
    {
        let ghost rest = cs@.subrange(pos as int, to as int);
        let ghost before = texts_of(out@);
        let piece = string_from_range(cs, pos, pos + w);
        out.push(piece);
        proof {
            assert(rest.take(w as int) =~= cs@.subrange(pos as int, pos + w));
            assert(rest.skip(w as int) =~= cs@.subrange(pos + w, to as int));
            assert(chunks(rest, w as nat) == seq![rest.take(w as int)] + chunks(
                rest.skip(w as int),
                w as nat,
            ));
            assert(texts_of(out@) =~= before.push(piece@));
            assert(texts_of(out@) + chunks(cs@.subrange(pos + w, to as int), w as nat) =~= before
                + chunks(rest, w as nat));
        }
        pos = pos + w;
    }
    let ghost rest = cs@.subrange(pos as int, to as int);
    let ghost before = texts_of(out@);
    let piece = string_from_range(cs, pos, to);
    out.push(piece);
    proof {
        assert(chunks(rest, w as nat) == seq![rest]);
        assert(texts_of(out@) =~= before.push(piece@));
        assert(texts_of(out@) =~= before + chunks(rest, w as nat));
    }
}

/// Character-count wrap used by every block but text: each
/// `\n`-separated line is cut into pieces of `wrap_at` characters (at
/// least 1); an empty line stays one empty piece.
pub fn wrap_plain_text(text: &str, wrap_at: usize) -> (r: Vec<String>)
    ensures
        texts_of(r@) == wrap_plain(text@, wrap_at as nat),
{
    let w: usize = if wrap_at == 0 {
        1
    } else {
        wrap_at
    };
    let cs = chars_of(text);
    let mut out: Vec<String> = Vec::new();
    let mut start: usize = 0;
    let mut i: usize = 0;
    proof {
        assert(cs@.take(0) =~= Seq::<char>::empty());
        assert(split_on(Seq::<char>::empty(), '\n') =~= seq![Seq::<char>::empty()]);
        assert(texts_of(out@) =~= Seq::<Seq<char>>::empty());
    }
    while i < cs.len()
        invariant
            start <= i <= cs.len(),
            cs@ == text@,
            w as nat == (if wrap_at == 0 { 1 } else { wrap_at as nat }),
            split_on(cs@.take(i as int), '\n').len() >= 1,
            split_on(cs@.take(i as int), '\n').last() == cs@.subrange(start as int, i as int),
            texts_of(out@) == wrap_pieces(
                split_on(cs@.take(i as int), '\n').drop_last(),
                wrap_at as nat,
            ),
        decreases cs.len() - i,
    {
        let ghost pi = split_on(cs@.take(i as int), '\n');
        proof {
            assert(cs@.take(i + 1).drop_last() =~= cs@.take(i as int));
            assert(cs@.take(i + 1).last() == cs@[i as int]);
        }
        if cs[i] == '\n' {
            push_chunks(&mut out, &cs, start, i, w);
            proof {
                let pn = split_on(cs@.take(i + 1), '\n');
                assert(pn == pi.push(Seq::<char>::empty()));
                assert(pn.drop_last() =~= pi);
                assert(wrap_piece(pi.last(), w as nat) == wrap_piece(pi.last(), wrap_at as nat));
                assert(pi.drop_last() =~= pi.drop_last());
            }
            start = i + 1;
            proof {
                assert(cs@.subrange(start as int, i + 1) =~= Seq::<char>::empty());
            }
        } else {
            proof {
                let pn = split_on(cs@.take(i + 1), '\n');
                assert(pn == pi.update(pi.len() - 1, pi.last().push(cs@[i as int])));
                assert(pn.drop_last() =~= pi.drop_last());
                assert(cs@.subrange(start as int, i + 1) =~= cs@.subrange(
                    start as int,
                    i as int,
                ).push(cs@[i as int]));
            }
        }
        i += 1;
    }
    proof {
        assert(cs@.take(cs.len() as int) =~= cs@);
    }
    push_chunks(&mut out, &cs, start, cs.len(), w);
    proof {
        let p = split_on(cs@, '\n');
        assert(wrap_piece(p.last(), w as nat) == wrap_piece(p.last(), wrap_at as nat));
    }
    out
}

/// Push one body line per chunk: `prefix + chunk` in `style`.
fn push_styled_chunks(
    out: &mut Vec<RenderedLine>,
    msg_index: usize,
    block_index: usize,
    chunks: &Vec<String>,
    prefix: &str,
    style: Style,
)
    ensures
        rlines_view(final(out)@) == rlines_view(old(out)@) + styled_chunks(
            msg_index as nat,
            block_index,
            texts_of(chunks@),
            prefix@,
            style,
        ),
{
    let ghost base = rlines_view(out@);
    let ghost cv = texts_of(chunks@);
    let mut k: usize = 0;
    while k < chunks.len()
        invariant
            k <= chunks.len(),
            cv == texts_of(chunks@),
            rlines_view(out@) == base + styled_chunks(
                msg_index as nat,
                block_index,
                cv.take(k as int),
                prefix@,
                style,
            ),
        decreases chunks.len() - k,
    {
        let ghost before = rlines_view(out@);
        let mut t = owned(prefix);
        push_str(&mut t, chunks[k].as_str());
        out.push(body_line(msg_index, block_index, styled(t, style)));
        proof {
            assert(rlines_view(out@) =~= before.push(rlines_view(out@).last()));
            assert(styled_chunks(msg_index as nat, block_index, cv.take(k + 1), prefix@, style)
                =~= styled_chunks(msg_index as nat, block_index, cv.take(k as int), prefix@, style).push(
                body_model(msg_index as nat, block_index, seq![sm(prefix@ + cv[k as int], style)]),
            ));
        }
        k += 1;
    }
    assert(cv.take(chunks.len() as int) =~= cv);
}

/// Push the rendered lines of a text block.
fn push_markdown(
    out: &mut Vec<RenderedLine>,
    msg_index: usize,
    block_index: usize,
    src: &str,
    wrap_at: usize,
)
    ensures
        rlines_view(final(out)@) == rlines_view(old(out)@) + block_lines(
            msg_index as nat,
            block_index,
            BlockModel::Text(src@),
            wrap_at as nat,
        ),
{
    let ghost base = rlines_view(out@);
    let md = render_markdown(src, wrap_at);
    let ghost mdv = md@;
    let ghost ml = markdown_lines(src@, wrap_at as nat);
    proof {
        assert(markdown_lines(src@, wrap_at as nat) == lines_view(md@));
    }
    for line in it: md
        invariant
            it.seq() == mdv,
            ml == lines_view(mdv),
            rlines_view(out@) == base + Seq::new(
                it.index() as nat,
                |k: int| body_model(msg_index as nat, block_index, ml[k]),
            ),
    {
        let ghost before = rlines_view(out@);
        let ghost k = it.index() as int;
        assert(line == mdv[k]);
        assert(ml[k] == line@);
        out.push(body_line(msg_index, block_index, line));
        proof {
            assert(rlines_view(out@) =~= before.push(body_model(msg_index as nat, block_index, ml[k])));
            assert(rlines_view(out@) =~= base + Seq::new(
                (k + 1) as nat,
                |j: int| body_model(msg_index as nat, block_index, ml[j]),
            ));
        }
    }
    proof {
        assert(rlines_view(out@) =~= base + block_lines(
            msg_index as nat,
            block_index,
            BlockModel::Text(src@),
            wrap_at as nat,
        ));
    }
}

} // verus!

verus! {

/// Append the expanded lines of one block to `out`.
pub fn append_block(
    out: &mut Vec<RenderedLine>,
    msg_index: usize,
    block_index: usize,
    block: &Block,
    wrap_at: usize,
)
    ensures
        rlines_view(final(out)@) == rlines_view(old(out)@) + block_lines(
            msg_index as nat,
            block_index,
            block@,
            wrap_at as nat,
        ),
{
    let ghost base = rlines_view(out@);
    let narrow = if wrap_at > 2 {
        wrap_at - 2
    } else {
        0
    };
    match block {
        Block::Text(s) => {
            push_markdown(out, msg_index, block_index, s.as_str(), wrap_at);
        },
        Block::Thinking(s) => {
            let st = style_of(Color::Magenta, false, true, true);
            out.push(body_line(msg_index, block_index, styled(owned("  [thinking]"), st)));
            let chunks = wrap_plain_text(s.as_str(), narrow);
            push_styled_chunks(out, msg_index, block_index, &chunks, "  ", st);
        },
        Block::ToolCall { name, input_json, .. } => {
            let mut head = owned("→ ");
            push_str(&mut head, name.as_str());
            out.push(
                body_line(
                    msg_index,
                    block_index,
                    styled(head, style_of(Color::Yellow, true, false, false)),
                ),
            );
            let chunks = wrap_plain_text(input_json.as_str(), narrow);
            push_styled_chunks(
                out,
                msg_index,
                block_index,
                &chunks,
                "  ",
                style_of(Color::Yellow, false, false, false),
            );
        },
        Block::ToolResult { content, is_error, .. } => {
            let head = if *is_error {
                body_line(
                    msg_index,
                    block_index,
                    styled(owned("← tool_result [error]"), style_of(Color::Red, true, false, false)),
                )
            } else {
                body_line(
                    msg_index,
                    block_index,
                    styled(owned("← tool_result"), style_of(Color::Yellow, true, false, false)),
                )
            };
            out.push(head);
            let chunks = wrap_plain_text(content.as_str(), narrow);
            push_styled_chunks(
                out,
                msg_index,
                block_index,
                &chunks,
                "  ",
                style_of(Color::Reset, false, true, false),
            );
        },
        Block::Attachment(s) => {
            let mut text = owned("[attachment] ");
            push_str(&mut text, s.as_str());
            let chunks = wrap_plain_text(text.as_str(), wrap_at);
            proof {
                reveal_strlit("");
            }
            push_styled_chunks(
                out,
                msg_index,
                block_index,
                &chunks,
                "",
                style_of(Color::Blue, false, false, false),
            );
        },
        Block::Unknown => {
            out.push(
                body_line(
                    msg_index,
                    block_index,
                    styled(owned("[unknown block]"), style_of(Color::Reset, false, true, false)),
                ),
            );
        },
    }
    proof {
        let bl = block_lines(msg_index as nat, block_index, block@, wrap_at as nat);
        assert(rlines_view(out@) =~= base + bl);
    }
}

/// Whether block `block_index` of message `msg_index` is folded.
pub fn is_collapsed_block(
    msg_index: usize,
    block_index: usize,
    block: &Block,
    ctx: &CollapseContext<'_>,
) -> (b: bool)
    ensures
        b == is_collapsed(msg_index, block_index, block@, ctx@),
{
    let mut k: usize = 0;
    while k < ctx.collapsed.len()
        invariant
            k <= ctx.collapsed.len(),
            forall|j: int| 0 <= j < k ==> ctx.collapsed@[j] != (msg_index, block_index),
        decreases ctx.collapsed.len() - k,
    {
        let (a, b) = ctx.collapsed[k];
        if a == msg_index && b == block_index {
            assert(ctx.collapsed@[k as int] == (msg_index, block_index));
            assert(ctx.collapsed@.contains((msg_index, block_index)));
            return true;
        }
        k += 1;
    }
    match ctx.collapse_all {
        CollapseAll::Off => false,
        CollapseAll::ToolsAndThinking => match block {
            Block::Thinking(_) => true,
            Block::ToolCall { .. } => true,
            Block::ToolResult { .. } => true,
            _ => false,
        },
    }
}

/// The text a preview of `msg` is taken from.
fn preview_source_of(msg: &Message) -> (r: String)
    ensures
        r@ == preview_source(msg@),
{
    let ghost bs = msg@.blocks;
    let mut k: usize = 0;
    assert(bs.skip(0) =~= bs);
    while k < msg.blocks.len()
        invariant
            k <= msg.blocks.len(),
            bs == msg@.blocks,
            first_text(bs) == first_text(bs.skip(k as int)),
        decreases msg.blocks.len() - k,
    {
        proof {
            assert(bs.skip(k as int)[0] == bs[k as int]);
            assert(bs.skip(k as int).drop_first() =~= bs.skip(k + 1));
        }
        match &msg.blocks[k] {
            Block::Text(s) => {
                return s.clone();
            },
            _ => {},
        }
        k += 1;
    }
    assert(bs.skip(k as int) =~= Seq::<BlockModel>::empty());
    if msg.blocks.len() == 0 {
        return String::new();
    }
    match &msg.blocks[0] {
        Block::Thinking(_) => owned("(thinking)"),
        Block::ToolCall { name, .. } => name.clone(),
        Block::ToolResult { .. } => owned("(tool result)"),
        Block::Attachment(_) => owned("(attachment)"),
        _ => String::new(),
    }
}

/// One-line preview of a message for the checkpoint sidebar: the first
/// non-blank line of its first text block (or a label for its first
/// block's kind), whitespace collapsed, cut to 48 characters.
pub fn message_preview_of(msg: &Message) -> (r: String)
    ensures
        r@ == message_preview(msg@),
{
    let raw = preview_source_of(msg);
    let ls = str_lines(raw.as_str());
    let ghost lv = texts_of(ls@);
    let mut k: usize = 0;
    assert(lv.skip(0) =~= lv);
    while k < ls.len() && is_blank_str(ls[k].as_str())
        invariant
            k <= ls.len(),
            lv == texts_of(ls@),
            first_nonblank(lv) == first_nonblank(lv.skip(k as int)),
        decreases ls.len() - k,
    {
        proof {
            assert(lv.skip(k as int)[0] == lv[k as int]);
            assert(lv.skip(k as int).drop_first() =~= lv.skip(k + 1));
        }
        k += 1;
    }
    let line = if k < ls.len() {
        assert(lv.skip(k as int)[0] == lv[k as int]);
        owned(ls[k].as_str())
    } else {
        assert(lv.skip(k as int) =~= Seq::<Seq<char>>::empty());
        String::new()
    };
    assert(line@ == first_nonblank(lv));
    let ws = str_words(line.as_str());
    let collapsed = join_strings(&ws, " ");
    let cs = chars_of(collapsed.as_str());
    if cs.len() > PREVIEW_MAX {
        let mut t = string_from_range(&cs, 0, PREVIEW_MAX - 1);
        push_str(&mut t, "…");
        t
    } else {
        collapsed
    }
}

} // verus!

verus! {

/// Append the lines of every block of `msg`, folded or expanded.
fn push_blocks(out: &mut Vec<RenderedLine>, msg: &Message, ctx: &CollapseContext<'_>, wrap_at: usize)
    ensures
        rlines_view(final(out)@) == rlines_view(old(out)@) + blocks_lines(
            msg@.index,
            msg@.blocks,
            ctx@,
            wrap_at as nat,
        ),
{
    let ghost base = rlines_view(out@);
    let ghost bs = msg@.blocks;
    let mut j: usize = 0;
    assert(bs.take(0) =~= Seq::<BlockModel>::empty());
    while j < msg.blocks.len()
        invariant
            j <= msg.blocks.len(),
            bs == msg@.blocks,
            rlines_view(out@) == base + blocks_lines(
                msg@.index,
                bs.take(j as int),
                ctx@,
                wrap_at as nat,
            ),
        decreases msg.blocks.len() - j,
    {
        let ghost before = rlines_view(out@);
        let block = &msg.blocks[j];
        proof {
            assert(bs.take(j + 1).drop_last() =~= bs.take(j as int));
            assert(bs.take(j + 1).last() == block@);
        }
        if is_collapsed_block(msg.index, j, block, ctx) {
            out.push(fold_line(msg.index, j, block));
            assert(rlines_view(out@) =~= before.push(fold_model(msg@.index, j, block@)));
        } else {
            append_block(out, msg.index, j, block, wrap_at);
        }
        j += 1;
    }
    assert(bs.take(msg.blocks.len() as int) =~= bs);
}

/// Build the line cache of `transcript` for a body `width` columns wide
/// (0 falls back to 80): a separator before every message but the first,
/// its header, then its blocks; user headers start user turns; user
/// turns and stop reasons become checkpoints.
pub fn build(transcript: &Transcript, width: u16, ctx: &CollapseContext<'_>) -> (out: LayoutOutput)
    ensures
        out@ == layout(transcript@.messages, ctx@, wrap_width(width as nat)),
{
    let wrap_at = effective_wrap_width(width);
    let mut lines: Vec<RenderedLine> = Vec::new();
    let mut starts: Vec<usize> = Vec::new();
    let mut cps: Vec<Checkpoint> = Vec::new();
    let ghost msgs = transcript@.messages;
    let mut i: usize = 0;
    proof {
        assert(msgs.take(0) =~= Seq::<MessageModel>::empty());
        assert(rlines_view(lines@) =~= Seq::<RenderedLineModel>::empty());
        assert(checkpoints_view(cps@) =~= Seq::<CheckpointModel>::empty());
    }
    while i < transcript.messages.len()
        invariant
            i <= transcript.messages.len(),
            msgs == transcript@.messages,
            wrap_at as nat == wrap_width(width as nat),
            (LayoutModel {
                lines: rlines_view(lines@),
                starts: starts@,
                checkpoints: checkpoints_view(cps@),
            }) == layout(msgs.take(i as int), ctx@, wrap_at as nat),
        decreases transcript.messages.len() - i,
    {
        let msg = &transcript.messages[i];
        let ghost prev = layout(msgs.take(i as int), ctx@, wrap_at as nat);
        proof {
            assert(msgs.take(i + 1).drop_last() =~= msgs.take(i as int));
            assert(msgs.take(i + 1).last() == msg@);
        }
        if i > 0 {
            lines.push(separator_line(msg.index));
        }
        let header_idx = lines.len();
        lines.push(header_line(msg));
        let ghost c0 = checkpoints_view(cps@);
        if msg.role == Role::User {
            starts.push(header_idx);
            let preview = message_preview_of(msg);
            cps.push(
                Checkpoint {
                    line: header_idx,
                    msg_index: msg.index,
                    kind: CheckpointKind::UserTurn,
                    preview,
                },
            );
            assert(checkpoints_view(cps@) =~= c0.push(checkpoints_view(cps@).last()));
        }
        let ghost c1 = checkpoints_view(cps@);
        match &msg.stop_reason {
            Some(reason) => {
                cps.push(
                    Checkpoint {
                        line: header_idx,
                        msg_index: msg.index,
                        kind: CheckpointKind::Stop(reason.clone()),
                        preview: reason.clone(),
                    },
                );
                assert(checkpoints_view(cps@) =~= c1.push(checkpoints_view(cps@).last()));
            },
            None => {},
        }
        let ghost l1 = rlines_view(lines@);
        push_blocks(&mut lines, msg, ctx, wrap_at);
        proof {
            let m = msg@;
            let sep = if i > 0 {
                seq![separator_model(m.index)]
            } else {
                Seq::<RenderedLineModel>::empty()
            };
            assert(l1 =~= prev.lines + sep + seq![header_model(m)]);
        }
        i += 1;
    }
    assert(msgs.take(transcript.messages.len() as int) =~= msgs);
    LayoutOutput { lines, user_turn_line_starts: starts, checkpoints: cps }
}

} // verus!

verus! {

/// Every user-turn start and every checkpoint of a layout points at a
/// header line of that layout, belonging to the checkpoint's message.
pub proof fn lemma_layout_indices(msgs: Seq<MessageModel>, ctx: CollapseModel, wrap: nat)
    requires
        layout(msgs, ctx, wrap).lines.len() <= usize::MAX,
    ensures
        ({
            let out = layout(msgs, ctx, wrap);
            &&& forall|i: int|
                0 <= i < out.starts.len() ==> (#[trigger] out.starts[i]) < out.lines.len()
                    && out.lines[out.starts[i] as int].kind == LineKind::Header
            &&& forall|i: int|
                0 <= i < out.checkpoints.len() ==> (#[trigger] out.checkpoints[i]).line
                    < out.lines.len() && out.lines[out.checkpoints[i].line as int].kind
                    == LineKind::Header && out.lines[out.checkpoints[i].line as int].msg_index
                    == out.checkpoints[i].msg_index
        }),
    decreases msgs.len(),
{
    if msgs.len() > 0 {
        let prev = layout(msgs.drop_last(), ctx, wrap);
        assert(prev.lines.len() <= layout(msgs, ctx, wrap).lines.len());
        lemma_layout_indices(msgs.drop_last(), ctx, wrap);
        let out = layout(msgs, ctx, wrap);
        let m = msgs.last();
        let sep: Seq<RenderedLineModel> = if msgs.len() > 1 {
            seq![separator_model(m.index)]
        } else {
            Seq::empty()
        };
        let hi = prev.lines.len() + sep.len();
        assert(out.lines[hi as int] == header_model(m));
        assert forall|j: int| 0 <= j < prev.lines.len() implies out.lines[j] == prev.lines[j] by {}
        assert forall|i: int| 0 <= i < out.starts.len() implies (#[trigger] out.starts[i])
            < out.lines.len() && out.lines[out.starts[i] as int].kind == LineKind::Header by {
            if i < prev.starts.len() {
                assert(out.starts[i] == prev.starts[i]);
            }
        }
        assert forall|i: int| 0 <= i < out.checkpoints.len() implies (#[trigger] out.checkpoints[i]).line
            < out.lines.len() && out.lines[out.checkpoints[i].line as int].kind == LineKind::Header
            && out.lines[out.checkpoints[i].line as int].msg_index == out.checkpoints[i].msg_index by {
            if i < prev.checkpoints.len() {
                assert(out.checkpoints[i] == prev.checkpoints[i]);
            }
        }
    }
}

/// Checkpoints and user-turn starts come in strictly increasing line
/// order, so stepping to the next or previous one always moves the same
/// way. (A user message that also carries a stop reason would put two
/// checkpoints on one line; messages built from events never do.)
pub proof fn law_checkpoints_increasing(msgs: Seq<MessageModel>, ctx: CollapseModel, wrap: nat)
    requires
        layout(msgs, ctx, wrap).lines.len() <= usize::MAX,
        forall|k: int| 0 <= k < msgs.len() && (#[trigger] msgs[k]).role == Role::User ==> msgs[k].stop_reason is None,
    ensures
        ({
            let out = layout(msgs, ctx, wrap);
            &&& forall|i: int, j: int|
                0 <= i < j < out.checkpoints.len() ==> (#[trigger] out.checkpoints[i]).line
                    < (#[trigger] out.checkpoints[j]).line
            &&& forall|i: int, j: int|
                0 <= i < j < out.starts.len() ==> (#[trigger] out.starts[i]) < (#[trigger] out.starts[j])
        }),
    decreases msgs.len(),
{
    if msgs.len() > 0 {
        let prev = layout(msgs.drop_last(), ctx, wrap);
        let out = layout(msgs, ctx, wrap);
        assert(prev.lines.len() <= out.lines.len());
        assert forall|k: int| 0 <= k < msgs.drop_last().len() && (#[trigger] msgs.drop_last()[k]).role
            == Role::User implies msgs.drop_last()[k].stop_reason is None by {
            assert(msgs.drop_last()[k] == msgs[k]);
        }
        law_checkpoints_increasing(msgs.drop_last(), ctx, wrap);
        lemma_layout_indices(msgs.drop_last(), ctx, wrap);
        let m = msgs.last();
        assert(m == msgs[msgs.len() - 1]);
        let sep: Seq<RenderedLineModel> = if msgs.len() > 1 {
            seq![separator_model(m.index)]
        } else {
            Seq::empty()
        };
        let hi = prev.lines.len() + sep.len();
        assert forall|i: int, j: int| 0 <= i < j < out.checkpoints.len() implies (#[trigger] out.checkpoints[i]).line
            < (#[trigger] out.checkpoints[j]).line by {
            if j < prev.checkpoints.len() {
                assert(out.checkpoints[i] == prev.checkpoints[i]);
                assert(out.checkpoints[j] == prev.checkpoints[j]);
            } else {
                assert(out.checkpoints[j].line == hi);
                assert(i < prev.checkpoints.len());
                assert(out.checkpoints[i] == prev.checkpoints[i]);
            }
        }
        assert forall|i: int, j: int| 0 <= i < j < out.starts.len() implies (#[trigger] out.starts[i])
            < (#[trigger] out.starts[j]) by {
            if j < prev.starts.len() {
                assert(out.starts[i] == prev.starts[i]);
                assert(out.starts[j] == prev.starts[j]);
            } else {
                assert(out.starts[j] == hi);
                assert(out.starts[i] == prev.starts[i]);
            }
        }
    }
}

} // verus!

verus! {

/// The lines of `ls` that belong to block `bi` of message `mi`, in order.
pub open spec fn lines_of_block(ls: Seq<RenderedLineModel>, mi: nat, bi: usize) -> Seq<RenderedLineModel>
    decreases ls.len(),
{
    if ls.len() == 0 {
        Seq::empty()
    } else {
        let prev = lines_of_block(ls.drop_last(), mi, bi);
        if ls.last().msg_index == mi && ls.last().block_index == Some(bi) {
            prev.push(ls.last())
        } else {
            prev
        }
    }
}

pub proof fn lemma_lines_of_block_concat(a: Seq<RenderedLineModel>, b: Seq<RenderedLineModel>, mi: nat, bi: usize)
    ensures
        lines_of_block(a + b, mi, bi) == lines_of_block(a, mi, bi) + lines_of_block(b, mi, bi),
    decreases b.len(),
{
    if b.len() == 0 {
        assert(a + b =~= a);
        assert(lines_of_block(a, mi, bi) + Seq::<RenderedLineModel>::empty() =~= lines_of_block(a, mi, bi));
    } else {
        lemma_lines_of_block_concat(a, b.drop_last(), mi, bi);
        assert((a + b).drop_last() =~= a + b.drop_last());
        assert((a + b).last() == b.last());
        let x = lines_of_block(a, mi, bi);
        let y = lines_of_block(b.drop_last(), mi, bi);
        assert((x + y).push(b.last()) =~= x + y.push(b.last()));
    }
}

/// No line of `ls` belongs to the block: none is picked.
pub proof fn lemma_lines_of_block_none(ls: Seq<RenderedLineModel>, mi: nat, bi: usize)
    requires
        forall|k: int| 0 <= k < ls.len() ==> !((#[trigger] ls[k]).msg_index == mi && ls[k].block_index == Some(bi)),
    ensures
        lines_of_block(ls, mi, bi) == Seq::<RenderedLineModel>::empty(),
    decreases ls.len(),
{
    if ls.len() > 0 {
        assert(ls.last() == ls[ls.len() - 1]);
        lemma_lines_of_block_none(ls.drop_last(), mi, bi);
    }
}

/// Every line of `ls` belongs to the block: all are picked.
pub proof fn lemma_lines_of_block_all(ls: Seq<RenderedLineModel>, mi: nat, bi: usize)
    requires
        forall|k: int| 0 <= k < ls.len() ==> (#[trigger] ls[k]).msg_index == mi && ls[k].block_index == Some(bi),
    ensures
        lines_of_block(ls, mi, bi) == ls,
    decreases ls.len(),
{
    if ls.len() > 0 {
        assert(ls.last() == ls[ls.len() - 1]);
        lemma_lines_of_block_all(ls.drop_last(), mi, bi);
        assert(ls.drop_last().push(ls.last()) =~= ls);
    }
}

/// The lines a block shows, folded or not.
pub open spec fn shown_block(mi: nat, bi: usize, b: BlockModel, ctx: CollapseModel, wrap: nat) -> Seq<RenderedLineModel> {
    if is_collapsed(mi as usize, bi, b, ctx) {
        seq![fold_model(mi, bi, b)]
    } else {
        block_lines(mi, bi, b, wrap)
    }
}

/// Every line a block shows is tagged with that block.
pub proof fn lemma_shown_block_tags(mi: nat, bi: usize, b: BlockModel, ctx: CollapseModel, wrap: nat)
    ensures
        forall|k: int| 0 <= k < shown_block(mi, bi, b, ctx, wrap).len() ==>
            (#[trigger] shown_block(mi, bi, b, ctx, wrap)[k]).msg_index == mi
            && shown_block(mi, bi, b, ctx, wrap)[k].block_index == Some(bi),
{
    let ls = shown_block(mi, bi, b, ctx, wrap);
    assert forall|k: int| 0 <= k < ls.len() implies (#[trigger] ls[k]).msg_index == mi && ls[k].block_index
        == Some(bi) by {
        if !is_collapsed(mi as usize, bi, b, ctx) {
            match b {
                BlockModel::Thinking(_) | BlockModel::ToolCall { .. } | BlockModel::ToolResult { .. } => {
                    if k > 0 {
                        assert(ls[k] == block_lines(mi, bi, b, wrap)[k]);
                    }
                },
                _ => {},
            }
        }
    }
}

/// The lines of block `bi` among the lines of `blocks` (message `mi`):
/// what that block shows, or nothing when there is no such block.
pub proof fn lemma_blocks_lines_of_block(
    mi: nat,
    blocks: Seq<BlockModel>,
    ctx: CollapseModel,
    wrap: nat,
    mj: nat,
    bi: usize,
)
    requires
        blocks.len() <= usize::MAX,
    ensures
        lines_of_block(blocks_lines(mi, blocks, ctx, wrap), mj, bi) == if mj == mi && bi < blocks.len() {
            shown_block(mi, bi, blocks[bi as int], ctx, wrap)
        } else {
            Seq::<RenderedLineModel>::empty()
        },
    decreases blocks.len(),
{
    if blocks.len() == 0 {
        lemma_lines_of_block_none(blocks_lines(mi, blocks, ctx, wrap), mj, bi);
    } else {
        let last = (blocks.len() - 1) as usize;
        let b = blocks.last();
        let prev = blocks_lines(mi, blocks.drop_last(), ctx, wrap);
        let piece = shown_block(mi, last, b, ctx, wrap);
        assert(blocks_lines(mi, blocks, ctx, wrap) == prev + piece);
        lemma_blocks_lines_of_block(mi, blocks.drop_last(), ctx, wrap, mj, bi);
        lemma_lines_of_block_concat(prev, piece, mj, bi);
        lemma_shown_block_tags(mi, last, b, ctx, wrap);
        if mj == mi && bi == last {
            lemma_lines_of_block_all(piece, mj, bi);
            assert(Seq::<RenderedLineModel>::empty() + piece =~= piece);
            assert(b == blocks[bi as int]);
        } else {
            lemma_lines_of_block_none(piece, mj, bi);
            let r = lines_of_block(prev, mj, bi);
            assert(r + Seq::<RenderedLineModel>::empty() =~= r);
            if mj == mi && bi < last {
                assert(blocks.drop_last()[bi as int] == blocks[bi as int]);
            }
        }
    }
}

/// In the layout of messages numbered `0, 1, 2, ...`, the lines of block
/// `bi` of message `mi` are exactly what that block shows: its fold line
/// when folded, its body lines otherwise, and nothing when there is no
/// such block.
pub proof fn lemma_layout_lines_of_block(
    msgs: Seq<MessageModel>,
    ctx: CollapseModel,
    wrap: nat,
    mi: nat,
    bi: usize,
)
    requires
        forall|i: int| 0 <= i < msgs.len() ==> (#[trigger] msgs[i]).index == i,
        forall|i: int| 0 <= i < msgs.len() ==> (#[trigger] msgs[i]).blocks.len() <= usize::MAX,
    ensures
        lines_of_block(layout(msgs, ctx, wrap).lines, mi, bi) == if mi < msgs.len() && bi
            < msgs[mi as int].blocks.len() {
            shown_block(mi, bi, msgs[mi as int].blocks[bi as int], ctx, wrap)
        } else {
            Seq::<RenderedLineModel>::empty()
        },
    decreases msgs.len(),
{
    if msgs.len() == 0 {
        lemma_lines_of_block_none(layout(msgs, ctx, wrap).lines, mi, bi);
    } else {
        let n = msgs.len() - 1;
        let m = msgs.last();
        assert(m.index == n);
        let ms = msgs.drop_last();
        assert forall|i: int| 0 <= i < ms.len() implies (#[trigger] ms[i]).index == i
            && ms[i].blocks.len() <= usize::MAX by {
            assert(ms[i] == msgs[i]);
        }
        assert(m == msgs[n]);
        lemma_layout_lines_of_block(ms, ctx, wrap, mi, bi);
        let prev = layout(ms, ctx, wrap);
        let sep: Seq<RenderedLineModel> = if msgs.len() > 1 {
            seq![separator_model(m.index)]
        } else {
            Seq::empty()
        };
        let head = sep + seq![header_model(m)];
        let body = blocks_lines(m.index, m.blocks, ctx, wrap);
        assert(layout(msgs, ctx, wrap).lines =~= prev.lines + head + body);
        lemma_lines_of_block_concat(prev.lines + head, body, mi, bi);
        lemma_lines_of_block_concat(prev.lines, head, mi, bi);
        assert forall|k: int| 0 <= k < head.len() implies !((#[trigger] head[k]).msg_index == mi
            && head[k].block_index == Some(bi)) by {
            if sep.len() > 0 && k == 0 {
                assert(head[k] == separator_model(m.index));
            } else {
                assert(head[k] == header_model(m));
            }
        }
        lemma_lines_of_block_none(head, mi, bi);
        lemma_blocks_lines_of_block(m.index, m.blocks, ctx, wrap, mi, bi);
        let e = Seq::<RenderedLineModel>::empty();
        let p = lines_of_block(prev.lines, mi, bi);
        assert(p + e =~= p);
        if mi == n {
            assert(e + e =~= e);
            assert(msgs[mi as int] == m);
        } else if mi < n {
            assert(ms[mi as int] == msgs[mi as int]);
            assert(p + e + e =~= p);
        } else {
            assert(e + e + e =~= e);
        }
    }
}

/// With collapse-all on, every thinking block, tool call and tool result
/// shows as exactly one fold line, and nothing else of it is shown.
pub proof fn law_collapse_all_folds(msgs: Seq<MessageModel>, ctx: CollapseModel, wrap: nat, mi: nat, bi: usize)
    requires
        ctx.all == CollapseAll::ToolsAndThinking,
        forall|i: int| 0 <= i < msgs.len() ==> (#[trigger] msgs[i]).index == i,
        forall|i: int| 0 <= i < msgs.len() ==> (#[trigger] msgs[i]).blocks.len() <= usize::MAX,
        mi < msgs.len(),
        bi < msgs[mi as int].blocks.len(),
        is_tool_or_thinking(msgs[mi as int].blocks[bi as int]),
    ensures
        lines_of_block(layout(msgs, ctx, wrap).lines, mi, bi) == seq![fold_model(mi, bi, msgs[mi as int].blocks[bi as int])],
{
    lemma_layout_lines_of_block(msgs, ctx, wrap, mi, bi);
}


/// Every message of a layout contributes at least its header line.
pub proof fn lemma_layout_len(msgs: Seq<MessageModel>, ctx: CollapseModel, wrap: nat)
    ensures
        layout(msgs, ctx, wrap).lines.len() >= msgs.len(),
    decreases msgs.len(),
{
    if msgs.len() > 0 {
        lemma_layout_len(msgs.drop_last(), ctx, wrap);
    }
}

/// Every line an expanded block shows is a body line.
pub proof fn lemma_block_lines_body(mi: nat, bi: usize, b: BlockModel, wrap: nat)
    ensures
        forall|k: int| 0 <= k < block_lines(mi, bi, b, wrap).len() ==>
            (#[trigger] block_lines(mi, bi, b, wrap)[k]).kind == LineKind::Body,
{
    let ls = block_lines(mi, bi, b, wrap);
    assert forall|k: int| 0 <= k < ls.len() implies (#[trigger] ls[k]).kind == LineKind::Body by {
        match b {
            BlockModel::Thinking(_) | BlockModel::ToolCall { .. } | BlockModel::ToolResult { .. } => {
                if k > 0 {
                    assert(ls[k] == block_lines(mi, bi, b, wrap)[k]);
                }
            },
            _ => {},
        }
    }
}

/// With nothing folded, the lines of a message's blocks are all body
/// lines.
pub proof fn lemma_blocks_lines_no_fold(mi: nat, blocks: Seq<BlockModel>, ctx: CollapseModel, wrap: nat)
    requires
        ctx.all == CollapseAll::Off,
        ctx.collapsed == Set::<BlockId>::empty(),
    ensures
        forall|k: int| 0 <= k < blocks_lines(mi, blocks, ctx, wrap).len() ==>
            (#[trigger] blocks_lines(mi, blocks, ctx, wrap)[k]).kind == LineKind::Body,
    decreases blocks.len(),
{
    if blocks.len() > 0 {
        let bi = (blocks.len() - 1) as usize;
        let b = blocks.last();
        lemma_blocks_lines_no_fold(mi, blocks.drop_last(), ctx, wrap);
        lemma_block_lines_body(mi, bi, b, wrap);
        let prev = blocks_lines(mi, blocks.drop_last(), ctx, wrap);
        let piece = block_lines(mi, bi, b, wrap);
        assert(!is_collapsed(mi as usize, bi, b, ctx));
        assert(blocks_lines(mi, blocks, ctx, wrap) == prev + piece);
        let all = prev + piece;
        assert forall|k: int| 0 <= k < all.len() implies (#[trigger] all[k]).kind == LineKind::Body by {
            if k < prev.len() {
                assert(all[k] == prev[k]);
            } else {
                assert(all[k] == piece[k - prev.len()]);
            }
        }
    }
}

/// With collapse-all off and no block folded by hand (as right after
/// collapse-all is switched off), no line of the layout is a fold line:
/// every block is shown expanded.
pub proof fn law_expanded_has_no_fold(msgs: Seq<MessageModel>, ctx: CollapseModel, wrap: nat)
    requires
        ctx.all == CollapseAll::Off,
        ctx.collapsed == Set::<BlockId>::empty(),
    ensures
        forall|k: int| 0 <= k < layout(msgs, ctx, wrap).lines.len() ==>
            (#[trigger] layout(msgs, ctx, wrap).lines[k]).kind != LineKind::Fold,
    decreases msgs.len(),
{
    if msgs.len() > 0 {
        law_expanded_has_no_fold(msgs.drop_last(), ctx, wrap);
        let m = msgs.last();
        let prev = layout(msgs.drop_last(), ctx, wrap);
        let sep: Seq<RenderedLineModel> = if msgs.len() > 1 {
            seq![separator_model(m.index)]
        } else {
            Seq::empty()
        };
        let head = sep + seq![header_model(m)];
        let body = blocks_lines(m.index, m.blocks, ctx, wrap);
        lemma_blocks_lines_no_fold(m.index, m.blocks, ctx, wrap);
        let all = layout(msgs, ctx, wrap).lines;
        assert(all =~= prev.lines + head + body);
        assert forall|k: int| 0 <= k < all.len() implies (#[trigger] all[k]).kind != LineKind::Fold by {
            if k < prev.lines.len() {
                assert(all[k] == prev.lines[k]);
            } else if k < prev.lines.len() + head.len() {
                let j = k - prev.lines.len();
                assert(all[k] == head[j]);
                if sep.len() > 0 && j == 0 {
                    assert(head[j] == separator_model(m.index));
                } else {
                    assert(head[j] == header_model(m));
                }
            } else {
                assert(all[k] == body[k - prev.lines.len() - head.len()]);
            }
        }
    }
}

} // verus!
