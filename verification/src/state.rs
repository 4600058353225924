//! The transcript viewer's state: the transcript, its line cache, the
//! viewport and cursor, collapse state, marks, search and the one-line
//! flash message.
//!
//! Every operation is specified as a transition of [`StateModel`]; the
//! line cache is always the layout of the current transcript under the
//! current collapse state and width, and the cursor always sits on a line
//! of the cache and inside the viewport.

use vstd::prelude::*;

use crate::checkpoints::{Mark, MarksFile, SessionMarks};
use crate::clipboard::{yank_flash, yank_flash_text, CopyMethod};
use crate::jsonl::SessionEvent;
use crate::layout::{
    LayoutOutput, build, rlines_view, checkpoints_view, layout, wrap_width, BlockId, Checkpoint, CheckpointModel,
    CollapseAll, CollapseContext, CollapseModel, LayoutModel, LineKind, RenderedLine, RenderedLineModel,
};
use crate::search::{
    find_matches, haystack, search_mode_wf, SearchIndex, SearchMatch, SearchMode, SearchModeModel,
};
use crate::style::line_text;
use crate::text::{byte_len, chars_of, decimal, owned, push_str, string_from_range, string_push, usize_to_string};
use crate::transcript::{apply_events, lemma_apply_events_prefix, messages_view, Block, BlockModel, Transcript, TranscriptModel};
use crate::yank::{format_message, yank_text};

verus! {

// ---------------------------------------------------------------------
// the model
// ---------------------------------------------------------------------

pub ghost struct StateModel {
    pub transcript: TranscriptModel,
    pub lines: Seq<RenderedLineModel>,
    pub starts: Seq<usize>,
    pub checkpoints: Seq<CheckpointModel>,
    pub show_sidebar: bool,
    pub vw: u16,
    pub vh: u16,
    pub scroll: nat,
    pub cursor: nat,
    pub collapsed: Set<BlockId>,
    pub collapse_all: CollapseAll,
    pub pending_g: bool,
    pub pending_m: bool,
    pub pending_quote: bool,
    pub marks: Map<char, Mark>,
    pub marks_path: Option<Seq<char>>,
    /// The marks changed and should be written to the marks file.
    pub save_requested: bool,
    pub live: bool,
    pub follow: bool,
    pub needs_initial_bottom: bool,
    pub search: SearchModeModel,
    pub flash: Option<Seq<char>>,
    pub dirty: bool,
    /// Text waiting to be copied to the clipboard.
    pub yank: Option<Seq<char>>,
}

pub open spec fn ctx_of(s: StateModel) -> CollapseModel {
    CollapseModel { collapsed: s.collapsed, all: s.collapse_all }
}

pub open spec fn cache_of(s: StateModel) -> LayoutModel {
    LayoutModel { lines: s.lines, starts: s.starts, checkpoints: s.checkpoints }
}

/// The state invariant: a clean cache is the layout of the transcript; a
/// dirty one is empty; the cursor is on a line (or 0 when there is none)
/// and inside the viewport; an active search's match cursor is valid; a
/// viewer that is not live never follows.
pub open spec fn state_wf(s: StateModel) -> bool {
    &&& !s.dirty ==> cache_of(s) == layout(s.transcript.messages, ctx_of(s), wrap_width(s.vw as nat))
    &&& s.dirty ==> s.lines.len() == 0 && s.starts.len() == 0 && s.checkpoints.len() == 0
    &&& (s.cursor < s.lines.len() || s.cursor == 0)
    &&& s.lines.len() <= usize::MAX
    &&& s.scroll <= s.cursor
    &&& (s.vh > 0 ==> s.cursor < s.scroll + s.vh)
    &&& search_mode_wf(s.search)
    &&& !s.live ==> !s.follow
}

pub open spec fn sat_sub(a: nat, b: nat) -> nat {
    if a > b {
        (a - b) as nat
    } else {
        0
    }
}

pub open spec fn min_nat(a: nat, b: nat) -> nat {
    if a < b {
        a
    } else {
        b
    }
}

pub open spec fn with_flash(s: StateModel, m: Seq<char>) -> StateModel {
    StateModel { flash: Some(m), ..s }
}

/// The scroll position that keeps line `cursor` visible in a viewport of
/// `h` lines over `total` lines, moving `scroll` as little as possible and
/// never past the last full page.
pub open spec fn clamp_value(scroll: nat, cursor: nat, total: nat, h: nat) -> nat {
    let max_scroll = sat_sub(total, h);
    let sc1 = if scroll > max_scroll {
        max_scroll
    } else {
        scroll
    };
    if cursor < sc1 {
        cursor
    } else if cursor >= sc1 + h && h > 0 {
        (cursor + 1 - h) as nat
    } else {
        sc1
    }
}

/// Distance between two scroll positions.
pub open spec fn scroll_dist(a: nat, b: nat) -> nat {
    if a >= b {
        (a - b) as nat
    } else {
        (b - a) as nat
    }
}

/// Scrolling to keep the cursor in view shows it, never scrolls past the
/// last full page (so the bottom line sits at the bottom of the
/// viewport), and moves as little as that allows: no other such position
/// is closer to where the view was.
pub proof fn law_clamp_scroll_minimal(scroll: nat, cursor: nat, total: nat, h: nat)
    requires
        h > 0,
        cursor < total,
    ensures
        ({
            let r = clamp_value(scroll, cursor, total, h);
            &&& r <= sat_sub(total, h)
            &&& r <= cursor < r + h
            &&& forall|v: nat| v <= sat_sub(total, h) && v <= cursor < v + h ==> scroll_dist(r, scroll)
                <= #[trigger] scroll_dist(v, scroll)
        }),
{
}

/// Scroll so the cursor is visible, never past the last full page.
pub open spec fn clamp_scroll(s: StateModel) -> StateModel {
    StateModel { scroll: clamp_value(s.scroll, s.cursor, s.lines.len(), s.vh as nat), ..s }
}

/// Cursor and "start at the bottom" flag after a relayout to `n` lines:
/// the cursor stays on a line, and a pending request moves it to the last.
pub open spec fn relayout_cursor(cursor: nat, n: nat, needs_bottom: bool) -> (nat, bool) {
    if needs_bottom && n > 0 {
        ((n - 1) as nat, false)
    } else if cursor >= n {
        (sat_sub(n, 1), needs_bottom)
    } else {
        (cursor, needs_bottom)
    }
}

/// Rebuild the cache, keep the cursor on a line, honour a pending
/// "start at the bottom" request, and scroll to the cursor.
pub open spec fn relayout(s: StateModel) -> StateModel {
    let out = layout(s.transcript.messages, ctx_of(s), wrap_width(s.vw as nat));
    let rc = relayout_cursor(s.cursor, out.lines.len(), s.needs_initial_bottom);
    clamp_scroll(
        StateModel {
            lines: out.lines,
            starts: out.starts,
            checkpoints: out.checkpoints,
            dirty: false,
            cursor: rc.0,
            needs_initial_bottom: rc.1,
            ..s
        },
    )
}

pub open spec fn paused_msg() -> Seq<char> {
    "paused (press F or G to follow)"@
}

/// Manual navigation stops following the live tail.
pub open spec fn disable_follow(s: StateModel) -> StateModel {
    if s.follow {
        StateModel { follow: false, flash: Some(paused_msg()), ..s }
    } else {
        s
    }
}

pub open spec fn move_down(s: StateModel, n: nat) -> StateModel {
    let s1 = disable_follow(s);
    let max = sat_sub(s1.lines.len(), 1);
    clamp_scroll(StateModel { cursor: min_nat(s1.cursor + n, max), ..s1 })
}

pub open spec fn move_up(s: StateModel, n: nat) -> StateModel {
    let s1 = disable_follow(s);
    clamp_scroll(StateModel { cursor: sat_sub(s1.cursor, n), ..s1 })
}

pub open spec fn half_page(s: StateModel) -> nat {
    let h = (s.vh / 2) as nat;
    if h < 1 {
        1
    } else {
        h
    }
}

pub open spec fn jump_top(s: StateModel) -> StateModel {
    StateModel { cursor: 0, scroll: 0, ..disable_follow(s) }
}

pub open spec fn jump_bottom(s: StateModel) -> StateModel {
    let s1 = clamp_scroll(StateModel { cursor: sat_sub(s.lines.len(), 1), ..s });
    if s1.live {
        StateModel { follow: true, ..s1 }
    } else {
        s1
    }
}

/// The first element after `c`, in order.
pub open spec fn first_after(v: Seq<nat>, c: nat) -> Option<nat>
    decreases v.len(),
{
    if v.len() == 0 {
        None
    } else if v[0] > c {
        Some(v[0])
    } else {
        first_after(v.drop_first(), c)
    }
}

/// The last element before `c`, in order.
pub open spec fn last_before(v: Seq<nat>, c: nat) -> Option<nat>
    decreases v.len(),
{
    if v.len() == 0 {
        None
    } else if v.last() < c {
        Some(v.last())
    } else {
        last_before(v.drop_last(), c)
    }
}

pub open spec fn starts_nat(s: StateModel) -> Seq<nat> {
    Seq::new(s.starts.len(), |i: int| s.starts[i] as nat)
}

pub open spec fn checkpoint_lines(s: StateModel) -> Seq<nat> {
    Seq::new(s.checkpoints.len(), |i: int| s.checkpoints[i].line)
}

/// Move to `target` if there is one, else flash `none_msg`.
pub open spec fn jump_to(s: StateModel, target: Option<nat>, none_msg: Seq<char>) -> StateModel {
    match target {
        Some(t) => clamp_scroll(StateModel { cursor: t, ..s }),
        None => with_flash(s, none_msg),
    }
}

pub open spec fn next_user_turn(s: StateModel) -> StateModel {
    let s1 = disable_follow(s);
    jump_to(s1, first_after(starts_nat(s1), s1.cursor), "no more user turns"@)
}

pub open spec fn prev_user_turn(s: StateModel) -> StateModel {
    let s1 = disable_follow(s);
    jump_to(s1, last_before(starts_nat(s1), s1.cursor), "no previous user turns"@)
}

pub open spec fn next_checkpoint(s: StateModel) -> StateModel {
    let s1 = disable_follow(s);
    jump_to(s1, first_after(checkpoint_lines(s1), s1.cursor), "no more checkpoints"@)
}

pub open spec fn prev_checkpoint(s: StateModel) -> StateModel {
    let s1 = disable_follow(s);
    jump_to(s1, last_before(checkpoint_lines(s1), s1.cursor), "no previous checkpoints"@)
}

/// Index of the last checkpoint at or above line `c`.
pub open spec fn active_checkpoint(cps: Seq<CheckpointModel>, c: nat) -> Option<nat>
    decreases cps.len(),
{
    if cps.len() == 0 {
        None
    } else if cps.last().line <= c {
        Some((cps.len() - 1) as nat)
    } else {
        active_checkpoint(cps.drop_last(), c)
    }
}

pub open spec fn is_collapsible(b: BlockModel) -> bool {
    b is Thinking || b is ToolCall || b is ToolResult
}

/// The block a line belongs to, when that block exists.
pub open spec fn block_at(s: StateModel, id: BlockId) -> Option<BlockModel> {
    let (m, b) = id;
    if m < s.transcript.messages.len() && b < s.transcript.messages[m as int].blocks.len() {
        Some(s.transcript.messages[m as int].blocks[b as int])
    } else {
        None
    }
}

pub open spec fn line_block_id(l: RenderedLineModel) -> Option<BlockId> {
    match l.block_index {
        Some(b) => Some((l.msg_index as usize, b)),
        None => None,
    }
}

pub open spec fn toggle_block(s: StateModel) -> StateModel {
    let id = if s.cursor < s.lines.len() {
        line_block_id(s.lines[s.cursor as int])
    } else {
        None
    };
    match id {
        None => with_flash(s, "no block under cursor"@),
        Some(id) => match block_at(s, id) {
            None => with_flash(s, "no block under cursor"@),
            Some(b) => if !is_collapsible(b) {
                with_flash(s, "not collapsible"@)
            } else {
                let c = if s.collapsed.contains(id) {
                    s.collapsed.remove(id)
                } else {
                    s.collapsed.insert(id)
                };
                relayout(StateModel { collapsed: c, dirty: true, ..s })
            },
        },
    }
}

pub open spec fn toggle_collapse_all(s: StateModel) -> StateModel {
    let all = match s.collapse_all {
        CollapseAll::Off => CollapseAll::ToolsAndThinking,
        CollapseAll::ToolsAndThinking => CollapseAll::Off,
    };
    let s1 = relayout(
        StateModel { collapsed: Set::empty(), collapse_all: all, dirty: true, ..s },
    );
    with_flash(
        s1,
        match all {
            CollapseAll::Off => "expanded all"@,
            CollapseAll::ToolsAndThinking => "collapsed tools & thinking"@,
        },
    )
}

/// `T` switches collapse-all and forgets blocks folded by hand; the lines
/// are the layout under the new setting. Switched on, each thinking,
/// tool call and tool result block shows as one fold line (see
/// `law_collapse_all_folds`); switched off, no line is a fold line. A
/// second `T` gives the first setting back.
pub proof fn law_toggle_collapse_all(s: StateModel)
    ensures
        ({
            let t = toggle_collapse_all(s);
            &&& t.collapsed == Set::<BlockId>::empty()
            &&& t.collapse_all != s.collapse_all
            &&& t.lines == layout(s.transcript.messages, ctx_of(t), wrap_width(s.vw as nat)).lines
            &&& t.flash == Some(if t.collapse_all == CollapseAll::Off {
                "expanded all"@
            } else {
                "collapsed tools & thinking"@
            })
            &&& t.collapse_all == CollapseAll::Off ==> forall|k: int| 0 <= k < t.lines.len()
                ==> (#[trigger] t.lines[k]).kind != LineKind::Fold
            &&& toggle_collapse_all(t).collapse_all == s.collapse_all
        }),
{
    let t = toggle_collapse_all(s);
    if t.collapse_all == CollapseAll::Off {
        crate::layout::law_expanded_has_no_fold(s.transcript.messages, ctx_of(t), wrap_width(s.vw as nat));
    }
}

pub open spec fn toggle_follow(s: StateModel) -> StateModel {
    if !s.live {
        s
    } else if !s.follow {
        with_flash(jump_bottom(StateModel { follow: true, ..s }), "follow: on"@)
    } else {
        with_flash(StateModel { follow: false, ..s }, "follow: off"@)
    }
}

pub open spec fn append_events(s: StateModel, evs: Seq<SessionEvent>) -> StateModel {
    let t = apply_events(s.transcript, evs);
    let s1 = StateModel { transcript: t, ..s };
    if t.messages.len() == s.transcript.messages.len() {
        s1
    } else {
        let s2 = relayout(StateModel { dirty: true, ..s1 });
        if s2.follow {
            jump_bottom(s2)
        } else {
            s2
        }
    }
}

pub open spec fn reset_transcript(s: StateModel, t: TranscriptModel) -> StateModel {
    let s1 = relayout(
        StateModel {
            transcript: t,
            collapsed: Set::empty(),
            marks: Map::empty(),
            dirty: true,
            ..s
        },
    );
    if s1.follow {
        jump_bottom(s1)
    } else {
        s1
    }
}

pub open spec fn set_viewport(s: StateModel, w: u16, h: u16) -> StateModel {
    let s1 = if w != s.vw {
        StateModel { vw: w, dirty: true, ..s }
    } else {
        s
    };
    let s2 = StateModel { vh: h, ..s1 };
    let s3 = if s2.dirty {
        relayout(s2)
    } else {
        s2
    };
    clamp_scroll(s3)
}

pub open spec fn is_mark_letter(c: char) -> bool {
    'a' <= c && c <= 'z'
}

pub open spec fn bad_mark_msg(c: char) -> Seq<char> {
    "bad mark '"@ + seq![c] + "'"@
}

pub open spec fn set_mark(s: StateModel, c: char) -> StateModel {
    if !is_mark_letter(c) {
        with_flash(s, bad_mark_msg(c))
    } else if s.cursor >= s.lines.len() {
        with_flash(s, "nothing to mark"@)
    } else {
        let l = s.lines[s.cursor as int];
        let m = Mark { msg_index: l.msg_index as usize, block_index: l.block_index };
        StateModel {
            marks: s.marks.insert(c, m),
            flash: Some("mark "@ + seq![c] + " set"@),
            save_requested: s.save_requested || s.marks_path is Some,
            ..s
        }
    }
}

/// Index of the first line satisfying `exact` (message and block match),
/// else of the first line of the mark's message.
pub open spec fn first_line_where(ls: Seq<RenderedLineModel>, m: Mark, exact: bool) -> Option<nat>
    decreases ls.len(),
{
    if ls.len() == 0 {
        None
    } else if ls[0].msg_index == m.msg_index && (!exact || ls[0].block_index == m.block_index) {
        Some(0)
    } else {
        match first_line_where(ls.drop_first(), m, exact) {
            Some(i) => Some(i + 1),
            None => None,
        }
    }
}

pub open spec fn attach_marks(
    s: StateModel,
    path: Seq<char>,
    file: Map<Seq<char>, Map<char, Mark>>,
) -> StateModel {
    StateModel {
        marks: if file.contains_key(s.transcript.session_id) {
            file[s.transcript.session_id]
        } else {
            s.marks
        },
        marks_path: Some(path),
        ..s
    }
}

pub open spec fn shift(o: Option<nat>, d: nat) -> Option<nat> {
    match o {
        Some(k) => Some(k + d),
        None => None,
    }
}

pub proof fn lemma_first_line_in_range(ls: Seq<RenderedLineModel>, m: Mark, exact: bool)
    ensures
        first_line_where(ls, m, exact) matches Some(i) ==> i < ls.len(),
    decreases ls.len(),
{
    if ls.len() > 0 {
        lemma_first_line_in_range(ls.drop_first(), m, exact);
    }
}

pub open spec fn mark_target(ls: Seq<RenderedLineModel>, m: Mark) -> Option<nat> {
    match first_line_where(ls, m, true) {
        Some(i) => Some(i),
        None => first_line_where(ls, m, false),
    }
}

pub open spec fn jump_to_mark(s: StateModel, c: char) -> StateModel {
    if !is_mark_letter(c) {
        with_flash(s, bad_mark_msg(c))
    } else if !s.marks.contains_key(c) {
        with_flash(s, "no mark "@ + seq![c])
    } else {
        match mark_target(s.lines, s.marks[c]) {
            Some(i) => with_flash(clamp_scroll(StateModel { cursor: i, ..s }), "'"@ + seq![c]),
            None => with_flash(s, "mark "@ + seq![c] + " out of range"@),
        }
    }
}

/// Two lines belong to the same block of the same message.
pub open spec fn same_place(a: RenderedLineModel, b: RenderedLineModel) -> bool {
    a.msg_index == b.msg_index && a.block_index == b.block_index
}

proof fn lemma_first_line_exact(ls: Seq<RenderedLineModel>, k: int)
    requires
        0 <= k < ls.len(),
        ls[k].msg_index <= usize::MAX,
    ensures
        ({
            let m = Mark { msg_index: ls[k].msg_index as usize, block_index: ls[k].block_index };
            &&& first_line_where(ls, m, true) matches Some(i)
            &&& i <= k
            &&& same_place(ls[i as int], ls[k])
            &&& forall|j: int| 0 <= j < i ==> !same_place(#[trigger] ls[j], ls[k])
        }),
    decreases ls.len(),
{
    let m = Mark { msg_index: ls[k].msg_index as usize, block_index: ls[k].block_index };
    if !(ls[0].msg_index == m.msg_index && ls[0].block_index == m.block_index) {
        let rest = ls.drop_first();
        assert(rest[k - 1] == ls[k]);
        lemma_first_line_exact(rest, k - 1);
        let i = first_line_where(rest, m, true)->0;
        assert forall|j: int| 0 <= j < i + 1 implies !same_place(#[trigger] ls[j], ls[k]) by {
            if j > 0 {
                assert(ls[j] == rest[j - 1]);
            }
        }
        assert(ls[i + 1 as int] == rest[i as int]);
    }
}

/// A mark set on a line leads back to it: as long as the lines are the
/// same, jumping to the mark lands on the first line of the marked line's
/// block (the marked line itself when it starts its block), wherever the
/// cursor went in between.
pub proof fn law_mark_round_trip(s: StateModel, c: char, t: StateModel)
    requires
        is_mark_letter(c),
        s.cursor < s.lines.len(),
        s.lines[s.cursor as int].msg_index <= usize::MAX,
        t.lines == s.lines,
        t.marks.contains_key(c),
        t.marks[c] == set_mark(s, c).marks[c],
    ensures
        ({
            let r = jump_to_mark(t, c).cursor;
            let l = s.lines[s.cursor as int];
            &&& r <= s.cursor
            &&& same_place(s.lines[r as int], l)
            &&& forall|j: int| 0 <= j < r ==> !same_place(#[trigger] s.lines[j], l)
            &&& jump_to_mark(t, c).flash == Some("'"@ + seq![c])
        }),
{
    lemma_first_line_exact(s.lines, s.cursor as int);
}

/// Line-start table of the search index over `ls`.
pub open spec fn index_starts(ls: Seq<RenderedLineModel>) -> Seq<usize> {
    Seq::new(ls.len() + 1, |k: int| byte_len(haystack(ls.take(k))) as usize)
}

/// Every match of `q` in the plain text of `ls`.
pub open spec fn search_lines(ls: Seq<RenderedLineModel>, q: Seq<char>) -> Seq<SearchMatch> {
    find_matches(haystack(ls), index_starts(ls), q)
}

pub open spec fn jump_to_match_line(s: StateModel, m: SearchMatch) -> StateModel {
    if (m.line as nat) < s.lines.len() {
        clamp_scroll(StateModel { cursor: m.line as nat, ..s })
    } else {
        s
    }
}

pub open spec fn position_msg(i: nat, total: nat) -> Seq<char> {
    decimal(i) + "/"@ + decimal(total)
}

pub open spec fn commit_search(s: StateModel) -> StateModel {
    match s.search {
        SearchModeModel::Typing(q) => if q.len() == 0 {
            StateModel { search: SearchModeModel::Idle, ..s }
        } else {
            let ms = search_lines(s.lines, q);
            if ms.len() == 0 {
                with_flash(
                    StateModel { search: SearchModeModel::Idle, ..s },
                    "no match for \""@ + q + "\""@,
                )
            } else {
                let s1 = StateModel { search: SearchModeModel::Active(q, ms, 0), ..s };
                with_flash(jump_to_match_line(s1, ms[0]), position_msg(1, ms.len()))
            }
        },
        _ => s,
    }
}

pub open spec fn step_match(s: StateModel, forward: bool) -> StateModel {
    match s.search {
        SearchModeModel::Active(q, ms, c) => if ms.len() == 0 {
            s
        } else {
            let c2 = step_cursor(c as nat, ms.len(), forward);
            let s1 = StateModel { search: SearchModeModel::Active(q, ms, c2 as usize), ..s };
            with_flash(jump_to_match_line(s1, ms[c2 as int]), position_msg(c2 + 1, ms.len()))
        },
        _ => s,
    }
}

/// `n` then `N` comes back to the same match: the match cursor is where
/// it was, and the viewer's cursor is on that match's line.
pub proof fn law_next_then_prev_match(s: StateModel)
    requires
        search_mode_wf(s.search),
        s.search matches SearchModeModel::Active(_, ms, _) && 0 < ms.len() <= usize::MAX,
    ensures
        step_match(step_match(s, true), false).search == s.search,
        step_match(step_match(s, true), false).lines == s.lines,
        s.search matches SearchModeModel::Active(_, ms, c) && ((ms[c as int].line as nat) < s.lines.len()
            ==> step_match(step_match(s, true), false).cursor == ms[c as int].line as nat),
{
    if let SearchModeModel::Active(q, ms, c) = s.search {
        let n = ms.len();
        let c1 = step_cursor(c as nat, n, true);
        assert(c1 < n);
        let c2 = step_cursor(c1, n, false);
        if c + 1 < n {
            assert((c + 1) % (n as int) == c + 1) by (nonlinear_arith)
                requires 0 <= c + 1 < n;
        } else {
            assert((c + 1) % (n as int) == 0) by (nonlinear_arith)
                requires c + 1 == n, n > 0;
        }
        assert(c2 == c as nat);
        let s1 = StateModel { search: SearchModeModel::Active(q, ms, c1 as usize), ..s };
        let t = step_match(s, true);
        assert(t == with_flash(jump_to_match_line(s1, ms[c1 as int]), position_msg(c1 + 1, n)));
        assert(t.search == SearchModeModel::Active(q, ms, c1 as usize));
        assert(t.lines == s.lines);
        let t1 = StateModel { search: SearchModeModel::Active(q, ms, c2 as usize), ..t };
        let u = step_match(t, false);
        assert(u == with_flash(jump_to_match_line(t1, ms[c2 as int]), position_msg(c2 + 1, n)));
        assert(u.search == s.search);
    }
}

/// The viewer after `k` presses of `n`.
pub open spec fn next_n(s: StateModel, k: nat) -> StateModel
    decreases k,
{
    if k == 0 {
        s
    } else {
        step_match(next_n(s, (k - 1) as nat), true)
    }
}

/// After `k` presses of `n` the match cursor has moved `k` places on,
/// wrapping past the last match; the lines stay the same.
pub proof fn lemma_next_n(s: StateModel, k: nat)
    requires
        search_mode_wf(s.search),
        s.search matches SearchModeModel::Active(_, ms, _) && 0 < ms.len() <= usize::MAX,
    ensures
        s.search matches SearchModeModel::Active(q, ms, c) && next_n(s, k).search
            == SearchModeModel::Active(q, ms, ((c + k) % (ms.len() as int)) as usize),
        next_n(s, k).lines == s.lines,
    decreases k,
{
    if let SearchModeModel::Active(q, ms, c) = s.search {
        let n = ms.len() as int;
        if k == 0 {
            vstd::arithmetic::div_mod::lemma_small_mod(c as nat, n as nat);
        } else {
            lemma_next_n(s, (k - 1) as nat);
            let p = next_n(s, (k - 1) as nat);
            let x = c + k - 1;
            vstd::arithmetic::div_mod::lemma_mod_pos_bound(x, n);
            let c1 = (x % n) as usize;
            assert(p.search == SearchModeModel::Active(q, ms, c1));
            vstd::arithmetic::div_mod::lemma_add_mod_noop(x, 1, n);
            vstd::arithmetic::div_mod::lemma_add_mod_noop_right(x % n, 1, n);
            assert(step_cursor(c1 as nat, n as nat, true) == (c + k) % n);
            vstd::arithmetic::div_mod::lemma_mod_pos_bound(c + k, n);
            let c2 = step_cursor(c1 as nat, n as nat, true);
            let s1 = StateModel { search: SearchModeModel::Active(q, ms, c2 as usize), ..p };
            assert(next_n(s, k) == with_flash(jump_to_match_line(s1, ms[c2 as int]), position_msg(c2 + 1, n as nat)));
        }
    }
}

/// Pressing `n` as many times as there are matches comes back to the
/// match it started from, with the viewer's cursor on that match's line.
pub proof fn law_n_nexts_come_back(s: StateModel)
    requires
        search_mode_wf(s.search),
        s.search matches SearchModeModel::Active(_, ms, _) && 0 < ms.len() <= usize::MAX,
    ensures
        s.search matches SearchModeModel::Active(_, ms, c) && ({
            let t = next_n(s, ms.len());
            &&& t.search == s.search
            &&& t.lines == s.lines
            &&& (ms[c as int].line as nat) < s.lines.len() ==> t.cursor == ms[c as int].line as nat
        }),
{
    if let SearchModeModel::Active(q, ms, c) = s.search {
        let n = ms.len();
        lemma_next_n(s, n);
        lemma_next_n(s, (n - 1) as nat);
        vstd::arithmetic::div_mod::lemma_add_mod_noop(c as int, n as int, n as int);
        vstd::arithmetic::div_mod::lemma_mod_self_0(n as int);
        vstd::arithmetic::div_mod::lemma_small_mod(c as nat, n as nat);
        assert((c + n) % (n as int) == c);
        let p = next_n(s, (n - 1) as nat);
        let x = c + n - 1;
        vstd::arithmetic::div_mod::lemma_mod_pos_bound(x, n as int);
        let c1 = (x % (n as int)) as usize;
        vstd::arithmetic::div_mod::lemma_add_mod_noop(x, 1, n as int);
        vstd::arithmetic::div_mod::lemma_add_mod_noop_right(x % (n as int), 1, n as int);
        let c2 = step_cursor(c1 as nat, n, true);
        assert(c2 == c);
        let s1 = StateModel { search: SearchModeModel::Active(q, ms, c2 as usize), ..p };
        assert(next_n(s, n) == with_flash(jump_to_match_line(s1, ms[c2 as int]), position_msg(c2 + 1, n)));
    }
}

pub open spec fn push_search_char(s: StateModel, c: char) -> StateModel {
    match s.search {
        SearchModeModel::Typing(q) => StateModel { search: SearchModeModel::Typing(q.push(c)), ..s },
        _ => s,
    }
}

pub open spec fn pop_search_char(s: StateModel) -> StateModel {
    match s.search {
        SearchModeModel::Typing(q) => if q.len() > 0 {
            StateModel { search: SearchModeModel::Typing(q.drop_last()), ..s }
        } else {
            s
        },
        _ => s,
    }
}

pub open spec fn begin_search_spec(s: StateModel) -> StateModel {
    StateModel { search: SearchModeModel::Typing(Seq::empty()), ..s }
}

pub open spec fn cancel_search_spec(s: StateModel) -> StateModel {
    StateModel { search: SearchModeModel::Idle, ..s }
}

pub open spec fn current_msg_index(s: StateModel) -> nat {
    if s.cursor < s.lines.len() {
        s.lines[s.cursor as int].msg_index
    } else {
        0
    }
}

/// Stage the message under the cursor for copying.
pub open spec fn request_yank(s: StateModel) -> StateModel {
    let i = current_msg_index(s);
    if i < s.transcript.messages.len() {
        StateModel { yank: Some(yank_text(s.transcript.messages[i as int])), ..s }
    } else {
        with_flash(s, "nothing to yank"@)
    }
}

pub open spec fn initial_state(t: TranscriptModel) -> StateModel {
    StateModel {
        transcript: t,
        lines: Seq::empty(),
        starts: Seq::empty(),
        checkpoints: Seq::empty(),
        show_sidebar: false,
        vw: 0,
        vh: 0,
        scroll: 0,
        cursor: 0,
        collapsed: Set::empty(),
        collapse_all: CollapseAll::Off,
        pending_g: false,
        pending_m: false,
        pending_quote: false,
        marks: Map::empty(),
        marks_path: None,
        save_requested: false,
        live: false,
        follow: false,
        needs_initial_bottom: false,
        search: SearchModeModel::Idle,
        flash: None,
        dirty: true,
        yank: None,
    }
}

} // verus!

verus! {

// ---------------------------------------------------------------------
// the executable state
// ---------------------------------------------------------------------

/// Viewer state: transcript, line cache, viewport, cursor, collapse set,
/// marks, search, chord flags and the flash line.
pub struct TranscriptState {
    transcript: Transcript,
    lines: Vec<RenderedLine>,
    user_turn_line_starts: Vec<usize>,
    checkpoints: Vec<Checkpoint>,
    show_sidebar: bool,
    viewport_width: u16,
    viewport_height: u16,
    scroll: usize,
    cursor: usize,
    collapsed: Vec<BlockId>,
    collapse_all: CollapseAll,
    pending_g: bool,
    pending_m: bool,
    pending_quote: bool,
    marks: SessionMarks,
    marks_path: Option<String>,
    save_requested: bool,
    live: bool,
    follow: bool,
    needs_initial_bottom: bool,
    search: SearchMode,
    flash: Option<String>,
    dirty: bool,
    yank: Option<String>,
}

/// A request to write one session's marks: merge `marks` into the entry
/// of `session_id` in the marks file at `path`.
pub struct MarksSave {
    pub path: String,
    pub session_id: String,
    pub marks: SessionMarks,
}

pub open spec fn opt_chars(o: Option<String>) -> Option<Seq<char>> {
    match o {
        Some(s) => Some(s@),
        None => None,
    }
}

impl View for TranscriptState {
    type V = StateModel;

    closed spec fn view(&self) -> StateModel {
        StateModel {
            transcript: self.transcript@,
            lines: rlines_view(self.lines@),
            starts: self.user_turn_line_starts@,
            checkpoints: checkpoints_view(self.checkpoints@),
            show_sidebar: self.show_sidebar,
            vw: self.viewport_width,
            vh: self.viewport_height,
            scroll: self.scroll as nat,
            cursor: self.cursor as nat,
            collapsed: self.collapsed@.to_set(),
            collapse_all: self.collapse_all,
            pending_g: self.pending_g,
            pending_m: self.pending_m,
            pending_quote: self.pending_quote,
            marks: self.marks@,
            marks_path: opt_chars(self.marks_path),
            save_requested: self.save_requested,
            live: self.live,
            follow: self.follow,
            needs_initial_bottom: self.needs_initial_bottom,
            search: self.search@,
            flash: opt_chars(self.flash),
            dirty: self.dirty,
            yank: opt_chars(self.yank),
        }
    }
}

fn clamp_value_exec(scroll: usize, cursor: usize, total: usize, height: u16) -> (r: usize)
    ensures
        r as nat == clamp_value(scroll as nat, cursor as nat, total as nat, height as nat),
{
    let h = height as usize;
    let max_scroll = if total > h {
        total - h
    } else {
        0
    };
    let sc1 = if scroll > max_scroll {
        max_scroll
    } else {
        scroll
    };
    if cursor < sc1 {
        cursor
    } else if cursor - sc1 >= h && h > 0 {
        cursor - h + 1
    } else {
        sc1
    }
}

fn relayout_cursor_exec(cursor: usize, n: usize, needs_bottom: bool) -> (r: (usize, bool))
    ensures
        (r.0 as nat, r.1) == relayout_cursor(cursor as nat, n as nat, needs_bottom),
{
    if needs_bottom && n > 0 {
        (n - 1, false)
    } else if cursor >= n {
        (if n > 0 {
            n - 1
        } else {
            0
        }, needs_bottom)
    } else {
        (cursor, needs_bottom)
    }
}

/// The match cursor after one step forward or back, wrapping around.
pub open spec fn step_cursor(c: nat, n: nat, forward: bool) -> nat {
    if forward {
        ((c + 1) % n) as nat
    } else if c == 0 {
        (n - 1) as nat
    } else {
        (c - 1) as nat
    }
}

fn next_cursor(cursor: usize, n: usize, forward: bool) -> (r: usize)
    requires
        cursor < n,
    ensures
        r as nat == step_cursor(cursor as nat, n as nat, forward),
        r < n,
{
    if forward {
        if cursor + 1 < n {
            proof {
                vstd::arithmetic::div_mod::lemma_small_mod((cursor + 1) as nat, n as nat);
            }
            cursor + 1
        } else {
            proof {
                vstd::arithmetic::div_mod::lemma_mod_self_0(n as int);
            }
            0
        }
    } else if cursor == 0 {
        n - 1
    } else {
        cursor - 1
    }
}

/// Flip membership of `id` in a duplicate-free list.
fn toggle_id(v: &mut Vec<BlockId>, id: BlockId)
    requires
        old(v)@.no_duplicates(),
    ensures
        final(v)@.no_duplicates(),
        final(v)@.to_set() == if old(v)@.to_set().contains(id) {
            old(v)@.to_set().remove(id)
        } else {
            old(v)@.to_set().insert(id)
        },
{
    let ghost s = v@;
    let mut i: usize = 0;
    while i < v.len()
        invariant
            i <= v@.len(),
            v@ == s,
            old(v)@ == s,
            s.no_duplicates(),
            forall|j: int| 0 <= j < i ==> s[j] != id,
        decreases v.len() - i,
    {
        let (a, b) = v[i];
        if a == id.0 && b == id.1 {
            v.remove(i);
            proof {
                assert(s[i as int] == id);
                let t = v@;
                assert(t =~= s.remove(i as int));
                assert forall|a: int, b: int| 0 <= a < t.len() && 0 <= b < t.len() && a != b implies t[a] != t[b] by {
                    let a2 = if a < i { a } else { a + 1 };
                    let b2 = if b < i { b } else { b + 1 };
                    assert(t[a] == s[a2] && t[b] == s[b2]);
                    assert(a2 != b2);
                }
                assert forall|x: BlockId| #[trigger] t.to_set().contains(x) == s.to_set().remove(
                    id,
                ).contains(x) by {
                    if t.contains(x) {
                        let j = choose|j: int| 0 <= j < t.len() && t[j] == x;
                        let j2 = if j < i { j } else { j + 1 };
                        assert(s[j2] == x);
                        assert(j2 != i);
                        assert(s[j2] != s[i as int]);
                        assert(s.contains(x));
                    }
                    if s.contains(x) && x != id {
                        let j = choose|j: int| 0 <= j < s.len() && s[j] == x;
                        assert(j != i);
                        if j < i {
                            assert(t[j] == x);
                        } else {
                            assert(t[j - 1] == x);
                        }
                    }
                }
                assert(t.to_set() =~= s.to_set().remove(id));
                assert(s.to_set().contains(id)) by {
                    assert(s.contains(id));
                }
                assert(old(v)@ == s);
                assert(v@.to_set() == s.to_set().remove(id));
            }
            return;
        }
        i += 1;
    }
    v.push(id);
    proof {
        let t = v@;
        assert(!s.contains(id));
        assert forall|a: int, b: int| 0 <= a < t.len() && 0 <= b < t.len() && a != b implies t[a] != t[b] by {
            if a < s.len() && b < s.len() {
                assert(t[a] == s[a] && t[b] == s[b]);
            } else if a < s.len() {
                assert(t[a] == s[a]);
                assert(s[a] != id);
            } else {
                assert(t[b] == s[b]);
                assert(s[b] != id);
            }
        }
        assert(t.to_set() =~= s.to_set().insert(id)) by {
            assert forall|x: BlockId| #[trigger] t.to_set().contains(x) == s.to_set().insert(
                id,
            ).contains(x) by {
                if t.contains(x) {
                    let j = choose|j: int| 0 <= j < t.len() && t[j] == x;
                    if j < s.len() {
                        assert(s[j] == x);
                    }
                }
                if s.contains(x) {
                    let j = choose|j: int| 0 <= j < s.len() && s[j] == x;
                    assert(t[j] == x);
                }
                if x == id {
                    assert(t[s.len() as int] == id);
                }
            }
        }
    }
}

impl TranscriptState {
    pub closed spec fn wf(&self) -> bool {
        &&& state_wf(self@)
        &&& self.collapsed@.no_duplicates()
    }

    /// A well-formed viewer's model is well formed.
    pub proof fn lemma_wf_model(&self)
        requires
            self.wf(),
        ensures
            state_wf(self@),
    {
    }

    /// A viewer over `transcript`. The cache is empty until the first
    /// [`set_viewport`](Self::set_viewport).
    pub fn new(transcript: Transcript) -> (s: TranscriptState)
        ensures
            s.wf(),
            s@ == initial_state(transcript@),
    {
        let s = TranscriptState {
            transcript,
            lines: Vec::new(),
            user_turn_line_starts: Vec::new(),
            checkpoints: Vec::new(),
            show_sidebar: false,
            viewport_width: 0,
            viewport_height: 0,
            scroll: 0,
            cursor: 0,
            collapsed: Vec::new(),
            collapse_all: CollapseAll::Off,
            pending_g: false,
            pending_m: false,
            pending_quote: false,
            marks: SessionMarks::new(),
            marks_path: None,
            save_requested: false,
            live: false,
            follow: false,
            needs_initial_bottom: false,
            search: SearchMode::new(),
            flash: None,
            dirty: true,
            yank: None,
        };
        proof {
            assert(s@.lines =~= Seq::<RenderedLineModel>::empty());
            assert(s@.checkpoints =~= Seq::<CheckpointModel>::empty());
            assert(s@.collapsed =~= Set::<BlockId>::empty());
        }
        s
    }

    /// A viewer for a session that is still being written: follows new
    /// events and opens at the bottom once the first layout is known.
    pub fn new_live(transcript: Transcript) -> (s: TranscriptState)
        ensures
            s.wf(),
            s@ == (StateModel {
                live: true,
                follow: true,
                needs_initial_bottom: true,
                ..initial_state(transcript@)
            }),
    {
        let mut s = TranscriptState::new(transcript);
        s.live = true;
        s.follow = true;
        s.needs_initial_bottom = true;
        s
    }

    pub fn is_live(&self) -> (b: bool)
        ensures
            b == self@.live,
    {
        self.live
    }

    pub fn is_following(&self) -> (b: bool)
        ensures
            b == self@.follow,
    {
        self.follow
    }

    pub fn transcript(&self) -> (t: &Transcript)
        ensures
            t@ == self@.transcript,
    {
        &self.transcript
    }

    pub fn lines(&self) -> (r: &[RenderedLine])
        ensures
            rlines_view(r@) == self@.lines,
    {
        self.lines.as_slice()
    }

    pub fn checkpoints(&self) -> (r: &[Checkpoint])
        ensures
            checkpoints_view(r@) == self@.checkpoints,
    {
        self.checkpoints.as_slice()
    }

    pub fn scroll(&self) -> (r: usize)
        ensures
            r as nat == self@.scroll,
    {
        self.scroll
    }

    pub fn cursor(&self) -> (r: usize)
        ensures
            r as nat == self@.cursor,
    {
        self.cursor
    }

    pub fn viewport_height(&self) -> (r: u16)
        ensures
            r == self@.vh,
    {
        self.viewport_height
    }

    /// Message of the line under the cursor, or 0 with no lines.
    pub fn current_msg_index(&self) -> (r: usize)
        ensures
            r as nat == current_msg_index(self@),
    {
        if self.cursor < self.lines.len() {
            self.lines[self.cursor].msg_index
        } else {
            0
        }
    }

    /// The individually collapsed blocks.
    pub fn collapsed(&self) -> (r: &Vec<BlockId>)
        ensures
            r@.to_set() == self@.collapsed,
    {
        &self.collapsed
    }

    pub fn collapse_all(&self) -> (r: CollapseAll)
        ensures
            r == self@.collapse_all,
    {
        self.collapse_all
    }

    pub fn flash(&self) -> (r: Option<&str>)
        ensures
            match self@.flash {
                Some(f) => r matches Some(x) && x@ == f,
                None => r is None,
            },
    {
        match &self.flash {
            Some(f) => Some(f.as_str()),
            None => None,
        }
    }

    pub fn set_flash(&mut self, msg: &str)
        requires
            old(self).wf(),
        ensures
            final(self).wf(),
            final(self)@ == with_flash(old(self)@, msg@),
    {
        self.flash = Some(owned(msg));
    }

    pub fn clear_flash(&mut self)
        requires
            old(self).wf(),
        ensures
            final(self).wf(),
            final(self)@ == (StateModel { flash: None, ..old(self)@ }),
    {
        self.flash = None;
    }

    pub fn show_sidebar(&self) -> (b: bool)
        ensures
            b == self@.show_sidebar,
    {
        self.show_sidebar
    }

    pub fn toggle_sidebar(&mut self)
        requires
            old(self).wf(),
        ensures
            final(self).wf(),
            final(self)@ == (StateModel { show_sidebar: !old(self)@.show_sidebar, ..old(self)@ }),
    {
        self.show_sidebar = !self.show_sidebar;
    }

    pub fn pending_g(&self) -> (b: bool)
        ensures
            b == self@.pending_g,
    {
        self.pending_g
    }

    pub fn set_pending_g(&mut self, pending: bool)
        requires
            old(self).wf(),
        ensures
            final(self).wf(),
            final(self)@ == (StateModel { pending_g: pending, ..old(self)@ }),
    {
        self.pending_g = pending;
    }

    pub fn pending_m(&self) -> (b: bool)
        ensures
            b == self@.pending_m,
    {
        self.pending_m
    }

    pub fn set_pending_m(&mut self, pending: bool)
        requires
            old(self).wf(),
        ensures
            final(self).wf(),
            final(self)@ == (StateModel { pending_m: pending, ..old(self)@ }),
    {
        self.pending_m = pending;
    }

    pub fn pending_quote(&self) -> (b: bool)
        ensures
            b == self@.pending_quote,
    {
        self.pending_quote
    }

    pub fn set_pending_quote(&mut self, pending: bool)
        requires
            old(self).wf(),
        ensures
            final(self).wf(),
            final(self)@ == (StateModel { pending_quote: pending, ..old(self)@ }),
    {
        self.pending_quote = pending;
    }

    pub fn marks(&self) -> (r: &SessionMarks)
        ensures
            r@ == self@.marks,
    {
        &self.marks
    }

    pub fn search_mode(&self) -> (r: &SearchMode)
        ensures
            r@ == self@.search,
    {
        &self.search
    }

    // --- layout -------------------------------------------------------

    fn clamp_scroll(&mut self)
        ensures
            final(self)@ == clamp_scroll(old(self)@),
            final(self).collapsed@ == old(self).collapsed@,
    {
        let v = clamp_value_exec(self.scroll, self.cursor, self.lines.len(), self.viewport_height);
        self.scroll = v;
    }

    fn relayout(&mut self)
        requires
            search_mode_wf(old(self)@.search),
            old(self).collapsed@.no_duplicates(),
            !old(self)@.live ==> !old(self)@.follow,
        ensures
            final(self)@ == relayout(old(self)@),
            final(self).wf(),
            final(self).collapsed@ == old(self).collapsed@,
    {
        let out = {
            let ctx = CollapseContext { collapsed: &self.collapsed, collapse_all: self.collapse_all };
            build(&self.transcript, self.viewport_width, &ctx)
        };
        let n = out.lines.len();
        let (c, nb) = relayout_cursor_exec(self.cursor, n, self.needs_initial_bottom);
        let LayoutOutput { lines, user_turn_line_starts, checkpoints } = out;
        self.lines = lines;
        self.user_turn_line_starts = user_turn_line_starts;
        self.checkpoints = checkpoints;
        self.dirty = false;
        self.cursor = c;
        self.needs_initial_bottom = nb;
        self.clamp_scroll();
    }

    /// Tell the state the size of the body area. A new width rebuilds the
    /// cache; the height only moves the scroll position.
    #[verifier::spinoff_prover]
    #[verifier::rlimit(40)]
    pub fn set_viewport(&mut self, width: u16, height: u16)
        requires
            old(self).wf(),
        ensures
            final(self).wf(),
            final(self)@ == set_viewport(old(self)@, width, height),
    {
        if width != self.viewport_width {
            self.viewport_width = width;
            self.dirty = true;
        }
        self.viewport_height = height;
        if self.dirty {
            self.relayout();
        }
        self.clamp_scroll();
    }

    // --- navigation ---------------------------------------------------

    fn disable_follow_on_manual_scroll(&mut self)
        ensures
            final(self)@ == disable_follow(old(self)@),
            final(self).collapsed@ == old(self).collapsed@,
    {
        if self.follow {
            self.follow = false;
            self.flash = Some(owned("paused (press F or G to follow)"));
        }
    }

    pub fn move_down(&mut self, n: usize)
        requires
            old(self).wf(),
        ensures
            final(self).wf(),
            final(self)@ == move_down(old(self)@, n as nat),
    {
        self.disable_follow_on_manual_scroll();
        let len = self.lines.len();
        let max = if len > 0 {
            len - 1
        } else {
            0
        };
        let target = self.cursor.saturating_add(n);
        self.cursor = if target < max {
            target
        } else {
            max
        };
        self.clamp_scroll();
    }

    pub fn move_up(&mut self, n: usize)
        requires
            old(self).wf(),
        ensures
            final(self).wf(),
            final(self)@ == move_up(old(self)@, n as nat),
    {
        self.disable_follow_on_manual_scroll();
        self.cursor = self.cursor.saturating_sub(n);
        self.clamp_scroll();
    }

    fn half_page(&self) -> (n: usize)
        ensures
            n as nat == half_page(self@),
    {
        let h = (self.viewport_height / 2) as usize;
        if h < 1 {
            1
        } else {
            h
        }
    }

    pub fn half_page_down(&mut self)
        requires
            old(self).wf(),
        ensures
            final(self).wf(),
            final(self)@ == move_down(old(self)@, half_page(old(self)@)),
    {
        let n = self.half_page();
        self.move_down(n);
    }

    pub fn half_page_up(&mut self)
        requires
            old(self).wf(),
        ensures
            final(self).wf(),
            final(self)@ == move_up(old(self)@, half_page(old(self)@)),
    {
        let n = self.half_page();
        self.move_up(n);
    }

    pub fn jump_top(&mut self)
        requires
            old(self).wf(),
        ensures
            final(self).wf(),
            final(self)@ == jump_top(old(self)@),
    {
        self.disable_follow_on_manual_scroll();
        self.cursor = 0;
        self.scroll = 0;
    }

    /// Go to the last line; in a live session this also resumes following.
    pub fn jump_bottom(&mut self)
        requires
            old(self).wf(),
        ensures
            final(self).wf(),
            final(self)@ == jump_bottom(old(self)@),
    {
        let len = self.lines.len();
        self.cursor = if len > 0 {
            len - 1
        } else {
            0
        };
        self.clamp_scroll();
        if self.live {
            self.follow = true;
        }
    }

    fn jump_to_line(&mut self, target: Option<usize>, none_msg: &str)
        requires
            old(self).wf(),
            target matches Some(t) ==> t < old(self)@.lines.len(),
        ensures
            final(self).wf(),
            final(self)@ == jump_to(
                old(self)@,
                match target {
                    Some(t) => Some(t as nat),
                    None => None,
                },
                none_msg@,
            ),
    {
        match target {
            Some(t) => {
                self.cursor = t;
                self.clamp_scroll();
            },
            None => {
                self.flash = Some(owned(none_msg));
            },
        }
    }

    /// `}`: the next user turn below the cursor.
    pub fn jump_next_user_turn(&mut self)
        requires
            old(self).wf(),
        ensures
            final(self).wf(),
            final(self)@ == next_user_turn(old(self)@),
    {
        self.disable_follow_on_manual_scroll();
        let ghost s1 = self@;
        let ghost v = starts_nat(s1);
        let mut i: usize = 0;
        proof {
            assert(v.skip(0) =~= v);
            lemma_starts_in_cache(s1);
        }
        while i < self.user_turn_line_starts.len() && self.user_turn_line_starts[i] <= self.cursor
            invariant
                i <= self.user_turn_line_starts@.len(),
                v == starts_nat(self@),
                self@ == s1,
                first_after(v, s1.cursor) == first_after(v.skip(i as int), s1.cursor),
            decreases self.user_turn_line_starts.len() - i,
        {
            proof {
                assert(v.skip(i as int)[0] == v[i as int]);
                assert(v.skip(i as int).drop_first() =~= v.skip(i + 1));
            }
            i += 1;
        }
        let found = if i < self.user_turn_line_starts.len() {
            proof {
                assert(v.skip(i as int)[0] == v[i as int]);
            }
            Some(self.user_turn_line_starts[i])
        } else {
            proof {
                assert(v.skip(i as int) =~= Seq::<nat>::empty());
            }
            None
        };
        self.jump_to_line(found, "no more user turns");
    }
    /// `{`: the previous user turn above the cursor.
    pub fn jump_prev_user_turn(&mut self)
        requires
            old(self).wf(),
        ensures
            final(self).wf(),
            final(self)@ == prev_user_turn(old(self)@),
    {
        self.disable_follow_on_manual_scroll();
        let ghost s1 = self@;
        let ghost v = starts_nat(s1);
        proof {
            lemma_starts_in_cache(s1);
        }
        let mut i: usize = self.user_turn_line_starts.len();
        assert(v.take(v.len() as int) =~= v);
        while i > 0 && self.user_turn_line_starts[i - 1] >= self.cursor
            invariant
                i <= self.user_turn_line_starts@.len(),
                v == starts_nat(self@),
                self@ == s1,
                last_before(v, s1.cursor) == last_before(v.take(i as int), s1.cursor),
            decreases i,
        {
            proof {
                assert(v.take(i as int).last() == v[i - 1]);
                assert(v.take(i as int).drop_last() =~= v.take(i - 1));
            }
            i -= 1;
        }
        let found = if i > 0 {
            proof {
                assert(v.take(i as int).last() == v[i - 1]);
            }
            Some(self.user_turn_line_starts[i - 1])
        } else {
            proof {
                assert(v.take(0) =~= Seq::<nat>::empty());
            }
            None
        };
        self.jump_to_line(found, "no previous user turns");
    }

    /// `]`: the next checkpoint below the cursor.
    pub fn jump_next_checkpoint(&mut self)
        requires
            old(self).wf(),
        ensures
            final(self).wf(),
            final(self)@ == next_checkpoint(old(self)@),
    {
        self.disable_follow_on_manual_scroll();
        let ghost s1 = self@;
        let ghost v = checkpoint_lines(s1);
        let mut i: usize = 0;
        proof {
            assert(v.skip(0) =~= v);
            lemma_starts_in_cache(s1);
        }
        while i < self.checkpoints.len() && self.checkpoints[i].line <= self.cursor
            invariant
                i <= self.checkpoints@.len(),
                v == checkpoint_lines(self@),
                self@ == s1,
                first_after(v, s1.cursor) == first_after(v.skip(i as int), s1.cursor),
            decreases self.checkpoints.len() - i,
        {
            proof {
                assert(v.skip(i as int)[0] == v[i as int]);
                assert(v.skip(i as int).drop_first() =~= v.skip(i + 1));
            }
            i += 1;
        }
        let found = if i < self.checkpoints.len() {
            proof {
                assert(v.skip(i as int)[0] == v[i as int]);
            }
            Some(self.checkpoints[i].line)
        } else {
            proof {
                assert(v.skip(i as int) =~= Seq::<nat>::empty());
            }
            None
        };
        self.jump_to_line(found, "no more checkpoints");
    }

    /// `[`: the previous checkpoint above the cursor.
    pub fn jump_prev_checkpoint(&mut self)
        requires
            old(self).wf(),
        ensures
            final(self).wf(),
            final(self)@ == prev_checkpoint(old(self)@),
    {
        self.disable_follow_on_manual_scroll();
        let ghost s1 = self@;
        let ghost v = checkpoint_lines(s1);
        proof {
            lemma_starts_in_cache(s1);
        }
        let mut i: usize = self.checkpoints.len();
        assert(v.take(v.len() as int) =~= v);
        while i > 0 && self.checkpoints[i - 1].line >= self.cursor
            invariant
                i <= self.checkpoints@.len(),
                v == checkpoint_lines(self@),
                self@ == s1,
                last_before(v, s1.cursor) == last_before(v.take(i as int), s1.cursor),
            decreases i,
        {
            proof {
                assert(v.take(i as int).last() == v[i - 1]);
                assert(v.take(i as int).drop_last() =~= v.take(i - 1));
            }
            i -= 1;
        }
        let found = if i > 0 {
            proof {
                assert(v.take(i as int).last() == v[i - 1]);
            }
            Some(self.checkpoints[i - 1].line)
        } else {
            proof {
                assert(v.take(0) =~= Seq::<nat>::empty());
            }
            None
        };
        self.jump_to_line(found, "no previous checkpoints");
    }

    /// The checkpoint the cursor is in: the last one at or above it.
    pub fn active_checkpoint_index(&self) -> (r: Option<usize>)
        ensures
            match r {
                Some(i) => active_checkpoint(self@.checkpoints, self@.cursor) == Some(i as nat),
                None => active_checkpoint(self@.checkpoints, self@.cursor) is None,
            },
    {
        let ghost v = self@.checkpoints;
        let mut i: usize = self.checkpoints.len();
        assert(v.take(v.len() as int) =~= v);
        while i > 0 && self.checkpoints[i - 1].line > self.cursor
            invariant
                i <= self.checkpoints@.len(),
                v == self@.checkpoints,
                active_checkpoint(v, self@.cursor) == active_checkpoint(v.take(i as int), self@.cursor),
            decreases i,
        {
            proof {
                assert(v.take(i as int).last() == v[i - 1]);
                assert(v.take(i as int).drop_last() =~= v.take(i - 1));
            }
            i -= 1;
        }
        if i > 0 {
            assert(v.take(i as int).last() == v[i - 1]);
            Some(i - 1)
        } else {
            assert(v.take(0) =~= Seq::<CheckpointModel>::empty());
            None
        }
    }

    // --- collapse -----------------------------------------------------

    fn block_under_cursor(&self) -> (r: Option<BlockId>)
        ensures
            r == (if self@.cursor < self@.lines.len() {
                line_block_id(self@.lines[self@.cursor as int])
            } else {
                None
            }),
    {
        if self.cursor < self.lines.len() {
            self.lines[self.cursor].block_id()
        } else {
            None
        }
    }

    fn collapsible_at(&self, id: BlockId) -> (r: Option<bool>)
        ensures
            r == match block_at(self@, id) {
                Some(b) => Some(is_collapsible(b)),
                None => None,
            },
    {
        let (m, b) = id;
        if m < self.transcript.messages.len() && b < self.transcript.messages[m].blocks.len() {
            let r = match &self.transcript.messages[m].blocks[b] {
                Block::Thinking(_) => true,
                Block::ToolCall { .. } => true,
                Block::ToolResult { .. } => true,
                _ => false,
            };
            Some(r)
        } else {
            None
        }
    }

    /// `t`: fold or unfold the block under the cursor. Only thinking,
    /// tool calls and tool results fold.
    pub fn toggle_current_block(&mut self)
        requires
            old(self).wf(),
        ensures
            final(self).wf(),
            final(self)@ == toggle_block(old(self)@),
    {
        let id = match self.block_under_cursor() {
            Some(id) => id,
            None => {
                self.flash = Some(owned("no block under cursor"));
                return;
            },
        };
        match self.collapsible_at(id) {
            None => {
                self.flash = Some(owned("no block under cursor"));
            },
            Some(false) => {
                self.flash = Some(owned("not collapsible"));
            },
            Some(true) => {
                toggle_id(&mut self.collapsed, id);
                self.dirty = true;
                self.relayout();
            },
        }
    }

    /// `T`: cycle collapse-all, dropping individual folds.
    pub fn toggle_collapse_all(&mut self)
        requires
            old(self).wf(),
        ensures
            final(self).wf(),
            final(self)@ == toggle_collapse_all(old(self)@),
    {
        self.collapsed = Vec::new();
        self.collapse_all = match self.collapse_all {
            CollapseAll::Off => CollapseAll::ToolsAndThinking,
            CollapseAll::ToolsAndThinking => CollapseAll::Off,
        };
        self.dirty = true;
        proof {
            assert(self.collapsed@.to_set() =~= Set::<BlockId>::empty());
        }
        self.relayout();
        match self.collapse_all {
            CollapseAll::Off => {
                self.flash = Some(owned("expanded all"));
            },
            CollapseAll::ToolsAndThinking => {
                self.flash = Some(owned("collapsed tools & thinking"));
            },
        }
    }

    // --- live tail ----------------------------------------------------

    /// `F`: switch following on or off; only in a live session.
    pub fn toggle_follow(&mut self)
        requires
            old(self).wf(),
        ensures
            final(self).wf(),
            final(self)@ == toggle_follow(old(self)@),
    {
        if !self.live {
            return;
        }
        if !self.follow {
            self.follow = true;
            self.jump_bottom();
            self.flash = Some(owned("follow: on"));
        } else {
            self.follow = false;
            self.flash = Some(owned("follow: off"));
        }
    }

    /// Lower new events into the transcript. When messages were added the
    /// cache is rebuilt, and a following viewer moves to the bottom.
    pub fn append_events(&mut self, events: Vec<SessionEvent>)
        requires
            old(self).wf(),
        ensures
            final(self).wf(),
            final(self)@ == append_events(old(self)@, events@),
    {
        let before = self.transcript.messages.len();
        let ghost s0 = self@;
        self.transcript.append_events(events);
        if self.transcript.messages.len() == before {
            proof {
                lemma_apply_events_prefix(s0.transcript, events@);
                assert(self@.transcript.messages =~= s0.transcript.messages);
            }
            return;
        }
        self.dirty = true;
        self.relayout();
        if self.follow {
            self.jump_bottom();
        }
    }

    /// Replace the transcript (after the file was rewritten). Folds and
    /// marks refer to positions, so both are dropped.
    pub fn reset_transcript(&mut self, transcript: Transcript)
        requires
            old(self).wf(),
        ensures
            final(self).wf(),
            final(self)@ == reset_transcript(old(self)@, transcript@),
    {
        self.transcript = transcript;
        self.collapsed = Vec::new();
        self.marks.clear();
        self.dirty = true;
        proof {
            assert(self.collapsed@.to_set() =~= Set::<BlockId>::empty());
        }
        self.relayout();
        if self.follow {
            self.jump_bottom();
        }
    }

    // --- marks ------------------------------------------------------

    /// Use the marks file at `path`: take this session's marks from
    /// `file` (its contents as read) and write future marks back there.
    pub fn attach_marks_file(&mut self, path: String, file: &MarksFile)
        requires
            old(self).wf(),
        ensures
            final(self).wf(),
            final(self)@ == attach_marks(old(self)@, path@, file@),
    {
        match file.session(self.transcript.session_id.as_str()) {
            Some(m) => {
                self.marks = m.clone_marks();
            },
            None => {},
        }
        self.marks_path = Some(path);
    }

    fn char_flash(&mut self, head: &str, c: char, tail: &str)
        requires
            old(self).wf(),
        ensures
            final(self).wf(),
            final(self)@ == with_flash(old(self)@, head@ + seq![c] + tail@),
    {
        let mut f = owned(head);
        string_push(&mut f, c);
        push_str(&mut f, tail);
        assert(f@ =~= head@ + seq![c] + tail@);
        self.flash = Some(f);
    }

    /// `m<letter>`: mark the cursor's position under a lowercase letter.
    pub fn set_mark(&mut self, letter: char)
        requires
            old(self).wf(),
        ensures
            final(self).wf(),
            final(self)@ == set_mark(old(self)@, letter),
    {
        if !('a' <= letter && letter <= 'z') {
            self.char_flash("bad mark '", letter, "'");
            return;
        }
        if self.cursor >= self.lines.len() {
            self.flash = Some(owned("nothing to mark"));
            return;
        }
        let mark = Mark {
            msg_index: self.lines[self.cursor].msg_index,
            block_index: self.lines[self.cursor].block_index,
        };
        self.marks.insert(letter, mark);
        self.char_flash("mark ", letter, " set");
        if self.marks_path.is_some() {
            self.save_requested = true;
        }
    }

    fn find_line(&self, m: Mark, exact: bool) -> (r: Option<usize>)
        ensures
            match r {
                Some(i) => first_line_where(self@.lines, m, exact) == Some(i as nat),
                None => first_line_where(self@.lines, m, exact) is None,
            },
    {
        let ghost v = self@.lines;
        let mut i: usize = 0;
        assert(v.skip(0) =~= v);
        while i < self.lines.len() && !(self.lines[i].msg_index == m.msg_index && (!exact
            || self.lines[i].block_index == m.block_index))
            invariant
                i <= self.lines@.len(),
                v == self@.lines,
                first_line_where(v, m, exact) == shift(
                    first_line_where(v.skip(i as int), m, exact),
                    i as nat,
                ),
            decreases self.lines.len() - i,
        {
            proof {
                let w = v.skip(i as int);
                assert(w[0] == v[i as int]);
                assert(w.drop_first() =~= v.skip(i + 1));
            }
            i += 1;
        }
        if i < self.lines.len() {
            assert(v.skip(i as int)[0] == v[i as int]);
            Some(i)
        } else {
            assert(v.skip(i as int) =~= Seq::<RenderedLineModel>::empty());
            None
        }
    }

    /// `'<letter>`: jump to a mark: its exact line when it is still
    /// shown, else the first line of its message.
    pub fn jump_to_mark(&mut self, letter: char)
        requires
            old(self).wf(),
        ensures
            final(self).wf(),
            final(self)@ == jump_to_mark(old(self)@, letter),
    {
        if !('a' <= letter && letter <= 'z') {
            self.char_flash("bad mark '", letter, "'");
            return;
        }
        let mark = match self.marks.get(&letter) {
            Some(m) => *m,
            None => {
                self.char_flash("no mark ", letter, "");
                proof {
                    reveal_strlit("");
                    assert(seq![letter] + ""@ =~= seq![letter]);
                    assert("no mark "@ + seq![letter] + ""@ =~= "no mark "@ + seq![letter]);
                }
                return;
            },
        };
        let target = self.mark_line(mark);
        match target {
            Some(line) => {
                self.cursor = line;
                self.clamp_scroll();
                self.char_flash("'", letter, "");
                proof {
                    reveal_strlit("");
                    assert("'"@ + seq![letter] + ""@ =~= "'"@ + seq![letter]);
                }
            },
            None => {
                self.char_flash("mark ", letter, " out of range");
            },
        }
    }

    fn mark_line(&self, mark: Mark) -> (r: Option<usize>)
        ensures
            match r {
                Some(i) => mark_target(self@.lines, mark) == Some(i as nat) && i < self@.lines.len(),
                None => mark_target(self@.lines, mark) is None,
            },
    {
        proof {
            lemma_first_line_in_range(self@.lines, mark, true);
            lemma_first_line_in_range(self@.lines, mark, false);
        }
        match self.find_line(mark, true) {
            Some(i) => Some(i),
            None => self.find_line(mark, false),
        }
    }

    /// A pending write of this session's marks, if a mark changed since
    /// the last one.
    pub fn take_marks_save(&mut self) -> (r: Option<MarksSave>)
        requires
            old(self).wf(),
        ensures
            final(self).wf(),
            final(self)@ == (StateModel { save_requested: false, ..old(self)@ }),
            match r {
                Some(req) => old(self)@.save_requested && old(self)@.marks_path == Some(req.path@)
                    && req.session_id@ == old(self)@.transcript.session_id && req.marks@ == old(
                    self,
                )@.marks,
                None => !(old(self)@.save_requested && old(self)@.marks_path is Some),
            },
    {
        let requested = self.save_requested;
        self.save_requested = false;
        if !requested {
            return None;
        }
        match &self.marks_path {
            Some(p) => Some(
                MarksSave {
                    path: p.clone(),
                    session_id: self.transcript.session_id.clone(),
                    marks: self.marks.clone_marks(),
                },
            ),
            None => None,
        }
    }

    // --- search -----------------------------------------------------

    /// `/`: start typing a query.
    pub fn begin_search(&mut self)
        requires
            old(self).wf(),
        ensures
            final(self).wf(),
            final(self)@ == begin_search_spec(old(self)@),
    {
        self.search = SearchMode::Typing { query: String::new() };
    }

    /// Drop the search and its highlights.
    pub fn cancel_search(&mut self)
        requires
            old(self).wf(),
        ensures
            final(self).wf(),
            final(self)@ == cancel_search_spec(old(self)@),
    {
        self.search = SearchMode::Idle;
    }

    pub fn push_search_char(&mut self, ch: char)
        requires
            old(self).wf(),
        ensures
            final(self).wf(),
            final(self)@ == push_search_char(old(self)@, ch),
    {
        let mut m = SearchMode::Idle;
        std::mem::swap(&mut m, &mut self.search);
        match m {
            SearchMode::Typing { mut query } => {
                string_push(&mut query, ch);
                self.search = SearchMode::Typing { query };
            },
            other => {
                self.search = other;
            },
        }
    }

    pub fn pop_search_char(&mut self)
        requires
            old(self).wf(),
        ensures
            final(self).wf(),
            final(self)@ == pop_search_char(old(self)@),
    {
        let mut m = SearchMode::Idle;
        std::mem::swap(&mut m, &mut self.search);
        match m {
            SearchMode::Typing { query } => {
                let cs = chars_of(query.as_str());
                if cs.len() > 0 {
                    let q = string_from_range(&cs, 0, cs.len() - 1);
                    assert(q@ =~= query@.drop_last());
                    self.search = SearchMode::Typing { query: q };
                } else {
                    self.search = SearchMode::Typing { query };
                }
            },
            other => {
                self.search = other;
            },
        }
    }

    fn jump_to_match_line(&mut self, m: SearchMatch)
        requires
            old(self).wf(),
        ensures
            final(self).wf(),
            final(self)@ == jump_to_match_line(old(self)@, m),
    {
        if m.line < self.lines.len() {
            self.cursor = m.line;
            self.clamp_scroll();
        }
    }

    fn position_flash(&mut self, i: usize, total: usize)
        requires
            old(self).wf(),
        ensures
            final(self).wf(),
            final(self)@ == with_flash(old(self)@, position_msg(i as nat, total as nat)),
    {
        let mut f = usize_to_string(i);
        push_str(&mut f, "/");
        let t = usize_to_string(total);
        push_str(&mut f, t.as_str());
        self.flash = Some(f);
    }

    fn search_lines_exec(&self, q: &str) -> (r: Vec<SearchMatch>)
        ensures
            r@ == search_lines(self@.lines, q@),
    {
        let index = SearchIndex::build(self.lines.as_slice());
        proof {
            let ls = self@.lines;
            assert(index@.starts =~= index_starts(ls));
        }
        index.find_all(q)
    }

    /// Enter: run the typed query. The cursor goes to the first match;
    /// an empty query or one without matches ends the search.
    pub fn commit_search(&mut self)
        requires
            old(self).wf(),
        ensures
            final(self).wf(),
            final(self)@ == commit_search(old(self)@),
    {
        let q = match &self.search {
            SearchMode::Typing { query } => query.clone(),
            _ => {
                return;
            },
        };
        if q.as_str().is_empty() {
            self.search = SearchMode::Idle;
            return;
        }
        let matches = self.search_lines_exec(q.as_str());
        if matches.len() == 0 {
            self.search = SearchMode::Idle;
            self.no_match_flash(&q);
            return;
        }
        self.activate_search(q, matches, 0);
    }

    fn no_match_flash(&mut self, q: &String)
        requires
            old(self).wf(),
        ensures
            final(self).wf(),
            final(self)@ == with_flash(old(self)@, "no match for \""@ + q@ + "\""@),
    {
        let mut f = owned("no match for \"");
        push_str(&mut f, q.as_str());
        push_str(&mut f, "\"");
        self.flash = Some(f);
    }

    fn activate_search(&mut self, q: String, matches: Vec<SearchMatch>, c: usize)
        requires
            old(self).wf(),
            c < matches@.len(),
        ensures
            final(self).wf(),
            final(self)@ == with_flash(
                jump_to_match_line(
                    StateModel {
                        search: SearchModeModel::Active(q@, matches@, c),
                        ..old(self)@
                    },
                    matches@[c as int],
                ),
                position_msg(c as nat + 1, matches@.len()),
            ),
    {
        let target = matches[c];
        let total = matches.len();
        self.search = SearchMode::Active { query: q, matches, cursor: c };
        self.jump_to_match_line(target);
        self.position_flash(c + 1, total);
    }

    #[verifier::spinoff_prover]
    #[verifier::rlimit(100)]
    fn step_match(&mut self, forward: bool)
        requires
            old(self).wf(),
        ensures
            final(self).wf(),
            final(self)@ == step_match(old(self)@, forward),
    {
        let (n, cur) = match &self.search {
            SearchMode::Active { matches, cursor, .. } => (matches.len(), *cursor),
            _ => {
                return;
            },
        };
        if n == 0 {
            return;
        }
        let c2 = next_cursor(cur, n, forward);
        let target = self.set_match_cursor(c2);
        self.jump_to_match_line(target);
        self.position_flash(c2 + 1, n);
    }

    fn set_match_cursor(&mut self, c: usize) -> (r: SearchMatch)
        requires
            old(self).wf(),
            old(self)@.search matches SearchModeModel::Active(_, ms, _) && c < ms.len(),
        ensures
            final(self).wf(),
            match old(self)@.search {
                SearchModeModel::Active(q, ms, _) => final(self)@ == (StateModel {
                    search: SearchModeModel::Active(q, ms, c),
                    ..old(self)@
                }) && r == ms[c as int],
                _ => false,
            },
    {
        match &mut self.search {
            SearchMode::Active { matches, cursor, .. } => {
                *cursor = c;
                matches[c]
            },
            _ => {
                assert(false);
                SearchMatch { line: 0, byte_start: 0, byte_end: 0 }
            },
        }
    }

    /// `n`: the next match, wrapping to the first.
    pub fn next_match(&mut self)
        requires
            old(self).wf(),
        ensures
            final(self).wf(),
            final(self)@ == step_match(old(self)@, true),
    {
        self.step_match(true);
    }

    /// `N`: the previous match, wrapping to the last.
    pub fn prev_match(&mut self)
        requires
            old(self).wf(),
        ensures
            final(self).wf(),
            final(self)@ == step_match(old(self)@, false),
    {
        self.step_match(false);
    }

    // --- yank ---------------------------------------------------------

    /// `y`: stage the plain text of the message under the cursor for the
    /// clipboard.
    pub fn request_yank(&mut self)
        requires
            old(self).wf(),
        ensures
            final(self).wf(),
            final(self)@ == request_yank(old(self)@),
    {
        let i = self.current_msg_index();
        if i < self.transcript.messages.len() {
            let text = format_message(&self.transcript.messages[i]);
            self.yank = Some(text);
        } else {
            self.flash = Some(owned("nothing to yank"));
        }
    }

    /// The staged clipboard text, if any; it is handed out once.
    pub fn take_yank(&mut self) -> (r: Option<String>)
        requires
            old(self).wf(),
        ensures
            final(self).wf(),
            final(self)@ == (StateModel { yank: None, ..old(self)@ }),
            opt_chars(r) == old(self)@.yank,
    {
        let mut y: Option<String> = None;
        std::mem::swap(&mut y, &mut self.yank);
        y
    }

    /// Report how a copy of `bytes` bytes went: the transport used, or
    /// `None` when it failed.
    pub fn finish_yank(&mut self, bytes: usize, outcome: Option<CopyMethod>)
        requires
            old(self).wf(),
        ensures
            final(self).wf(),
            final(self)@ == with_flash(old(self)@, yank_flash(bytes as nat, outcome)),
    {
        self.flash = Some(yank_flash_text(bytes, outcome));
    }

}

/// Every user-turn start and checkpoint of a well-formed state is a line
/// of its cache.
pub proof fn lemma_starts_in_cache(s: StateModel)
    requires
        state_wf(s),
    ensures
        forall|i: int| 0 <= i < s.starts.len() ==> (#[trigger] s.starts[i]) < s.lines.len(),
        forall|i: int| 0 <= i < s.checkpoints.len() ==> (#[trigger] s.checkpoints[i]).line < s.lines.len(),
{
    if !s.dirty {
        crate::layout::lemma_layout_indices(s.transcript.messages, ctx_of(s), wrap_width(s.vw as nat));
    }
}

} // verus!
