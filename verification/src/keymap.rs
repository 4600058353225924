//! Key handling for the transcript viewer, as a pure transition of the
//! viewer state.
//!
//! Normal mode:
//! `j`/`k`/arrows move a line, `Ctrl-d`/`Ctrl-u` half a page, `gg`/`G`/
//! `Home`/`End` jump to the top or bottom, `{`/`}` step between user
//! turns, `[`/`]` between checkpoints, `c` toggles the checkpoint sidebar,
//! `m<letter>`/`'<letter>` set and jump to marks, `t`/`T` fold the block
//! under the cursor or every tool and thinking block, `/` starts a
//! search, `n`/`N` step through matches, `y` stages the message for the
//! clipboard, `F` toggles following, `q` quits and `Esc` goes back to the
//! picker. While a query is typed, `Enter` runs it, `Esc` cancels,
//! `Backspace` deletes and any other character extends it.

use vstd::prelude::*;

use crate::state::{
    begin_search_spec, cancel_search_spec, commit_search, half_page, jump_bottom, jump_to_mark,
    jump_top, move_down, move_up, next_checkpoint, next_user_turn, pop_search_char,
    prev_checkpoint, prev_user_turn, push_search_char, request_yank, set_mark, step_match,
    toggle_block, toggle_collapse_all, toggle_follow, with_flash, StateModel, TranscriptState,
};
use crate::search::SearchModeModel;

verus! {

/// The keys the viewer and picker react to.
#[derive(Debug, Clone, Copy, PartialEq, Eq, Structural)]
pub enum KeyCode {
    Char(char),
    Esc,
    Enter,
    Backspace,
    Up,
    Down,
    Home,
    End,
    /// Any other key; none of them is bound.
    Other,
}

/// Modifier keys held with a key; only Control changes a binding.
#[derive(Debug, Clone, Copy, PartialEq, Eq, Structural)]
pub struct KeyModifiers {
    pub control: bool,
}

impl KeyModifiers {
    pub fn none() -> (m: KeyModifiers)
        ensures
            !m.control,
    {
        KeyModifiers { control: false }
    }

    pub fn control() -> (m: KeyModifiers)
        ensures
            m.control,
    {
        KeyModifiers { control: true }
    }
}

/// A key press.
#[derive(Debug, Clone, Copy, PartialEq, Eq, Structural)]
pub struct KeyEvent {
    pub code: KeyCode,
    pub modifiers: KeyModifiers,
}

impl KeyEvent {
    pub fn new(code: KeyCode, modifiers: KeyModifiers) -> (k: KeyEvent)
        ensures
            k.code == code && k.modifiers == modifiers,
    {
        KeyEvent { code, modifiers }
    }
}

/// What the application does after a key: nothing more, quit, or return
/// to the picker (quitting when there is none behind the viewer).
#[derive(Debug, Clone, Copy, PartialEq, Eq, Structural)]
pub enum Action {
    Continue,
    Quit,
    BackToPicker,
}

/// A key while a query is being typed.
pub open spec fn search_typing_key(s: StateModel, code: KeyCode) -> StateModel {
    match code {
        KeyCode::Esc => with_flash(cancel_search_spec(s), "search cancelled"@),
        KeyCode::Enter => commit_search(s),
        KeyCode::Backspace => pop_search_char(s),
        KeyCode::Char(c) => push_search_char(s, c),
        _ => s,
    }
}

/// A normal-mode key, after the chord flags and the flash were cleared.
pub open spec fn normal_key(s: StateModel, code: KeyCode, ctrl: bool, pending_g: bool) -> (
    StateModel,
    Action,
) {
    match code {
        KeyCode::Char('q') => (s, Action::Quit),
        KeyCode::Esc => (s, Action::BackToPicker),
        KeyCode::Char('j') | KeyCode::Down => (move_down(s, 1), Action::Continue),
        KeyCode::Char('k') | KeyCode::Up => (move_up(s, 1), Action::Continue),
        KeyCode::Char('d') if ctrl => (move_down(s, half_page(s)), Action::Continue),
        KeyCode::Char('u') if ctrl => (move_up(s, half_page(s)), Action::Continue),
        KeyCode::Char('G') | KeyCode::End => (jump_bottom(s), Action::Continue),
        KeyCode::Home => (jump_top(s), Action::Continue),
        KeyCode::Char('g') => (
            if pending_g {
                jump_top(s)
            } else {
                StateModel { pending_g: true, ..s }
            },
            Action::Continue,
        ),
        KeyCode::Char('{') => (prev_user_turn(s), Action::Continue),
        KeyCode::Char('}') => (next_user_turn(s), Action::Continue),
        KeyCode::Char('[') => (prev_checkpoint(s), Action::Continue),
        KeyCode::Char(']') => (next_checkpoint(s), Action::Continue),
        KeyCode::Char('c') => (StateModel { show_sidebar: !s.show_sidebar, ..s }, Action::Continue),
        KeyCode::Char('m') => (StateModel { pending_m: true, ..s }, Action::Continue),
        KeyCode::Char('\'') => (StateModel { pending_quote: true, ..s }, Action::Continue),
        KeyCode::Char('t') => (toggle_block(s), Action::Continue),
        KeyCode::Char('T') => (toggle_collapse_all(s), Action::Continue),
        KeyCode::Char('/') => (begin_search_spec(s), Action::Continue),
        KeyCode::Char('n') => (step_match(s, true), Action::Continue),
        KeyCode::Char('N') => (step_match(s, false), Action::Continue),
        KeyCode::Char('y') => (request_yank(s), Action::Continue),
        KeyCode::Char('F') => (toggle_follow(s), Action::Continue),
        _ => (s, Action::Continue),
    }
}

/// Every key outside query typing first clears the chord flags and the
/// flash.
pub open spec fn reset_chords(s: StateModel) -> StateModel {
    StateModel { pending_g: false, pending_m: false, pending_quote: false, flash: None, ..s }
}

/// A key after the reset: a pending `m` or `'` takes a plain character as
/// its letter; anything else goes to the normal-mode bindings.
pub open spec fn chord_or_normal_key(
    s: StateModel,
    key: KeyEvent,
    pending_g: bool,
    pending_m: bool,
    pending_quote: bool,
) -> (StateModel, Action) {
    let ctrl = key.modifiers.control;
    match key.code {
        KeyCode::Char(ch) if !ctrl && pending_m => (set_mark(s, ch), Action::Continue),
        KeyCode::Char(ch) if !ctrl && pending_quote => (jump_to_mark(s, ch), Action::Continue),
        _ => normal_key(s, key.code, ctrl, pending_g),
    }
}

/// What a key does to the viewer. Typing a query owns the keyboard.
pub open spec fn handle_key_spec(s: StateModel, key: KeyEvent) -> (StateModel, Action) {
    if s.search is Typing {
        (search_typing_key(s, key.code), Action::Continue)
    } else {
        chord_or_normal_key(reset_chords(s), key, s.pending_g, s.pending_m, s.pending_quote)
    }
}

/// The keys that move the cursor or leave the viewer.
pub open spec fn is_motion_key(code: KeyCode, ctrl: bool) -> bool {
    ||| code is Down
    ||| code is Up
    ||| code is End
    ||| code is Home
    ||| code is Esc
    ||| code matches KeyCode::Char(c) && (c == 'j' || c == 'k' || c == 'G' || c == 'g' || c
        == '{' || c == '}' || c == '[' || c == ']' || c == 'q' || (ctrl && (c == 'd' || c
        == 'u')))
}

fn handle_search_typing(state: &mut TranscriptState, key: KeyEvent) -> (a: Action)
    requires
        old(state).wf(),
    ensures
        final(state).wf(),
        final(state)@ == search_typing_key(old(state)@, key.code),
        a == Action::Continue,
{
    match key.code {
        KeyCode::Esc => {
            state.cancel_search();
            state.set_flash("search cancelled");
        },
        KeyCode::Enter => {
            state.commit_search();
        },
        KeyCode::Backspace => {
            state.pop_search_char();
        },
        KeyCode::Char(ch) => {
            state.push_search_char(ch);
        },
        _ => {},
    }
    Action::Continue
}

fn handle_motion(state: &mut TranscriptState, code: KeyCode, ctrl: bool, pending_g: bool) -> (a:
    Option<Action>)
    requires
        old(state).wf(),
    ensures
        final(state).wf(),
        match a {
            Some(act) => (final(state)@, act) == normal_key(old(state)@, code, ctrl, pending_g),
            None => final(state)@ == old(state)@ && !is_motion_key(code, ctrl),
        },
{
    match code {
        KeyCode::Char('q') => Some(Action::Quit),
        KeyCode::Esc => Some(Action::BackToPicker),
        KeyCode::Char('j') | KeyCode::Down => {
            state.move_down(1);
            Some(Action::Continue)
        },
        KeyCode::Char('k') | KeyCode::Up => {
            state.move_up(1);
            Some(Action::Continue)
        },
        KeyCode::Char('d') if ctrl => {
            state.half_page_down();
            Some(Action::Continue)
        },
        KeyCode::Char('u') if ctrl => {
            state.half_page_up();
            Some(Action::Continue)
        },
        KeyCode::Char('G') | KeyCode::End => {
            state.jump_bottom();
            Some(Action::Continue)
        },
        KeyCode::Home => {
            state.jump_top();
            Some(Action::Continue)
        },
        KeyCode::Char('g') => {
            if pending_g {
                state.jump_top();
            } else {
                state.set_pending_g(true);
            }
            Some(Action::Continue)
        },
        KeyCode::Char('{') => {
            state.jump_prev_user_turn();
            Some(Action::Continue)
        },
        KeyCode::Char('}') => {
            state.jump_next_user_turn();
            Some(Action::Continue)
        },
        KeyCode::Char('[') => {
            state.jump_prev_checkpoint();
            Some(Action::Continue)
        },
        KeyCode::Char(']') => {
            state.jump_next_checkpoint();
            Some(Action::Continue)
        },
        _ => None,
    }
}

fn handle_command(state: &mut TranscriptState, code: KeyCode, ctrl: bool, pending_g: bool)
    requires
        old(state).wf(),
        !is_motion_key(code, ctrl),
    ensures
        final(state).wf(),
        (final(state)@, Action::Continue) == normal_key(old(state)@, code, ctrl, pending_g),
{
    match code {
        KeyCode::Char('c') => state.toggle_sidebar(),
        KeyCode::Char('m') => state.set_pending_m(true),
        KeyCode::Char('\'') => state.set_pending_quote(true),
        KeyCode::Char('t') => state.toggle_current_block(),
        KeyCode::Char('T') => state.toggle_collapse_all(),
        KeyCode::Char('/') => state.begin_search(),
        KeyCode::Char('n') => state.next_match(),
        KeyCode::Char('N') => state.prev_match(),
        KeyCode::Char('y') => state.request_yank(),
        KeyCode::Char('F') => state.toggle_follow(),
        _ => {},
    }
}

fn reset_chord_state(state: &mut TranscriptState)
    requires
        old(state).wf(),
    ensures
        final(state).wf(),
        final(state)@ == reset_chords(old(state)@),
{
    state.set_pending_g(false);
    state.set_pending_m(false);
    state.set_pending_quote(false);
    state.clear_flash();
}

fn handle_after_reset(
    state: &mut TranscriptState,
    key: KeyEvent,
    pending_g: bool,
    pending_m: bool,
    pending_quote: bool,
) -> (a: Action)
    requires
        old(state).wf(),
    ensures
        final(state).wf(),
        (final(state)@, a) == chord_or_normal_key(
            old(state)@,
            key,
            pending_g,
            pending_m,
            pending_quote,
        ),
{
    let ctrl = key.modifiers.control;
    match key.code {
        KeyCode::Char(ch) => {
            if !ctrl && pending_m {
                state.set_mark(ch);
                return Action::Continue;
            }
            if !ctrl && pending_quote {
                state.jump_to_mark(ch);
                return Action::Continue;
            }
        },
        _ => {},
    }
    match handle_motion(state, key.code, ctrl, pending_g) {
        Some(a) => a,
        None => {
            handle_command(state, key.code, ctrl, pending_g);
            Action::Continue
        },
    }
}

/// Consume one key press: update the viewer and say what the
/// application should do next.
pub fn handle_key(state: &mut TranscriptState, key: KeyEvent) -> (a: Action)
    requires
        old(state).wf(),
    ensures
        final(state).wf(),
        (final(state)@, a) == handle_key_spec(old(state)@, key),
{
    if state.search_mode().is_typing() {
        return handle_search_typing(state, key);
    }
    let pending_g = state.pending_g();
    let pending_m = state.pending_m();
    let pending_quote = state.pending_quote();
    reset_chord_state(state);
    handle_after_reset(state, key, pending_g, pending_m, pending_quote)
}

} // verus!
