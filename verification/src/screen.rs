//! The two screens of the application and the moves between them.
//!
//! The picker hands the chosen session to a viewer and is parked on it, so
//! that `Esc` in the viewer returns to the very same cursor and query. A
//! viewer opened without a picker behind it quits instead. Loading the
//! transcript and polling the live tail are the caller's business: a new
//! viewer here has neither yet.

use vstd::prelude::*;

use crate::keymap::{handle_key, handle_key_spec, Action, KeyCode, KeyEvent};
use crate::metadata::SessionMetadataSource;
use crate::picker::{handle_picker_key, picker_key_effect, picker_key_quits, PickerModel, PickerState};
use crate::session::SessionFile;
use crate::state::{append_events, reset_transcript, with_flash, TranscriptState};
use crate::tail::{LiveTail, Update};
use crate::text::{decimal, owned, push_str, usize_to_string};
use crate::transcript::{empty_transcript, Transcript};

verus! {

/// What a viewer holds: the session it shows, its transcript state once
/// loaded, the live-tail driver in live mode, and the picker it was opened
/// from, if any.
pub struct ViewerScreen<S: SessionMetadataSource> {
    pub live: bool,
    pub session: Option<SessionFile>,
    pub state: Option<TranscriptState>,
    pub tail: Option<LiveTail>,
    pub saved_picker: Option<PickerState<S>>,
}

/// The screen on display.
pub enum Screen<S: SessionMetadataSource> {
    Picker(PickerState<S>),
    Viewer(Box<ViewerScreen<S>>),
}

pub open spec fn viewer_wf<S: SessionMetadataSource>(v: ViewerScreen<S>) -> bool {
    &&& v.state matches Some(st) ==> st.wf()
    &&& v.saved_picker matches Some(p) ==> p.wf()
}

pub open spec fn screen_wf<S: SessionMetadataSource>(s: Screen<S>) -> bool {
    match s {
        Screen::Picker(p) => p.wf(),
        Screen::Viewer(v) => viewer_wf(*v),
    }
}

impl<S: SessionMetadataSource> Screen<S> {
    /// A viewer with nothing behind it (opened from the command line).
    pub fn viewer(live: bool, session: Option<SessionFile>) -> (s: Screen<S>)
        ensures
            screen_wf(s),
            s matches Screen::Viewer(v) && v.live == live && v.session == session
                && v.state is None && v.tail is None && v.saved_picker is None,
    {
        Screen::Viewer(Box::new(ViewerScreen { live, session, state: None, tail: None, saved_picker: None }))
    }

    /// A viewer opened from `picker`, which waits on it.
    pub fn viewer_from_picker(live: bool, session: Option<SessionFile>, picker: PickerState<S>) -> (s: Screen<S>)
        requires
            picker.wf(),
        ensures
            screen_wf(s),
            s matches Screen::Viewer(v) && v.live == live && v.session == session
                && v.state is None && v.tail is None && v.saved_picker == Some(picker),
    {
        Screen::Viewer(
            Box::new(ViewerScreen { live, session, state: None, tail: None, saved_picker: Some(picker) }),
        )
    }
}

/// The action of a key on a viewer whose transcript could not be loaded:
/// `q` quits, `Esc` goes back.
pub open spec fn placeholder_action(code: KeyCode) -> Action {
    match code {
        KeyCode::Char(c) => if c == 'q' { Action::Quit } else { Action::Continue },
        KeyCode::Esc => Action::BackToPicker,
        _ => Action::Continue,
    }
}

/// What a key asks of the application while a viewer is shown.
pub open spec fn viewer_action<S: SessionMetadataSource>(v: ViewerScreen<S>, key: KeyEvent) -> Action {
    match v.state {
        Some(st) => handle_key_spec(st@, key).1,
        None => placeholder_action(key.code),
    }
}

/// The viewer after a key: its transcript state (if loaded) has taken the
/// key; nothing else changed.
pub open spec fn viewer_after_key<S: SessionMetadataSource>(
    v: ViewerScreen<S>,
    key: KeyEvent,
    w: ViewerScreen<S>,
) -> bool {
    &&& w.live == v.live
    &&& w.session == v.session
    &&& w.tail == v.tail
    &&& w.saved_picker == v.saved_picker
    &&& match v.state {
        Some(a) => w.state matches Some(b) && b@ == handle_key_spec(a@, key).0,
        None => w.state is None,
    }
}

/// `Esc` from a viewer: back to its picker, or (with none) quit.
pub open spec fn returned<S: SessionMetadataSource>(a: App<S>, b: App<S>) -> bool {
    match a.screen {
        Screen::Viewer(v) => match v.saved_picker {
            Some(p) => b.screen == Screen::Picker(p) && b.should_quit == a.should_quit,
            None => b.screen == a.screen && b.should_quit,
        },
        Screen::Picker(_) => b.screen == a.screen && b.should_quit == a.should_quit,
    }
}

/// A row staged on the picker is opened in a viewer that keeps the
/// picker (with its request consumed); anything else stays as it was.
pub open spec fn opened<S: SessionMetadataSource>(a: App<S>, b: App<S>) -> bool {
    &&& b.should_quit == a.should_quit
    &&& match a.screen {
        Screen::Picker(p) => {
            let m = p@;
            let cleared = PickerModel { open_requested: false, ..m };
            if m.open_requested && m.cursor < m.filtered.len() {
                &&& b.screen matches Screen::Viewer(v)
                &&& !v.live && v.state is None && v.tail is None
                &&& v.session matches Some(s)
                &&& s@ == m.sessions[m.filtered[m.cursor as int] as int]
                &&& v.saved_picker matches Some(q)
                &&& q@ == cleared
            } else {
                b.screen matches Screen::Picker(q) && q@ == cleared
            }
        },
        Screen::Viewer(_) => b.screen == a.screen,
    }
}

/// Opening a row and coming back lands on the same picker: same rows,
/// cursor and query, with nothing left staged.
pub proof fn law_open_then_back<S: SessionMetadataSource>(a: App<S>, b: App<S>, c: App<S>)
    requires
        a.screen matches Screen::Picker(p) && p.wf() && p@.open_requested && p@.filtered.len() > 0,
        opened(a, b),
        returned(b, c),
    ensures
        c.should_quit == a.should_quit,
        a.screen matches Screen::Picker(p) && c.screen matches Screen::Picker(q) && q@ == (PickerModel {
            open_requested: false,
            ..p@
        }),
{
}

/// A viewer opened from the command line has no picker to go back to:
/// `Esc` quits.
pub proof fn law_back_without_picker_quits<S: SessionMetadataSource>(a: App<S>, b: App<S>)
    requires
        a.screen matches Screen::Viewer(v) && v.saved_picker is None,
        returned(a, b),
    ensures
        b.should_quit,
        b.screen == a.screen,
{
}

/// The application: a screen, and whether it is time to quit.
pub struct App<S: SessionMetadataSource> {
    pub screen: Screen<S>,
    pub should_quit: bool,
}

impl<S: SessionMetadataSource> App<S> {
    pub fn new(screen: Screen<S>) -> (a: App<S>)
        ensures
            a.screen == screen,
            !a.should_quit,
    {
        App { screen, should_quit: false }
    }

    pub fn screen(&self) -> (r: &Screen<S>)
        ensures
            *r == self.screen,
    {
        &self.screen
    }

    pub fn should_quit(&self) -> (b: bool)
        ensures
            b == self.should_quit,
    {
        self.should_quit
    }

    /// Take the screen out, leaving an empty viewer in its place.
    fn take_screen(&mut self) -> (s: Screen<S>)
        ensures
            s == old(self).screen,
            final(self).should_quit == old(self).should_quit,
            screen_wf(final(self).screen),
    {
        let mut s = Screen::viewer(false, None);
        std::mem::swap(&mut s, &mut self.screen);
        s
    }

    /// `Esc` in a viewer: back to the picker it was opened from, or quit
    /// when there is none.
    pub fn return_to_picker(&mut self)
        requires
            screen_wf(old(self).screen),
        ensures
            screen_wf(final(self).screen),
            returned(*old(self), *final(self)),
    {
        let screen = self.take_screen();
        match screen {
            Screen::Viewer(v) => {
                let mut v = *v;
                match v.saved_picker.take() {
                    Some(picker) => {
                        self.screen = Screen::Picker(picker);
                    },
                    None => {
                        self.screen = Screen::Viewer(Box::new(v));
                        self.should_quit = true;
                    },
                }
            },
            other => {
                self.screen = other;
            },
        }
    }

    /// After a key on the picker: when it staged a row for opening, move
    /// the picker into a new viewer of that session.
    pub fn process_screen_transitions(&mut self)
        requires
            screen_wf(old(self).screen),
        ensures
            screen_wf(final(self).screen),
            final(self).should_quit == old(self).should_quit,
            opened(*old(self), *final(self)),
    {
        let screen = self.take_screen();
        match screen {
            Screen::Picker(mut picker) => {
                match picker.take_open_request() {
                    Some(session) => {
                        self.screen = Screen::viewer_from_picker(false, Some(session), picker);
                    },
                    None => {
                        self.screen = Screen::Picker(picker);
                    },
                }
            },
            other => {
                self.screen = other;
            },
        }
    }

    /// One key press: on the picker it edits the picker; on a viewer it
    /// goes to the transcript (or, with none loaded, `q` quits and `Esc`
    /// goes back), and the resulting action is carried out.
    pub fn handle_key(&mut self, key: KeyEvent)
        requires
            screen_wf(old(self).screen),
        ensures
            screen_wf(final(self).screen),
            match old(self).screen {
                Screen::Picker(p) => {
                    &&& final(self).screen matches Screen::Picker(q)
                    &&& picker_key_effect(p@, key.code, q@)
                    &&& final(self).should_quit == (old(self).should_quit || picker_key_quits(
                        p@,
                        key.code,
                    ))
                },
                Screen::Viewer(v) => match viewer_action(*v, key) {
                    Action::BackToPicker => match v.saved_picker {
                        Some(p) => final(self).screen == Screen::Picker(p)
                            && final(self).should_quit == old(self).should_quit,
                        None => {
                            &&& final(self).should_quit
                            &&& final(self).screen matches Screen::Viewer(w)
                            &&& viewer_after_key(*v, key, *w)
                        },
                    },
                    Action::Quit => {
                        &&& final(self).should_quit
                        &&& final(self).screen matches Screen::Viewer(w)
                        &&& viewer_after_key(*v, key, *w)
                    },
                    Action::Continue => {
                        &&& final(self).should_quit == old(self).should_quit
                        &&& final(self).screen matches Screen::Viewer(w)
                        &&& viewer_after_key(*v, key, *w)
                    },
                },
            },
    {
        let screen = self.take_screen();
        match screen {
            Screen::Picker(mut picker) => {
                let mut quit = self.should_quit;
                handle_picker_key(&mut picker, key.code, &mut quit);
                self.should_quit = quit;
                self.screen = Screen::Picker(picker);
            },
            Screen::Viewer(v) => {
                let mut v = *v;
                let action = match v.state.take() {
                    Some(mut st) => {
                        let a = handle_key(&mut st, key);
                        v.state = Some(st);
                        a
                    },
                    None => match key.code {
                        KeyCode::Char('q') => Action::Quit,
                        KeyCode::Esc => Action::BackToPicker,
                        _ => Action::Continue,
                    },
                };
                match action {
                    Action::Continue => {
                        self.screen = Screen::Viewer(Box::new(v));
                    },
                    Action::Quit => {
                        self.screen = Screen::Viewer(Box::new(v));
                        self.should_quit = true;
                    },
                    Action::BackToPicker => {
                        self.screen = Screen::Viewer(Box::new(v));
                        self.return_to_picker();
                    },
                }
            },
        }
    }
}

/// Live tailing: what a tick's update does to the viewer. Lines that did
/// not parse are reported in the flash line; a rewritten file asks for a
/// reload (the result is `true`); otherwise the new events are appended.
pub fn apply_tail_update(state: &mut TranscriptState, update: Update) -> (reload: bool)
    requires
        old(state).wf(),
    ensures
        final(state).wf(),
        reload == update.reset,
        ({
            let s0 = old(state)@;
            let s1 = if update.errors_skipped > 0 {
                with_flash(s0, "live-tail skipped "@ + decimal(update.errors_skipped as nat) + " malformed line(s)"@)
            } else {
                s0
            };
            if update.new_events@.len() == 0 && !update.reset && update.errors_skipped == 0 {
                final(state)@ == s0
            } else if update.reset {
                final(state)@ == s1
            } else {
                final(state)@ == append_events(s1, update.new_events@)
            }
        }),
{
    if update.is_empty() {
        return false;
    }
    if update.errors_skipped > 0 {
        let mut msg = owned("live-tail skipped ");
        push_str(&mut msg, usize_to_string(update.errors_skipped).as_str());
        push_str(&mut msg, " malformed line(s)");
        state.set_flash(msg.as_str());
    }
    if update.reset {
        return true;
    }
    state.append_events(update.new_events);
    false
}

/// After a rewrite: the freshly loaded transcript replaces the old one;
/// when it could not be loaded the viewer starts over empty and says so,
/// rather than mixing two versions of the file.
pub fn finish_reload(state: &mut TranscriptState, fresh: Option<Transcript>)
    requires
        old(state).wf(),
    ensures
        final(state).wf(),
        final(state)@ == match fresh {
            Some(t) => reset_transcript(old(state)@, t@),
            None => with_flash(
                reset_transcript(old(state)@, empty_transcript()),
                "session compacted; reload failed"@,
            ),
        },
{
    match fresh {
        Some(t) => state.reset_transcript(t),
        None => {
            state.reset_transcript(Transcript::new());
            state.set_flash("session compacted; reload failed");
        },
    }
}

} // verus!
