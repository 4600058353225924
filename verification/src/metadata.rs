//! Picker row metadata and pluggable metadata sources.
//!
//! The picker shows a first-prompt preview next to each session. Reading
//! it means reading the session file, so the picker asks a
//! [`SessionMetadataSource`] lazily, row by row. [`NullSource`] returns
//! nothing; the program's file-backed source reads the head of the file
//! and takes the preview with [`first_prompt`].

use vstd::prelude::*;

use crate::jsonl::{ContentBlock, MessageContent, SessionEvent};
use crate::session::SessionFile;
use crate::text::{chars_of, lines, owned, str_lines, string_from_range, string_push, trim, trim_range};

verus! {

/// What the picker shows beyond the file's own metadata. Every field may
/// be missing.
#[derive(Debug, PartialEq, Eq)]
pub struct PickerRowData {
    /// First user prompt, cut to a one-line preview.
    pub first_prompt: Option<String>,
    /// Number of events.
    pub message_count: Option<usize>,
    /// Time from first to last event, in nanoseconds.
    pub duration: Option<u64>,
}

pub ghost struct PickerRowModel {
    pub first_prompt: Option<Seq<char>>,
    pub message_count: Option<usize>,
    pub duration: Option<u64>,
}

impl View for PickerRowData {
    type V = PickerRowModel;

    open spec fn view(&self) -> PickerRowModel {
        PickerRowModel {
            first_prompt: match self.first_prompt {
                Some(s) => Some(s@),
                None => None,
            },
            message_count: self.message_count,
            duration: self.duration,
        }
    }
}

pub open spec fn empty_row() -> PickerRowModel {
    PickerRowModel { first_prompt: None, message_count: None, duration: None }
}

impl Default for PickerRowData {
    fn default() -> (d: PickerRowData)
        ensures
            d@ == empty_row(),
    {
        PickerRowData { first_prompt: None, message_count: None, duration: None }
    }
}

impl PickerRowData {
    /// A copy of this row data.
    pub fn duplicate(&self) -> (r: PickerRowData)
        ensures
            r@ == self@,
    {
        PickerRowData {
            first_prompt: match &self.first_prompt {
                Some(s) => Some(s.clone()),
                None => None,
            },
            message_count: self.message_count,
            duration: self.duration,
        }
    }
}

/// A source of picker row metadata, for the program to implement.
pub trait SessionMetadataSource {
    /// Metadata of `session`; called lazily as rows come into view.
    fn fetch(&self, session: &SessionFile) -> PickerRowData;
}

/// Always returns empty metadata.
pub struct NullSource;

impl SessionMetadataSource for NullSource {
    fn fetch(&self, session: &SessionFile) -> (d: PickerRowData)
        ensures
            d@ == empty_row(),
    {
        PickerRowData { first_prompt: None, message_count: None, duration: None }
    }
}

/// Bytes read from the head of a session file for its preview.
pub const HEAD_READ_BYTES: usize = 16384;

/// Characters kept in a preview before it is cut.
pub const PREVIEW_CHAR_LIMIT: usize = 120;

/// The first line of `s`, trimmed.
pub open spec fn single_line(s: Seq<char>) -> Seq<char> {
    let ls = lines(s);
    if ls.len() == 0 {
        Seq::empty()
    } else {
        trim(ls[0])
    }
}

/// `s` when it has at most `limit` characters, else its first `limit`
/// characters and `…`.
pub open spec fn truncated(s: Seq<char>, limit: nat) -> Seq<char> {
    if s.len() <= limit {
        s
    } else {
        s.take(limit as int).push('…')
    }
}

/// The first text block of a list of blocks.
pub open spec fn first_text_block(bs: Seq<ContentBlock>) -> Option<Seq<char>>
    decreases bs.len(),
{
    if bs.len() == 0 {
        None
    } else {
        match bs[0] {
            ContentBlock::Text { text, .. } => Some(text@),
            _ => first_text_block(bs.drop_first()),
        }
    }
}

/// Preview text of a user message: a string body, or its first text
/// block (a message of only tool results is an echo, not a prompt).
pub open spec fn content_preview(c: MessageContent) -> Option<Seq<char>> {
    match c {
        MessageContent::Text(s) => Some(single_line(s@)),
        MessageContent::Blocks(bs) => match first_text_block(bs@) {
            Some(t) => Some(single_line(t)),
            None => None,
        },
    }
}

/// The preview of the first user event that has one, cut to
/// [`PREVIEW_CHAR_LIMIT`] characters.
pub open spec fn first_prompt_of(evs: Seq<SessionEvent>) -> Option<Seq<char>>
    decreases evs.len(),
{
    if evs.len() == 0 {
        None
    } else {
        match evs[0] {
            SessionEvent::User(me) => match content_preview(me.message.content) {
                Some(p) => Some(truncated(p, PREVIEW_CHAR_LIMIT as nat)),
                None => first_prompt_of(evs.drop_first()),
            },
            _ => first_prompt_of(evs.drop_first()),
        }
    }
}

/// First line of `s`, trimmed.
pub fn single_line_of(s: &str) -> (r: String)
    ensures
        r@ == single_line(s@),
{
    let ls = str_lines(s);
    if ls.len() == 0 {
        String::new()
    } else {
        let cs = chars_of(ls[0].as_str());
        let t = trim_range(&cs, 0, cs.len());
        assert(cs@.subrange(0, cs.len() as int) =~= cs@);
        t
    }
}

/// Cut `s` to `limit` characters, marking the cut with `…`.
pub fn truncate(s: &str, limit: usize) -> (r: String)
    ensures
        r@ == truncated(s@, limit as nat),
{
    let cs = chars_of(s);
    if cs.len() <= limit {
        owned(s)
    } else {
        let mut out = string_from_range(&cs, 0, limit);
        string_push(&mut out, '…');
        assert(out@ =~= s@.take(limit as int).push('…'));
        out
    }
}

/// Preview text of a user message's content.
pub fn preview_from_content(content: &MessageContent) -> (r: Option<String>)
    ensures
        match r {
            Some(p) => content_preview(*content) == Some(p@),
            None => content_preview(*content) is None,
        },
{
    match content {
        MessageContent::Text(s) => Some(single_line_of(s.as_str())),
        MessageContent::Blocks(blocks) => {
            let ghost bs = blocks@;
            let mut i: usize = 0;
            assert(bs.skip(0) =~= bs);
            while i < blocks.len()
                invariant
                    i <= blocks@.len(),
                    bs == blocks@,
                    content_preview(*content) == match first_text_block(bs) {
                        Some(t) => Some(single_line(t)),
                        None => None,
                    },
                    first_text_block(bs) == first_text_block(bs.skip(i as int)),
                decreases blocks.len() - i,
            {
                proof {
                    assert(bs.skip(i as int)[0] == bs[i as int]);
                    assert(bs.skip(i as int).drop_first() =~= bs.skip(i + 1));
                }
                match &blocks[i] {
                    ContentBlock::Text { text, .. } => {
                        return Some(single_line_of(text.as_str()));
                    },
                    _ => {},
                }
                i += 1;
            }
            assert(bs.skip(i as int) =~= Seq::<ContentBlock>::empty());
            None
        },
    }
}

/// The first user prompt among `events`, as the picker previews it.
pub fn first_prompt(events: &Vec<SessionEvent>) -> (r: Option<String>)
    ensures
        match r {
            Some(p) => first_prompt_of(events@) == Some(p@),
            None => first_prompt_of(events@) is None,
        },
{
    let ghost es = events@;
    let mut i: usize = 0;
    assert(es.skip(0) =~= es);
    while i < events.len()
        invariant
            i <= events@.len(),
            es == events@,
            first_prompt_of(es) == first_prompt_of(es.skip(i as int)),
        decreases events.len() - i,
    {
        proof {
            assert(es.skip(i as int)[0] == es[i as int]);
            assert(es.skip(i as int).drop_first() =~= es.skip(i + 1));
        }
        match &events[i] {
            SessionEvent::User(me) => {
                match preview_from_content(&me.message.content) {
                    Some(p) => {
                        return Some(truncate(p.as_str(), PREVIEW_CHAR_LIMIT));
                    },
                    None => {},
                }
            },
            _ => {},
        }
        i += 1;
    }
    assert(es.skip(i as int) =~= Seq::<SessionEvent>::empty());
    None
}

} // verus!
