//! Incremental reading of a session file that is still being written.
//!
//! The reader remembers how far into the file it has read and the bytes
//! of an unfinished last line. Each poll hands it what was appended; it
//! returns the complete lines and keeps the unfinished rest for later, so
//! a read that ends mid-line never yields a truncated line. A file that got
//! shorter than the remembered offset was rewritten (compaction): the
//! reader starts over from the beginning and says so.

use vstd::prelude::*;

use crate::jsonl::SessionEvent;
use crate::text::{
    chars_of, is_blank, is_blank_str, owned, push_str, split_on, split_str, strip_cr,
    strip_cr_str, texts_of,
};

verus! {

/// The complete lines of `pieces` (all but the last piece of a split at
/// `\n`), each without a trailing `\r`, blank ones dropped.
pub open spec fn kept_lines(pieces: Seq<Seq<char>>) -> Seq<Seq<char>>
    decreases pieces.len(),
{
    if pieces.len() == 0 {
        Seq::empty()
    } else {
        let rest = kept_lines(pieces.drop_last());
        let l = strip_cr(pieces.last());
        if is_blank(l) {
            rest
        } else {
            rest.push(l)
        }
    }
}

/// The lines a buffer holding `s` gives up.
pub open spec fn complete_lines(s: Seq<char>) -> Seq<Seq<char>> {
    kept_lines(split_on(s, '\n').drop_last())
}

/// What stays buffered of `s`: the text after its last `\n`.
pub open spec fn unfinished(s: Seq<char>) -> Seq<char> {
    split_on(s, '\n').last()
}

proof fn lemma_kept_lines_concat(a: Seq<Seq<char>>, b: Seq<Seq<char>>)
    ensures
        kept_lines(a + b) == kept_lines(a) + kept_lines(b),
    decreases b.len(),
{
    if b.len() == 0 {
        assert(a + b =~= a);
        assert(kept_lines(a) + kept_lines(b) =~= kept_lines(a));
    } else {
        assert((a + b).drop_last() =~= a + b.drop_last());
        assert((a + b).last() == b.last());
        lemma_kept_lines_concat(a, b.drop_last());
        let l = strip_cr(b.last());
        if !is_blank(l) {
            assert((kept_lines(a) + kept_lines(b.drop_last())).push(l) =~= kept_lines(a) + kept_lines(
                b.drop_last(),
            ).push(l));
        }
    }
}

/// How appended text is cut into polls does not matter: reading `a` and
/// then `b` gives the same lines, and leaves the same unfinished text, as
/// reading `a` and `b` at once.
pub proof fn law_polls_compose(pending: Seq<char>, a: Seq<char>, b: Seq<char>)
    ensures
        complete_lines(pending + a) + complete_lines(unfinished(pending + a) + b) == complete_lines(
            pending + a + b,
        ),
        unfinished(unfinished(pending + a) + b) == unfinished(pending + a + b),
{
    let x = pending + a;
    let sx = split_on(x, '\n');
    crate::text::lemma_split_on_nonempty(x, '\n');
    crate::text::lemma_split_concat(x, b, '\n');
    let u = sx.last();
    crate::text::lemma_split_on_nonempty(u + b, '\n');
    let sb = split_on(u + b, '\n');
    assert((sx.drop_last() + sb).drop_last() =~= sx.drop_last() + sb.drop_last());
    assert((sx.drop_last() + sb).last() == sb.last());
    lemma_kept_lines_concat(sx.drop_last(), sb.drop_last());
}

/// All of `cs`, one after another.
pub open spec fn appended(cs: Seq<Seq<char>>) -> Seq<char>
    decreases cs.len(),
{
    if cs.len() == 0 {
        Seq::empty()
    } else {
        appended(cs.drop_last()) + cs.last()
    }
}

/// What stays buffered after polls that read `cs`, one chunk each,
/// starting with `pending` buffered.
pub open spec fn pending_after(pending: Seq<char>, cs: Seq<Seq<char>>) -> Seq<char>
    decreases cs.len(),
{
    if cs.len() == 0 {
        pending
    } else {
        unfinished(pending_after(pending, cs.drop_last()) + cs.last())
    }
}

/// The lines those polls hand out, poll after poll.
pub open spec fn lines_reported(pending: Seq<char>, cs: Seq<Seq<char>>) -> Seq<Seq<char>>
    decreases cs.len(),
{
    if cs.len() == 0 {
        Seq::empty()
    } else {
        lines_reported(pending, cs.drop_last()) + complete_lines(
            pending_after(pending, cs.drop_last()) + cs.last(),
        )
    }
}

/// Over any number of polls of a file that only grows, every complete
/// line of what was read so far is handed out exactly once, in file
/// order, and only the unfinished last line stays back: the polls that
/// read `cs` give what one read of all of it gives. (A reader starts with
/// nothing buffered, and what it keeps buffered never holds a `\n`;
/// `finish_poll` states each step.)
pub proof fn law_polls_report_each_line_once(pending: Seq<char>, cs: Seq<Seq<char>>)
    requires
        !pending.contains('\n'),
    ensures
        lines_reported(pending, cs) == complete_lines(pending + appended(cs)),
        pending_after(pending, cs) == unfinished(pending + appended(cs)),
    decreases cs.len(),
{
    if cs.len() == 0 {
        assert(pending + appended(cs) =~= pending);
        crate::text::lemma_split_free(pending, '\n');
        assert(seq![pending].drop_last() =~= Seq::<Seq<char>>::empty());
    } else {
        let init = cs.drop_last();
        law_polls_report_each_line_once(pending, init);
        law_polls_compose(pending, appended(init), cs.last());
        assert(pending + appended(init) + cs.last() =~= pending + appended(cs));
    }
}

/// Incremental reader over one JSONL file.
pub struct TailReader {
    path: String,
    offset: u64,
    /// Text read past the last `\n`, kept until its line completes.
    pending: String,
}

pub ghost struct TailModel {
    pub path: Seq<char>,
    pub offset: nat,
    pub pending: Seq<char>,
}

impl View for TailReader {
    type V = TailModel;

    closed spec fn view(&self) -> TailModel {
        TailModel { path: self.path@, offset: self.offset as nat, pending: self.pending@ }
    }
}

/// Where a poll reads from, decided from the file's current length.
#[derive(Debug, Clone, Copy, PartialEq, Eq, Structural)]
pub struct PollStart {
    /// The file got shorter: it was rewritten and is read from the top.
    pub reset: bool,
    /// Byte offset to read the rest of the file from; `None` when nothing
    /// was appended.
    pub read_from: Option<u64>,
}

impl TailReader {
    /// A reader at the start of `path`: the first poll returns every line.
    pub fn open(path: &str) -> (r: TailReader)
        ensures
            r@ == (TailModel { path: path@, offset: 0, pending: Seq::empty() }),
    {
        TailReader { path: owned(path), offset: 0, pending: String::new() }
    }

    /// A reader that has already consumed the first `offset` bytes.
    pub fn open_at(path: &str, offset: u64) -> (r: TailReader)
        ensures
            r@ == (TailModel { path: path@, offset: offset as nat, pending: Seq::empty() }),
    {
        TailReader { path: owned(path), offset, pending: String::new() }
    }

    pub fn path(&self) -> (r: &str)
        ensures
            r@ == self@.path,
    {
        self.path.as_str()
    }

    pub fn offset(&self) -> (r: u64)
        ensures
            r as nat == self@.offset,
    {
        self.offset
    }

    /// The unfinished line held back so far.
    pub fn pending(&self) -> (r: &str)
        ensures
            r@ == self@.pending,
    {
        self.pending.as_str()
    }

    /// Start a poll of a file that is now `len` bytes long. A shorter file
    /// than already read means it was rewritten: start over from byte 0
    /// and drop the unfinished line.
    pub fn begin_poll(&mut self, len: u64) -> (r: PollStart)
        ensures
            r.reset == (len < old(self)@.offset),
            final(self)@ == if r.reset {
                TailModel { offset: 0, pending: Seq::empty(), ..old(self)@ }
            } else {
                old(self)@
            },
            r.read_from == if len as nat == final(self)@.offset {
                None
            } else {
                Some(final(self)@.offset as u64)
            },
    {
        let mut reset = false;
        if len < self.offset {
            self.offset = 0;
            self.pending = String::new();
            reset = true;
        }
        let read_from = if len == self.offset {
            None
        } else {
            Some(self.offset)
        };
        PollStart { reset, read_from }
    }

    /// Take in `chunk`, the `read_bytes` bytes read from the poll's start
    /// to the end of the file, and return the lines it completed.
    pub fn finish_poll(&mut self, chunk: &str, read_bytes: u64) -> (lines: Vec<String>)
        requires
            old(self)@.offset + read_bytes <= u64::MAX,
        ensures
            final(self)@ == (TailModel {
                offset: old(self)@.offset + read_bytes as nat,
                pending: unfinished(old(self)@.pending + chunk@),
                ..old(self)@
            }),
            texts_of(lines@) == complete_lines(old(self)@.pending + chunk@),
            !final(self)@.pending.contains('\n'),
    {
        proof {
            let t = old(self)@.pending + chunk@;
            crate::text::lemma_split_on_nonempty(t, '\n');
            crate::text::lemma_split_pieces_free(t, '\n');
            assert(unfinished(t) == split_on(t, '\n')[split_on(t, '\n').len() - 1]);
        }
        self.offset = self.offset + read_bytes;
        push_str(&mut self.pending, chunk);
        self.drain_lines()
    }

    /// Hand out every complete line of the buffer, keeping the rest.
    fn drain_lines(&mut self) -> (lines: Vec<String>)
        ensures
            final(self)@ == (TailModel { pending: unfinished(old(self)@.pending), ..old(self)@ }),
            texts_of(lines@) == complete_lines(old(self)@.pending),
    {
        let pieces = split_str(self.pending.as_str(), '\n');
        proof {
            crate::text::lemma_split_on_nonempty(self.pending@, '\n');
        }
        let ghost pv = texts_of(pieces@);
        let n = pieces.len() - 1;
        let mut out: Vec<String> = Vec::new();
        let mut i: usize = 0;
        assert(pv.drop_last().take(0) =~= Seq::<Seq<char>>::empty());
        while i < n
            invariant
                i <= n,
                n + 1 == pieces@.len(),
                pv == texts_of(pieces@),
                texts_of(out@) == kept_lines(pv.drop_last().take(i as int)),
            decreases n - i,
        {
            proof {
                let q = pv.drop_last();
                assert(q.take(i + 1).drop_last() =~= q.take(i as int));
                assert(q.take(i + 1).last() == pv[i as int]);
            }
            let ghost before = texts_of(out@);
            let l = strip_cr_str(pieces[i].as_str());
            if !is_blank_str(l.as_str()) {
                out.push(l);
                assert(texts_of(out@) =~= before.push(strip_cr(pv[i as int])));
            }
            i += 1;
        }
        assert(pv.drop_last().take(n as int) =~= pv.drop_last());
        self.pending = owned(pieces[n].as_str());
        out
    }
}

/// What one live-tail tick produced.
pub struct Update {
    /// Events parsed from lines appended since the last tick.
    pub new_events: Vec<SessionEvent>,
    /// The file was rewritten; the transcript must be reloaded.
    pub reset: bool,
    /// Lines that did not parse and were skipped.
    pub errors_skipped: usize,
}

impl Update {
    /// Nothing happened this tick.
    pub fn is_empty(&self) -> (b: bool)
        ensures
            b == (self.new_events@.len() == 0 && !self.reset && self.errors_skipped == 0),
    {
        self.new_events.len() == 0 && !self.reset && self.errors_skipped == 0
    }
}

/// Live-tail driver bound to one session file.
pub struct LiveTail {
    reader: TailReader,
}

impl LiveTail {
    /// Tail `path` from its first byte.
    pub fn new(path: &str) -> (t: LiveTail)
        ensures
            t.reader()@ == (TailModel { path: path@, offset: 0, pending: Seq::empty() }),
    {
        LiveTail { reader: TailReader::open(path) }
    }

    /// Tail `path` from byte `offset`, where an initial load stopped.
    pub fn new_at(path: &str, offset: u64) -> (t: LiveTail)
        ensures
            t.reader()@ == (TailModel { path: path@, offset: offset as nat, pending: Seq::empty() }),
    {
        LiveTail { reader: TailReader::open_at(path, offset) }
    }

    pub closed spec fn reader(&self) -> TailReader {
        self.reader
    }

    pub fn path(&self) -> (r: &str)
        ensures
            r@ == self.reader()@.path,
    {
        self.reader.path()
    }

    /// The reader, for the poll loop.
    pub fn reader_mut(&mut self) -> (r: &mut TailReader)
        ensures
            *r == old(self).reader(),
            final(self).reader() == *final(r),
    {
        &mut self.reader
    }
}

} // verus!
