//! Viewer-friendly transcript model.
//!
//! Lowers raw [`SessionEvent`]s into a flat, rendering-oriented structure: one
//! [`Message`] per displayable turn, each carrying a list of typed
//! [`Block`]s. Telemetry events and sidechain messages are dropped;
//! string message content becomes a single [`Block::Text`]; polymorphic
//! `tool_result` bodies are flattened to display strings.

use vstd::prelude::*;

use crate::json::{
    field_str, get_field_str, is_object, json_parse, json_pretty, spec_json_parse, spec_json_pretty,
    texts_view, JsonNode, JsonNodeModel,
};
use crate::jsonl::{AttachmentEvent, ContentBlock, SessionEvent, MessageContent, MessageEvent, SystemEvent};
use crate::text::{owned, push_str, string_push};

verus! {

#[derive(Debug, Clone, Copy, PartialEq, Eq, Structural)]
pub enum Role {
    User,
    Assistant,
    System,
}

/// A single renderable unit inside a message.
#[derive(Debug)]
pub enum Block {
    Text(String),
    Thinking(String),
    ToolCall { id: String, name: String, input_json: String },
    ToolResult { tool_use_id: String, content: String, is_error: bool },
    Attachment(String),
    Unknown,
}

/// One displayable turn in the transcript.
#[derive(Debug)]
pub struct Message {
    pub index: usize,
    pub role: Role,
    pub uuid: String,
    pub timestamp: String,
    pub blocks: Vec<Block>,
    /// The `stopReason` of a system event, kept for the checkpoint list.
    pub stop_reason: Option<String>,
}

/// A full session prepared for rendering.
#[derive(Debug)]
pub struct Transcript {
    pub session_id: String,
    pub project: Option<String>,
    pub messages: Vec<Message>,
}

pub ghost enum BlockModel {
    Text(Seq<char>),
    Thinking(Seq<char>),
    ToolCall { id: Seq<char>, name: Seq<char>, input_json: Seq<char> },
    ToolResult { tool_use_id: Seq<char>, content: Seq<char>, is_error: bool },
    Attachment(Seq<char>),
    Unknown,
}

pub ghost struct MessageModel {
    pub index: nat,
    pub role: Role,
    pub uuid: Seq<char>,
    pub timestamp: Seq<char>,
    pub blocks: Seq<BlockModel>,
    pub stop_reason: Option<Seq<char>>,
}

pub ghost struct TranscriptModel {
    pub session_id: Seq<char>,
    pub project: Option<Seq<char>>,
    pub messages: Seq<MessageModel>,
}

pub open spec fn opt_str(o: Option<String>) -> Option<Seq<char>> {
    match o {
        Some(s) => Some(s@),
        None => None,
    }
}

impl View for Block {
    type V = BlockModel;

    open spec fn view(&self) -> BlockModel {
        match self {
            Block::Text(s) => BlockModel::Text(s@),
            Block::Thinking(s) => BlockModel::Thinking(s@),
            Block::ToolCall { id, name, input_json } => BlockModel::ToolCall {
                id: id@,
                name: name@,
                input_json: input_json@,
            },
            Block::ToolResult { tool_use_id, content, is_error } => BlockModel::ToolResult {
                tool_use_id: tool_use_id@,
                content: content@,
                is_error: *is_error,
            },
            Block::Attachment(s) => BlockModel::Attachment(s@),
            Block::Unknown => BlockModel::Unknown,
        }
    }
}

pub open spec fn blocks_view(v: Seq<Block>) -> Seq<BlockModel> {
    Seq::new(v.len(), |i: int| v[i]@)
}

impl View for Message {
    type V = MessageModel;

    open spec fn view(&self) -> MessageModel {
        MessageModel {
            index: self.index as nat,
            role: self.role,
            uuid: self.uuid@,
            timestamp: self.timestamp@,
            blocks: blocks_view(self.blocks@),
            stop_reason: opt_str(self.stop_reason),
        }
    }
}

pub open spec fn messages_view(v: Seq<Message>) -> Seq<MessageModel> {
    Seq::new(v.len(), |i: int| v[i]@)
}

impl View for Transcript {
    type V = TranscriptModel;

    open spec fn view(&self) -> TranscriptModel {
        TranscriptModel {
            session_id: self.session_id@,
            project: opt_str(self.project),
            messages: messages_view(self.messages@),
        }
    }
}

// ---------------------------------------------------------------------
// lowering, as spec
// ---------------------------------------------------------------------

/// Body text of one element of a `tool_result` array: the `text` of a
/// `{type:"text", text:...}` block, pretty JSON for anything else.
pub open spec fn item_text(item: Seq<char>) -> Seq<char> {
    if field_str(item, "type"@) == Some("text"@) {
        match field_str(item, "text"@) {
            Some(t) => t,
            None => spec_json_pretty(item),
        }
    } else {
        spec_json_pretty(item)
    }
}

/// Item texts joined with `\n`.
pub open spec fn join_items(items: Seq<Seq<char>>) -> Seq<char>
    decreases items.len(),
{
    if items.len() == 0 {
        Seq::empty()
    } else if items.len() == 1 {
        item_text(items[0])
    } else {
        join_items(items.drop_last()) + seq!['\n'] + item_text(items.last())
    }
}

/// Display string of a `tool_result.content` value: null is empty, a
/// string passes through, an array joins its items, anything else is
/// pretty JSON.
pub open spec fn flatten_content(v: Seq<char>) -> Seq<char> {
    match spec_json_parse(v) {
        Some(JsonNodeModel::Null) => Seq::empty(),
        Some(JsonNodeModel::Str(s)) => s,
        Some(JsonNodeModel::Array(items)) => join_items(items),
        _ => spec_json_pretty(v),
    }
}

/// One-line summary of an attachment value.
pub open spec fn summarize_attachment(v: Seq<char>) -> Seq<char> {
    if is_object(v) {
        let ty = match field_str(v, "type"@) {
            Some(t) => t,
            None => "attachment"@,
        };
        match field_str(v, "path"@) {
            Some(p) => ty + ": "@ + p,
            None => match field_str(v, "name"@) {
                Some(n) => ty + ": "@ + n,
                None => ty,
            },
        }
    } else {
        v
    }
}

pub open spec fn lower_block(b: ContentBlock) -> BlockModel {
    match b {
        ContentBlock::Text { text, .. } => BlockModel::Text(text@),
        ContentBlock::Thinking { thinking, .. } => BlockModel::Thinking(
            match thinking {
                Some(t) => t@,
                None => Seq::empty(),
            },
        ),
        ContentBlock::ToolUse { id, name, input, .. } => BlockModel::ToolCall {
            id: id@,
            name: name@,
            input_json: spec_json_pretty(input@),
        },
        ContentBlock::ToolResult { tool_use_id, content, is_error, .. } => BlockModel::ToolResult {
            tool_use_id: tool_use_id@,
            content: flatten_content(content@),
            is_error,
        },
        ContentBlock::Unknown => BlockModel::Unknown,
    }
}

pub open spec fn lower_content(c: MessageContent) -> Seq<BlockModel> {
    match c {
        MessageContent::Text(s) => if s@.len() == 0 {
            Seq::empty()
        } else {
            seq![BlockModel::Text(s@)]
        },
        MessageContent::Blocks(bs) => Seq::new(bs@.len(), |i: int| lower_block(bs@[i])),
    }
}

/// Words joined by one separator.
pub open spec fn join_with(parts: Seq<Seq<char>>, sep: Seq<char>) -> Seq<char>
    decreases parts.len(),
{
    if parts.len() == 0 {
        Seq::empty()
    } else if parts.len() == 1 {
        parts[0]
    } else {
        join_with(parts.drop_last(), sep) + sep + parts.last()
    }
}

/// `subtype`, `[level]` and `stop_reason=…` of a system event, in order.
pub open spec fn system_parts(se: SystemEvent) -> Seq<Seq<char>> {
    let a = match se.subtype {
        Some(s) => seq![s@],
        None => Seq::empty(),
    };
    let b = match se.level {
        Some(l) => seq!["["@ + l@ + "]"@],
        None => Seq::empty(),
    };
    let c = match se.stop_reason {
        Some(r) => seq!["stop_reason="@ + r@],
        None => Seq::empty(),
    };
    a + b + c
}

pub open spec fn push_message(
    t: TranscriptModel,
    role: Role,
    uuid: Seq<char>,
    timestamp: Seq<char>,
    blocks: Seq<BlockModel>,
    stop_reason: Option<Seq<char>>,
) -> TranscriptModel {
    TranscriptModel {
        messages: t.messages.push(
            MessageModel {
                index: t.messages.len(),
                role,
                uuid,
                timestamp,
                blocks,
                stop_reason,
            },
        ),
        ..t
    }
}

/// Session id and project are taken from the first event that has them.
pub open spec fn capture_meta(t: TranscriptModel, me: MessageEvent) -> TranscriptModel {
    TranscriptModel {
        session_id: if t.session_id.len() == 0 {
            me.session_id@
        } else {
            t.session_id
        },
        project: if t.project is None {
            opt_str(me.cwd)
        } else {
            t.project
        },
        ..t
    }
}

pub open spec fn with_session(t: TranscriptModel, sid: Seq<char>) -> TranscriptModel {
    TranscriptModel {
        session_id: if t.session_id.len() == 0 {
            sid
        } else {
            t.session_id
        },
        ..t
    }
}

pub open spec fn apply_message_event(t: TranscriptModel, me: MessageEvent, role: Role) -> TranscriptModel {
    let t1 = capture_meta(t, me);
    let blocks = lower_content(me.message.content);
    if me.is_sidechain || blocks.len() == 0 {
        t1
    } else {
        push_message(t1, role, me.uuid@, me.timestamp@, blocks, None)
    }
}

/// The effect of one event on a transcript.
pub open spec fn apply_event(t: TranscriptModel, ev: SessionEvent) -> TranscriptModel {
    match ev {
        SessionEvent::User(me) => apply_message_event(t, me, Role::User),
        SessionEvent::Assistant(me) => apply_message_event(t, me, Role::Assistant),
        SessionEvent::System(se) => {
            let t1 = with_session(t, se.session_id@);
            let parts = system_parts(se);
            if parts.len() == 0 {
                t1
            } else {
                push_message(
                    t1,
                    Role::System,
                    se.uuid@,
                    se.timestamp@,
                    seq![BlockModel::Text(join_with(parts, " "@))],
                    opt_str(se.stop_reason),
                )
            }
        },
        SessionEvent::Attachment(ae) => {
            let t1 = with_session(t, ae.session_id@);
            push_message(
                t1,
                Role::User,
                ae.uuid@,
                ae.timestamp@,
                seq![BlockModel::Attachment(summarize_attachment(ae.attachment@))],
                None,
            )
        },
        _ => t,
    }
}

/// The effect of a sequence of events, in order.
pub open spec fn apply_events(t: TranscriptModel, evs: Seq<SessionEvent>) -> TranscriptModel
    decreases evs.len(),
{
    if evs.len() == 0 {
        t
    } else {
        apply_event(apply_events(t, evs.drop_last()), evs.last())
    }
}

pub open spec fn empty_transcript() -> TranscriptModel {
    TranscriptModel { session_id: Seq::empty(), project: None, messages: Seq::empty() }
}

/// Message indices count up from 0 in order.
pub open spec fn indices_sequential(t: TranscriptModel) -> bool {
    forall|i: int| 0 <= i < t.messages.len() ==> (#[trigger] t.messages[i]).index == i
}

// ---------------------------------------------------------------------
// lowering, executable
// ---------------------------------------------------------------------

fn item_text_exec(item: &str) -> (r: String)
    ensures
        r@ == item_text(item@),
{
    let text_lit = owned("text");
    match get_field_str(item, "type") {
        Some(ty) => {
            if ty == text_lit {
                match get_field_str(item, "text") {
                    Some(t) => t,
                    None => json_pretty(item),
                }
            } else {
                json_pretty(item)
            }
        },
        None => json_pretty(item),
    }
}

/// Flatten a `tool_result.content` value (compact JSON text) into a
/// display string.
pub fn flatten_tool_result_content(v: &str) -> (r: String)
    ensures
        r@ == flatten_content(v@),
{
    match json_parse(v) {
        Some(JsonNode::Null) => String::new(),
        Some(JsonNode::Str(s)) => s,
        Some(JsonNode::Array(items)) => {
            let ghost iv = texts_view(items@);
            let mut out = String::new();
            let mut i: usize = 0;
            while i < items.len()
                invariant
                    i <= items.len(),
                    iv == texts_view(items@),
                    out@ == join_items(iv.take(i as int)),
                decreases items.len() - i,
            {
                let t = item_text_exec(items[i].as_str());
                proof {
                    let p = iv.take(i + 1);
                    assert(p.drop_last() =~= iv.take(i as int));
                    assert(p.last() == items@[i as int]@);
                    if i == 0 {
                        assert(iv.take(0) =~= Seq::<Seq<char>>::empty());
                    }
                }
                if i > 0 {
                    string_push(&mut out, '\n');
                }
                push_str(&mut out, t.as_str());
                i += 1;
            }
            assert(iv.take(items.len() as int) =~= iv);
            out
        },
        _ => json_pretty(v),
    }
}

/// One-line summary of an attachment value (compact JSON text).
pub fn summarize_attachment_exec(v: &str) -> (r: String)
    ensures
        r@ == summarize_attachment(v@),
{
    match json_parse(v) {
        Some(JsonNode::Object(_)) => {
            let mut ty = match get_field_str(v, "type") {
                Some(t) => t,
                None => owned("attachment"),
            };
            match get_field_str(v, "path") {
                Some(p) => {
                    push_str(&mut ty, ": ");
                    push_str(&mut ty, p.as_str());
                    ty
                },
                None => match get_field_str(v, "name") {
                    Some(n) => {
                        push_str(&mut ty, ": ");
                        push_str(&mut ty, n.as_str());
                        ty
                    },
                    None => ty,
                },
            }
        },
        _ => owned(v),
    }
}

fn lower_block_exec(b: ContentBlock) -> (r: Block)
    ensures
        r@ == lower_block(b),
{
    match b {
        ContentBlock::Text { text, .. } => Block::Text(text),
        ContentBlock::Thinking { thinking, .. } => Block::Thinking(
            match thinking {
                Some(t) => t,
                None => String::new(),
            },
        ),
        ContentBlock::ToolUse { id, name, input, .. } => {
            let input_json = json_pretty(input.as_str());
            Block::ToolCall { id, name, input_json }
        },
        ContentBlock::ToolResult { tool_use_id, content, is_error, .. } => {
            let c = flatten_tool_result_content(content.as_str());
            Block::ToolResult { tool_use_id, content: c, is_error }
        },
        ContentBlock::Unknown => Block::Unknown,
    }
}

fn lower_message_content(c: MessageContent) -> (r: Vec<Block>)
    ensures
        blocks_view(r@) == lower_content(c),
{
    match c {
        MessageContent::Text(s) => {
            let mut v: Vec<Block> = Vec::new();
            if !s.as_str().is_empty() {
                v.push(Block::Text(s));
            }
            proof {
                assert(blocks_view(v@) =~= lower_content(c));
            }
            v
        },
        MessageContent::Blocks(bs) => {
            let ghost src = bs@;
            let mut out: Vec<Block> = Vec::new();
            for b in it: bs
                invariant
                    it.seq() == src,
                    out@.len() == it.index(),
                    forall|j: int| 0 <= j < it.index() ==> (#[trigger] out@[j])@ == lower_block(src[j]),
            {
                let lb = lower_block_exec(b);
                out.push(lb);
            }
            proof {
                assert(blocks_view(out@) =~= lower_content(c));
            }
            out
        },
    }
}

/// Strings joined with `sep`.
pub fn join_strings(parts: &Vec<String>, sep: &str) -> (r: String)
    ensures
        r@ == join_with(texts_view(parts@), sep@),
{
    let ghost pv = texts_view(parts@);
    let mut out = String::new();
    let mut i: usize = 0;
    while i < parts.len()
        invariant
            i <= parts.len(),
            pv == texts_view(parts@),
            out@ == join_with(pv.take(i as int), sep@),
        decreases parts.len() - i,
    {
        proof {
            let p = pv.take(i + 1);
            assert(p.drop_last() =~= pv.take(i as int));
            if i == 0 {
                assert(pv.take(0) =~= Seq::<Seq<char>>::empty());
            }
        }
        if i > 0 {
            push_str(&mut out, sep);
        }
        push_str(&mut out, parts[i].as_str());
        i += 1;
    }
    assert(pv.take(parts.len() as int) =~= pv);
    out
}

fn system_text(se: &SystemEvent) -> (r: Option<String>)
    ensures
        match r {
            Some(s) => system_parts(*se).len() > 0 && s@ == join_with(system_parts(*se), " "@),
            None => system_parts(*se).len() == 0,
        },
{
    let mut parts: Vec<String> = Vec::new();
    if let Some(sub) = &se.subtype {
        parts.push(sub.clone());
    }
    if let Some(level) = &se.level {
        let mut p = owned("[");
        push_str(&mut p, level.as_str());
        push_str(&mut p, "]");
        parts.push(p);
    }
    if let Some(reason) = &se.stop_reason {
        let mut p = owned("stop_reason=");
        push_str(&mut p, reason.as_str());
        parts.push(p);
    }
    proof {
        assert(texts_view(parts@) =~= system_parts(*se));
    }
    if parts.len() == 0 {
        None
    } else {
        Some(join_strings(&parts, " "))
    }
}

impl Transcript {
    /// An empty transcript (no session id, no project, no messages).
    pub fn new() -> (t: Transcript)
        ensures
            t@ == empty_transcript(),
    {
        let t = Transcript { session_id: String::new(), project: None, messages: Vec::new() };
        assert(t@.messages =~= Seq::<MessageModel>::empty());
        t
    }

    fn set_session_if_empty(&mut self, sid: &String)
        ensures
            final(self)@ == with_session(old(self)@, sid@),
            final(self).messages@ == old(self).messages@,
    {
        if self.session_id.as_str().is_empty() {
            self.session_id = sid.clone();
        }
    }

    fn push_msg(
        &mut self,
        role: Role,
        uuid: String,
        timestamp: String,
        blocks: Vec<Block>,
        stop_reason: Option<String>,
    )
        ensures
            final(self)@ == push_message(
                old(self)@,
                role,
                uuid@,
                timestamp@,
                blocks_view(blocks@),
                opt_str(stop_reason),
            ),
    {
        let index = self.messages.len();
        let m = Message { index, role, uuid, timestamp, blocks, stop_reason };
        let ghost before = self@;
        self.messages.push(m);
        assert(self@.messages =~= before.messages.push(m@));
    }

    fn apply_message(&mut self, me: MessageEvent, role: Role)
        ensures
            final(self)@ == apply_message_event(old(self)@, me, role),
    {
        let ghost me0 = me;
        if self.session_id.as_str().is_empty() {
            self.session_id = me.session_id.clone();
        }
        if self.project.is_none() {
            if let Some(cwd) = &me.cwd {
                self.project = Some(cwd.clone());
            }
        }
        assert(self@ == capture_meta(old(self)@, me0));
        if me.is_sidechain {
            return;
        }
        let MessageEvent { uuid, timestamp, message, .. } = me;
        let blocks = lower_message_content(message.content);
        if blocks.len() == 0 {
            return;
        }
        self.push_msg(role, uuid, timestamp, blocks, None);
    }

    /// Lower `ev` into this transcript.
    pub fn apply(&mut self, ev: SessionEvent)
        ensures
            final(self)@ == apply_event(old(self)@, ev),
    {
        match ev {
            SessionEvent::User(me) => self.apply_message(me, Role::User),
            SessionEvent::Assistant(me) => self.apply_message(me, Role::Assistant),
            SessionEvent::System(se) => {
                self.set_session_if_empty(&se.session_id);
                match system_text(&se) {
                    Some(text) => {
                        let mut blocks: Vec<Block> = Vec::new();
                        blocks.push(Block::Text(text));
                        assert(blocks_view(blocks@) =~= seq![
                            BlockModel::Text(join_with(system_parts(se), " "@)),
                        ]);
                        let SystemEvent { uuid, timestamp, stop_reason, .. } = se;
                        self.push_msg(Role::System, uuid, timestamp, blocks, stop_reason);
                    },
                    None => {},
                }
            },
            SessionEvent::Attachment(ae) => {
                self.set_session_if_empty(&ae.session_id);
                let summary = summarize_attachment_exec(ae.attachment.as_str());
                let mut blocks: Vec<Block> = Vec::new();
                blocks.push(Block::Attachment(summary));
                assert(blocks_view(blocks@) =~= seq![
                    BlockModel::Attachment(summarize_attachment(ae.attachment@)),
                ]);
                let AttachmentEvent { uuid, timestamp, .. } = ae;
                self.push_msg(Role::User, uuid, timestamp, blocks, None);
            },
            _ => {},
        }
    }

    /// Lower `events`, in order, into this transcript. New messages are
    /// numbered on from the current message count.
    pub fn append_events(&mut self, events: Vec<SessionEvent>)
        ensures
            final(self)@ == apply_events(old(self)@, events@),
    {
        let ghost start = self@;
        let ghost evs = events@;
        for ev in it: events
            invariant
                it.seq() == evs,
                self@ == apply_events(start, evs.take(it.index() as int)),
        {
            proof {
                let k = it.index() as int;
                assert(evs.take(k + 1).drop_last() =~= evs.take(k));
                assert(evs.take(k + 1).last() == evs[k]);
            }
            self.apply(ev);
        }
        assert(evs.take(evs.len() as int) =~= evs);
    }
}

/// Build a [`Transcript`] from a stream of parsed events.
///
/// * Drops sidechain messages and opaque telemetry.
/// * Takes `session_id` and `project` (`cwd`) from the first event that
///   carries them.
pub fn from_events(events: Vec<SessionEvent>) -> (t: Transcript)
    ensures
        t@ == apply_events(empty_transcript(), events@),
{
    let mut t = Transcript::new();
    t.append_events(events);
    t
}

/// Why a session file gave no transcript.
#[derive(Debug, Clone, Copy, PartialEq, Eq, Structural)]
pub enum LoadError {
    /// The file has lines, and not one of them is a valid event.
    NoValidEvents,
}

/// A transcript from the lines of a session file, given the number of
/// non-blank lines and the events that parsed: an empty file gives an
/// empty transcript, but a file whose every line failed to parse is an
/// error rather than a silently empty transcript.
pub fn transcript_from_lines(nonblank_lines: usize, events: Vec<SessionEvent>) -> (r: Result<Transcript, LoadError>)
    ensures
        match r {
            Ok(t) => !(nonblank_lines > 0 && events@.len() == 0) && t@ == apply_events(
                empty_transcript(),
                events@,
            ),
            Err(e) => nonblank_lines > 0 && events@.len() == 0 && e == LoadError::NoValidEvents,
        },
{
    if nonblank_lines > 0 && events.len() == 0 {
        return Err(LoadError::NoValidEvents);
    }
    Ok(from_events(events))
}

} // verus!

verus! {

/// One event keeps every earlier message and adds at most one.
pub proof fn lemma_apply_event_prefix(t: TranscriptModel, ev: SessionEvent)
    ensures
        apply_event(t, ev).messages.len() == t.messages.len() || apply_event(t, ev).messages.len()
            == t.messages.len() + 1,
        apply_event(t, ev).messages.take(t.messages.len() as int) == t.messages,
{
    let r = apply_event(t, ev);
    assert(r.messages.take(t.messages.len() as int) =~= t.messages);
}

/// Applying events never changes or drops a message that is already
/// there: old messages are a prefix of the new ones.
pub proof fn lemma_apply_events_prefix(t: TranscriptModel, evs: Seq<SessionEvent>)
    ensures
        apply_events(t, evs).messages.len() >= t.messages.len(),
        apply_events(t, evs).messages.take(t.messages.len() as int) == t.messages,
    decreases evs.len(),
{
    if evs.len() > 0 {
        lemma_apply_events_prefix(t, evs.drop_last());
        let mid = apply_events(t, evs.drop_last());
        lemma_apply_event_prefix(mid, evs.last());
        let r = apply_events(t, evs);
        assert(r.messages.take(t.messages.len() as int) =~= mid.messages.take(
            t.messages.len() as int,
        ));
    } else {
        assert(t.messages.take(t.messages.len() as int) =~= t.messages);
    }
}

/// Feeding events in two batches builds the same transcript as feeding
/// them all at once: what live tailing appends matches a fresh load.
pub proof fn law_apply_events_concat(t: TranscriptModel, a: Seq<SessionEvent>, b: Seq<SessionEvent>)
    ensures
        apply_events(t, a + b) == apply_events(apply_events(t, a), b),
    decreases b.len(),
{
    if b.len() == 0 {
        assert(a + b =~= a);
    } else {
        assert((a + b).drop_last() =~= a + b.drop_last());
        assert((a + b).last() == b.last());
        law_apply_events_concat(t, a, b.drop_last());
    }
}

/// Messages are numbered in order from 0: every event keeps the
/// numbering sequential, so a transcript built from events has message
/// `i` at index `i`.
pub proof fn law_indices_sequential(t: TranscriptModel, evs: Seq<SessionEvent>)
    requires
        indices_sequential(t),
    ensures
        indices_sequential(apply_events(t, evs)),
    decreases evs.len(),
{
    if evs.len() > 0 {
        law_indices_sequential(t, evs.drop_last());
        let mid = apply_events(t, evs.drop_last());
        let r = apply_events(t, evs);
        lemma_apply_event_prefix(mid, evs.last());
        assert forall|i: int| 0 <= i < r.messages.len() implies (#[trigger] r.messages[i]).index
            == i by {
            if i < mid.messages.len() {
                assert(r.messages[i] == r.messages.take(mid.messages.len() as int)[i]);
            }
        }
    }
}

/// A transcript built from events numbers its messages 0, 1, 2, ...
pub proof fn law_from_events_indices(evs: Seq<SessionEvent>)
    ensures
        indices_sequential(apply_events(empty_transcript(), evs)),
{
    law_indices_sequential(empty_transcript(), evs);
}

} // verus!
