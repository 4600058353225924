//! Event model for the JSONL session files of a coding agent.
//!
//! Only the events that are rendered (`user`, `assistant`, `system`,
//! `attachment`) carry typed fields. The rest keep their payload as
//! compact JSON text so nothing is dropped. Unknown fields of the typed
//! events are kept in `extra` as `(name, compact JSON text)` pairs.
//! Decoding a line into this model is done at the edge of the program.

use vstd::prelude::*;

verus! {

/// A single line of a session file.
pub enum SessionEvent {
    User(MessageEvent),
    Assistant(MessageEvent),
    System(SystemEvent),
    Attachment(AttachmentEvent),
    Progress(String),
    QueueOperation(String),
    LastPrompt(String),
    FileHistorySnapshot(String),
    PrLink(String),
    PermissionMode(String),
    CustomTitle(String),
    AgentName(String),
    Unknown,
}

/// Envelope shared by `user` and `assistant` events.
pub struct MessageEvent {
    pub uuid: String,
    pub parent_uuid: Option<String>,
    pub session_id: String,
    pub timestamp: String,
    pub is_sidechain: bool,
    pub cwd: Option<String>,
    pub git_branch: Option<String>,
    pub version: Option<String>,
    pub message: Message,
    pub extra: Vec<(String, String)>,
}

pub struct Message {
    /// Absent on the `remote-bridge` variant.
    pub role: Option<String>,
    pub content: MessageContent,
    pub extra: Vec<(String, String)>,
}

/// `user` content may be a bare string; otherwise a list of blocks.
pub enum MessageContent {
    Text(String),
    Blocks(Vec<ContentBlock>),
}

pub enum ContentBlock {
    Text { text: String, extra: Vec<(String, String)> },
    Thinking { thinking: Option<String>, extra: Vec<(String, String)> },
    /// `input` is compact JSON text (`null` when absent).
    ToolUse { id: String, name: String, input: String, extra: Vec<(String, String)> },
    /// `content` is compact JSON text (`null` when absent).
    ToolResult {
        tool_use_id: String,
        content: String,
        is_error: bool,
        extra: Vec<(String, String)>,
    },
    Unknown,
}

pub struct SystemEvent {
    pub uuid: String,
    pub session_id: String,
    pub timestamp: String,
    pub parent_uuid: Option<String>,
    pub level: Option<String>,
    pub subtype: Option<String>,
    pub tool_use_id: Option<String>,
    pub stop_reason: Option<String>,
    pub extra: Vec<(String, String)>,
}

pub struct AttachmentEvent {
    pub uuid: String,
    pub session_id: String,
    pub timestamp: String,
    pub parent_uuid: Option<String>,
    /// Compact JSON text of the attachment.
    pub attachment: String,
    pub extra: Vec<(String, String)>,
}

} // verus!
