//! Plain-text rendering of one [`Message`] for the `y` (yank) key.
//!
//! Text blocks copy as their raw markdown source, tool calls as their
//! pretty JSON, tool results as their plain content, attachments and
//! unknown blocks as a short labelled line. Blocks are joined with a blank
//! line.

use vstd::prelude::*;

use crate::text::{owned, push_str};
use crate::transcript::{join_with, Block, BlockModel, Message, MessageModel, Role};

verus! {

pub open spec fn role_name(r: Role) -> Seq<char> {
    match r {
        Role::User => "user"@,
        Role::Assistant => "assistant"@,
        Role::System => "system"@,
    }
}

/// Copyable text of one block.
pub open spec fn block_text(b: BlockModel) -> Seq<char> {
    match b {
        BlockModel::Text(s) => s,
        BlockModel::Thinking(s) => "[thinking]\n"@ + s,
        BlockModel::ToolCall { name, input_json, .. } => "[tool call: "@ + name + "]\n"@
            + input_json,
        BlockModel::ToolResult { content, is_error, .. } => if is_error {
            "[tool result — error]\n"@ + content
        } else {
            "[tool result]\n"@ + content
        },
        BlockModel::Attachment(s) => "[attachment] "@ + s,
        BlockModel::Unknown => "[unknown block]"@,
    }
}

/// Role label, ` @ timestamp` when there is one, a newline, then the
/// blocks joined with a blank line.
pub open spec fn yank_text(m: MessageModel) -> Seq<char> {
    let head = if m.timestamp.len() == 0 {
        role_name(m.role)
    } else {
        role_name(m.role) + " @ "@ + m.timestamp
    };
    head + "\n"@ + join_with(Seq::new(m.blocks.len(), |i: int| block_text(m.blocks[i])), "\n\n"@)
}

/// Label of a role as shown to the user.
pub fn role_label(role: Role) -> (s: &'static str)
    ensures
        s@ == role_name(role),
{
    match role {
        Role::User => "user",
        Role::Assistant => "assistant",
        Role::System => "system",
    }
}

fn push_block(out: &mut String, b: &Block)
    ensures
        final(out)@ == old(out)@ + block_text(b@),
{
    match b {
        Block::Text(s) => push_str(out, s.as_str()),
        Block::Thinking(s) => {
            push_str(out, "[thinking]\n");
            push_str(out, s.as_str());
        },
        Block::ToolCall { name, input_json, .. } => {
            push_str(out, "[tool call: ");
            push_str(out, name.as_str());
            push_str(out, "]\n");
            push_str(out, input_json.as_str());
        },
        Block::ToolResult { content, is_error, .. } => {
            if *is_error {
                push_str(out, "[tool result — error]\n");
            } else {
                push_str(out, "[tool result]\n");
            }
            push_str(out, content.as_str());
        },
        Block::Attachment(s) => {
            push_str(out, "[attachment] ");
            push_str(out, s.as_str());
        },
        Block::Unknown => push_str(out, "[unknown block]"),
    }
}

/// Format `message` as copyable plain text.
pub fn format_message(message: &Message) -> (s: String)
    ensures
        s@ == yank_text(message@),
{
    let ghost m = message@;
    let ghost texts = Seq::new(m.blocks.len(), |i: int| block_text(m.blocks[i]));
    let mut out = owned(role_label(message.role));
    if !message.timestamp.as_str().is_empty() {
        push_str(&mut out, " @ ");
        push_str(&mut out, message.timestamp.as_str());
    }
    push_str(&mut out, "\n");
    let ghost head = out@;
    let mut i: usize = 0;
    while i < message.blocks.len()
        invariant
            i <= message.blocks.len(),
            m == message@,
            texts == Seq::new(m.blocks.len(), |i: int| block_text(m.blocks[i])),
            out@ == head + join_with(texts.take(i as int), "\n\n"@),
        decreases message.blocks.len() - i,
    {
        proof {
            let p = texts.take(i + 1);
            assert(p.drop_last() =~= texts.take(i as int));
            assert(p.last() == block_text(message.blocks@[i as int]@));
            if i == 0 {
                assert(texts.take(0) =~= Seq::<Seq<char>>::empty());
            }
        }
        if i > 0 {
            push_str(&mut out, "\n\n");
        }
        push_block(&mut out, &message.blocks[i]);
        i += 1;
    }
    assert(texts.take(message.blocks.len() as int) =~= texts);
    out
}

} // verus!
