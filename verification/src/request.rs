//! Preparation of the outbound request to the editor model.
//!
//! Before a session starts, the running conversation is made well formed
//! again: the trailing tool invocation that started this very run is
//! removed (a request may not end with an unanswered tool use), and the
//! edit prompt plus the caller's instructions are appended as one user
//! message.

use vstd::prelude::*;

use vstd::string::StringExecFns;

verus! {

/// One piece of a conversation message.
pub enum MessageContent {
    /// Plain text.
    Text(String),
    /// An image; its bytes stay with the host.
    Image,
    /// A tool invocation, by the identifier the host assigned it.
    ToolUse(String),
    /// The result of a tool invocation, by the same identifier.
    ToolResult(String),
}

/// Who speaks a message.
#[derive(Clone, Copy, Debug, PartialEq, Eq, Structural)]
pub enum Role {
    System,
    User,
    Assistant,
}

/// One message of the running conversation.
pub struct RequestMessage {
    pub role: Role,
    pub content: Vec<MessageContent>,
    pub cache: bool,
}

/// The specification view of a message piece.
pub enum ContentV {
    Text(Seq<char>),
    Image,
    ToolUse(Seq<char>),
    ToolResult(Seq<char>),
}

/// The specification view of a message.
#[verifier::ext_equal]
pub struct MessageV {
    pub role: Role,
    pub content: Seq<ContentV>,
    pub cache: bool,
}

impl View for MessageContent {
    type V = ContentV;

    open spec fn view(&self) -> ContentV {
        match self {
            MessageContent::Text(s) => ContentV::Text(s@),
            MessageContent::Image => ContentV::Image,
            MessageContent::ToolUse(s) => ContentV::ToolUse(s@),
            MessageContent::ToolResult(s) => ContentV::ToolResult(s@),
        }
    }
}

/// The views of a message's pieces.
pub open spec fn content_views(c: Seq<MessageContent>) -> Seq<ContentV> {
    c.map_values(|x: MessageContent| x@)
}

impl View for RequestMessage {
    type V = MessageV;

    open spec fn view(&self) -> MessageV {
        MessageV { role: self.role, content: content_views(self.content@), cache: self.cache }
    }
}

/// The views of a conversation's messages.
pub open spec fn message_views(ms: Seq<RequestMessage>) -> Seq<MessageV> {
    ms.map_values(|m: RequestMessage| m@)
}

/// A piece that ends the backward search: a tool use or a tool result.
pub open spec fn is_marker(c: ContentV) -> bool {
    c is ToolUse || c is ToolResult
}

/// The index of the last tool use or tool result in a message, if any.
pub open spec fn last_marker(content: Seq<ContentV>) -> Option<int>
    decreases content.len(),
{
    if content.len() == 0 {
        None
    } else if is_marker(content.last()) {
        Some(content.len() - 1)
    } else {
        last_marker(content.drop_last())
    }
}

/// What stripping the trailing tool use leaves: walking the messages from
/// the end, the first tool use or tool result found (scanning each
/// message's content from the end) decides — a tool use is removed, a tool
/// result means the request is already well formed, and a conversation
/// without either is left unchanged.
pub open spec fn strip_spec(ms: Seq<MessageV>) -> Seq<MessageV>
    decreases ms.len(),
{
    if ms.len() == 0 {
        ms
    } else {
        let m = ms.last();
        match last_marker(m.content) {
            Some(j) => {
                if m.content[j] is ToolUse {
                    ms.update(
                        ms.len() - 1,
                        MessageV { role: m.role, content: m.content.remove(j), cache: m.cache },
                    )
                } else {
                    ms
                }
            },
            None => strip_spec(ms.drop_last()).push(m),
        }
    }
}

/// The fixed instructions handed to the editor model together with the
/// caller's edit instructions.  They fix the block grammar the parser
/// recognizes, marker for marker.
pub open spec fn edit_prompt() -> Seq<char> {
    "Reply only with edit blocks, one per change. Name the file on its own line, then an edit block. To replace text, send the line <<<<<<< SEARCH, the exact lines to find, the line =======, the replacement lines, and the line >>>>>>> REPLACE. To rewrite a whole file, send the line <<<<<<< WRITE, the full new content, and the line >>>>>>> WRITE. The SEARCH lines must match the file exactly, including whitespace and comments."@
}

/// A scan from the end that stopped at `j` has found the last marker.
proof fn lemma_last_marker_at(content: Seq<ContentV>, j: int)
    requires
        0 <= j < content.len(),
        is_marker(content[j]),
        forall|k: int| j < k < content.len() ==> !is_marker(#[trigger] content[k]),
    ensures
        last_marker(content) == Some(j),
    decreases content.len(),
{
    if j == content.len() - 1 {
    } else {
        assert(!is_marker(content.last()));
        lemma_last_marker_at(content.drop_last(), j);
    }
}

/// A message without tool uses or tool results has no marker.
proof fn lemma_last_marker_none(content: Seq<ContentV>)
    requires
        forall|k: int| 0 <= k < content.len() ==> !is_marker(#[trigger] content[k]),
    ensures
        last_marker(content) is None,
    decreases content.len(),
{
    if content.len() == 0 {
    } else {
        lemma_last_marker_none(content.drop_last());
    }
}

/// Removes the trailing unanswered tool use from the conversation, if one
/// is there, exactly as [`strip_spec`] describes.
pub fn strip_trailing_tool_use(messages: &mut Vec<RequestMessage>)
    ensures
        message_views(final(messages)@) == strip_spec(message_views(old(messages)@)),
{
    let ghost orig = message_views(messages@);
    let mut mi: usize = messages.len();
    proof {
        assert(orig.take(mi as int) =~= orig);
        assert(orig.skip(mi as int) =~= Seq::<MessageV>::empty());
        assert(strip_spec(orig) =~= strip_spec(orig.take(mi as int)) + orig.skip(mi as int));
    }
    while mi > 0
        invariant
            mi <= messages@.len(),
            orig == message_views(old(messages)@),
            message_views(messages@) == orig,
            strip_spec(orig) == strip_spec(orig.take(mi as int)) + orig.skip(mi as int),
        decreases mi,
    {
        let clen = messages[mi - 1].content.len();
        proof {
            assert(orig[mi - 1] == messages@[mi - 1]@);
        }
        let mut cj: usize = clen;
        let mut found = false;
        let mut use_found = false;
        while cj > 0 && !found
            invariant
                cj <= clen,
                mi >= 1,
                mi <= messages@.len(),
                message_views(messages@) == orig,
                clen == orig[mi - 1].content.len(),
                !found ==> !use_found,
                !found ==> forall|k: int|
                    cj <= k < clen ==> !is_marker(#[trigger] orig[mi - 1].content[k]),
                found ==> cj >= 1 && is_marker(orig[mi - 1].content[cj - 1]) && (forall|k: int|
                    cj <= k < clen ==> !is_marker(#[trigger] orig[mi - 1].content[k])),
                found ==> use_found == (orig[mi - 1].content[cj - 1] is ToolUse),
            decreases cj + if found {
                0int
            } else {
                1int
            },
        {
            proof {
                assert(orig[mi - 1] == messages@[mi - 1]@);
                assert(orig[mi - 1].content[cj - 1] == messages@[mi - 1].content@[cj - 1]@);
            }
            match &messages[mi - 1].content[cj - 1] {
                MessageContent::ToolUse(_) => {
                    proof {
                        assert(orig[mi - 1].content[cj - 1] is ToolUse);
                    }
                    found = true;
                    use_found = true;
                },
                MessageContent::ToolResult(_) => {
                    proof {
                        assert(orig[mi - 1].content[cj - 1] is ToolResult);
                    }
                    found = true;
                },
                MessageContent::Text(_) => {
                    proof {
                        assert(!is_marker(orig[mi - 1].content[cj - 1]));
                    }
                    cj = cj - 1;
                },
                MessageContent::Image => {
                    proof {
                        assert(!is_marker(orig[mi - 1].content[cj - 1]));
                    }
                    cj = cj - 1;
                },
            }
        }
        if found {
            proof {
                lemma_last_marker_at(orig[mi - 1].content, cj - 1);
                assert(orig.take(mi as int).last() == orig[mi - 1]);
                assert(orig.take(mi as int).len() == mi);
            }
            if use_found {
                let ghost mexec = messages@[mi - 1];
                let mut slot = RequestMessage { role: Role::User, content: Vec::new(), cache: false };
                messages.set_and_swap(mi - 1, &mut slot);
                slot.content.remove(cj - 1);
                let ghost slot_after = slot;
                messages.set_and_swap(mi - 1, &mut slot);
                proof {
                    let m = orig[mi - 1];
                    let stripped = MessageV {
                        role: m.role,
                        content: m.content.remove(cj - 1),
                        cache: m.cache,
                    };
                    assert(slot_after.content@ == mexec.content@.remove(cj - 1));
                    assert(content_views(mexec.content@.remove(cj - 1)) =~= m.content.remove(
                        cj - 1,
                    ));
                    assert(slot_after@ =~= stripped);
                    assert(message_views(messages@) =~= orig.update(mi - 1, stripped));
                    assert(strip_spec(orig.take(mi as int)) =~= orig.take(mi as int).update(
                        mi - 1,
                        stripped,
                    ));
                    assert(strip_spec(orig.take(mi as int)) + orig.skip(mi as int) =~= orig.update(
                        mi - 1,
                        stripped,
                    ));
                    assert(message_views(messages@) == strip_spec(orig));
                }
            } else {
                proof {
                    assert(strip_spec(orig.take(mi as int)) == orig.take(mi as int));
                    assert(orig.take(mi as int) + orig.skip(mi as int) =~= orig);
                    assert(message_views(messages@) == strip_spec(orig));
                }
            }
            return ;
        }
        proof {
            lemma_last_marker_none(orig[mi - 1].content);
            assert(orig.take(mi as int).last() == orig[mi - 1]);
            assert(orig.take(mi as int).drop_last() =~= orig.take(mi - 1));
            assert(strip_spec(orig.take(mi - 1)).push(orig[mi - 1]) + orig.skip(mi as int)
                =~= strip_spec(orig.take(mi - 1)) + orig.skip(mi - 1));
        }
        mi = mi - 1;
    }
    proof {
        assert(orig.take(0) =~= Seq::<MessageV>::empty());
        assert(strip_spec(Seq::<MessageV>::empty()) + orig.skip(0) =~= orig);
    }
}

/// Builds the outbound conversation for one edit run: strips the trailing
/// tool use and appends one user message holding the edit prompt and the
/// caller's instructions, uncached.
pub fn prepare_request_messages(messages: &mut Vec<RequestMessage>, instructions: String)
    ensures
        message_views(final(messages)@) == strip_spec(message_views(old(messages)@)).push(
            MessageV {
                role: Role::User,
                content: seq![
                    ContentV::Text(edit_prompt()),
                    ContentV::Text(instructions@),
                ],
                cache: false,
            },
        ),
{
    strip_trailing_tool_use(messages);
    let ghost stripped = message_views(messages@);
    let mut content: Vec<MessageContent> = Vec::new();
    content.push(
        MessageContent::Text(
            String::from_str(
                "Reply only with edit blocks, one per change. Name the file on its own line, then an edit block. To replace text, send the line <<<<<<< SEARCH, the exact lines to find, the line =======, the replacement lines, and the line >>>>>>> REPLACE. To rewrite a whole file, send the line <<<<<<< WRITE, the full new content, and the line >>>>>>> WRITE. The SEARCH lines must match the file exactly, including whitespace and comments.",
            ),
        ),
    );
    content.push(MessageContent::Text(instructions));
    let message = RequestMessage { role: Role::User, content, cache: false };
    let ghost mv = message@;
    messages.push(message);
    proof {
        assert(mv.content =~= seq![ContentV::Text(edit_prompt()), ContentV::Text(instructions@)]);
        assert(message_views(messages@) =~= stripped.push(mv));
    }
}

} // verus!
