//! Messages, the tool calls they carry, and the transcript items that hold
//! them.

use crate::json::{copy_entries, entries_view, Json, Value};
use crate::text::opt_view;
use vstd::prelude::*;

verus! {

/// Who a message is from.
#[derive(Clone, Copy, Debug, PartialEq, Eq, Structural)]
pub enum MessageRole {
    User,
    Assistant,
    System,
    Tool,
}

/// One call a model asked for. `args` is the raw JSON of its arguments.
pub struct ToolCall {
    pub id: String,
    pub name: String,
    pub args: String,
}

/// What a [`ToolCall`] stands for.
#[verifier::ext_equal]
pub struct CallView {
    pub id: Seq<char>,
    pub name: Seq<char>,
    pub args: Seq<char>,
}

impl View for ToolCall {
    type V = CallView;

    open spec fn view(&self) -> CallView {
        CallView { id: self.id@, name: self.name@, args: self.args@ }
    }
}

/// One turn of a conversation.
pub struct Message {
    pub role: MessageRole,
    pub content: String,
    pub attachments: Vec<Json>,
    pub tool_calls: Vec<ToolCall>,
    pub tool_call_id: Option<String>,
    pub metadata: Vec<(String, Json)>,
}

/// What a [`Message`] stands for.
#[verifier::ext_equal]
pub struct MessageView {
    pub role: MessageRole,
    pub content: Seq<char>,
    pub attachments: Seq<Value>,
    pub tool_calls: Seq<CallView>,
    pub tool_call_id: Option<Seq<char>>,
    pub metadata: Seq<(Seq<char>, Value)>,
}

impl View for Message {
    type V = MessageView;

    open spec fn view(&self) -> MessageView {
        MessageView {
            role: self.role,
            content: self.content@,
            attachments: self.attachments@.map_values(|a: Json| a@),
            tool_calls: calls_view(self.tool_calls@),
            tool_call_id: opt_view(self.tool_call_id),
            metadata: entries_view(self.metadata@),
        }
    }
}

/// The calls of a list.
pub open spec fn calls_view(calls: Seq<ToolCall>) -> Seq<CallView> {
    calls.map_values(|c: ToolCall| c@)
}

/// The messages of a list.
pub open spec fn messages_view(messages: Seq<Message>) -> Seq<MessageView> {
    messages.map_values(|m: Message| m@)
}

/// A message of nothing but text.
pub open spec fn plain_message(role: MessageRole, content: Seq<char>) -> MessageView {
    MessageView {
        role,
        content,
        attachments: Seq::empty(),
        tool_calls: Seq::empty(),
        tool_call_id: None,
        metadata: Seq::empty(),
    }
}

/// How far a tool may reach.
#[derive(Clone, Copy, Debug, PartialEq, Eq, Structural)]
pub enum SandboxMode {
    WorkspaceWrite,
    FullAccess,
}

/// A tool offered to the model: what it is called, what it does, the schema of
/// its arguments, how far it may reach and how long it may take.
pub struct ToolSpec {
    pub name: String,
    pub description: String,
    pub input_schema: Json,
    pub sandbox: SandboxMode,
    pub timeout_ms: Option<u64>,
}

/// What a [`ToolSpec`] stands for.
#[verifier::ext_equal]
pub struct ToolView {
    pub name: Seq<char>,
    pub description: Seq<char>,
    pub input_schema: Value,
    pub sandbox: SandboxMode,
    pub timeout_ms: Option<u64>,
}

impl View for ToolSpec {
    type V = ToolView;

    open spec fn view(&self) -> ToolView {
        ToolView {
            name: self.name@,
            description: self.description@,
            input_schema: self.input_schema@,
            sandbox: self.sandbox,
            timeout_ms: self.timeout_ms,
        }
    }
}

/// The tools of a list.
pub open spec fn tools_view(tools: Seq<ToolSpec>) -> Seq<ToolView> {
    tools.map_values(|t: ToolSpec| t@)
}

/// One entry of a transcript: a message and what the runtime knows about it.
pub struct Item {
    pub message: Message,
    pub metadata: Vec<(String, Json)>,
}

/// What an [`Item`] stands for.
#[verifier::ext_equal]
pub struct ItemView {
    pub message: MessageView,
    pub metadata: Seq<(Seq<char>, Value)>,
}

impl View for Item {
    type V = ItemView;

    open spec fn view(&self) -> ItemView {
        ItemView { message: self.message@, metadata: entries_view(self.metadata@) }
    }
}

/// The items of a list.
pub open spec fn items_view(items: Seq<Item>) -> Seq<ItemView> {
    items.map_values(|i: Item| i@)
}

/// A conversation as it was recorded, oldest first.
pub struct Transcript {
    pub items: Vec<Item>,
}

impl View for Transcript {
    type V = Seq<ItemView>;

    open spec fn view(&self) -> Seq<ItemView> {
        items_view(self.items@)
    }
}

impl ToolCall {
    /// Copies a call.
    pub fn copy(&self) -> (out: ToolCall)
        ensures
            out@ == self@,
    {
        ToolCall { id: self.id.clone(), name: self.name.clone(), args: self.args.clone() }
    }
}

impl Message {
    /// A message of nothing but text.
    pub fn text(role: MessageRole, content: &str) -> (out: Message)
        ensures
            out@ == plain_message(role, content@),
    {
        let out = Message {
            role,
            content: content.to_owned(),
            attachments: Vec::new(),
            tool_calls: Vec::new(),
            tool_call_id: None,
            metadata: Vec::new(),
        };
        assert(out@ =~= plain_message(role, content@));
        out
    }

    /// Copies a message.
    pub fn copy(&self) -> (out: Message)
        ensures
            out@ == self@,
    {
        let mut attachments: Vec<Json> = Vec::new();
        let mut i: usize = 0;
        while i < self.attachments.len()
            invariant
                i <= self.attachments@.len(),
                attachments@.len() == i,
                forall|k: int| 0 <= k < i ==> (#[trigger] attachments@[k])@ == self.attachments@[k]@,
            decreases self.attachments@.len() - i,
        {
            attachments.push(self.attachments[i].copy());
            i = i + 1;
        }
        let mut tool_calls: Vec<ToolCall> = Vec::new();
        let mut j: usize = 0;
        while j < self.tool_calls.len()
            invariant
                j <= self.tool_calls@.len(),
                tool_calls@.len() == j,
                forall|k: int| 0 <= k < j ==> (#[trigger] tool_calls@[k])@ == self.tool_calls@[k]@,
            decreases self.tool_calls@.len() - j,
        {
            tool_calls.push(self.tool_calls[j].copy());
            j = j + 1;
        }
        let tool_call_id = match &self.tool_call_id {
            Some(id) => Some(id.clone()),
            None => None,
        };
        let out = Message {
            role: self.role,
            content: self.content.clone(),
            attachments,
            tool_calls,
            tool_call_id,
            metadata: copy_entries(&self.metadata),
        };
        assert(out@ =~= self@);
        out
    }
}

impl Item {
    /// Copies an item.
    pub fn copy(&self) -> (out: Item)
        ensures
            out@ == self@,
    {
        let out = Item { message: self.message.copy(), metadata: copy_entries(&self.metadata) };
        assert(out@ =~= self@);
        out
    }
}

} // verus!
