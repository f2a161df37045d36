//! Estimating how much of the context window a request will occupy.
//!
//! A heuristic with two rates: four ASCII characters to a token, and one token
//! to every other character.

use crate::json::compact_text;
use crate::message::{
    calls_view, messages_view, tools_view, CallView, Message, MessageView, ToolSpec, ToolView,
};
use crate::text::chars_of;
use vstd::prelude::*;

verus! {

/// Per-message envelope cost: role, delimiters, and separators.
pub const MESSAGE_OVERHEAD_TOKENS: usize = 4;

/// Whether a character is ASCII.
pub open spec fn is_ascii(c: char) -> bool {
    (c as u32) < 128
}

/// How many characters of a text are ASCII.
pub open spec fn ascii_count(s: Seq<char>) -> nat
    decreases s.len(),
{
    if s.len() == 0 {
        0
    } else {
        ascii_count(s.drop_last()) + if is_ascii(s.last()) {
            1nat
        } else {
            0nat
        }
    }
}

/// The estimate for a text: a quarter of its ASCII characters, rounded up, and
/// all of its others.
pub open spec fn text_tokens(s: Seq<char>) -> int {
    (ascii_count(s) + 3) / 4 + (s.len() - ascii_count(s))
}

/// The estimate for the payloads of calls: their names and arguments.
pub open spec fn calls_tokens(calls: Seq<CallView>) -> int
    decreases calls.len(),
{
    if calls.len() == 0 {
        0
    } else {
        calls_tokens(calls.drop_last()) + text_tokens(calls.last().name) + text_tokens(
            calls.last().args,
        )
    }
}

/// The estimate for one message: its envelope, its text, the calls it carries
/// and the call it answers.
pub open spec fn message_tokens(m: MessageView) -> int {
    MESSAGE_OVERHEAD_TOKENS + text_tokens(m.content) + calls_tokens(m.tool_calls) + match m.tool_call_id {
        Some(id) => text_tokens(id),
        None => 0,
    }
}

/// The estimate for several messages.
pub open spec fn messages_tokens(ms: Seq<MessageView>) -> int
    decreases ms.len(),
{
    if ms.len() == 0 {
        0
    } else {
        messages_tokens(ms.drop_last()) + message_tokens(ms.last())
    }
}

/// The estimate for the schema of one tool.
pub open spec fn tool_tokens(t: ToolView) -> int {
    text_tokens(t.name) + text_tokens(t.description) + text_tokens(compact_text(t.input_schema))
}

/// The estimate for several tools.
pub open spec fn tools_tokens(ts: Seq<ToolView>) -> int
    decreases ts.len(),
{
    if ts.len() == 0 {
        0
    } else {
        tools_tokens(ts.drop_last()) + tool_tokens(ts.last())
    }
}

/// The ASCII characters of a text are at most all of them.
pub proof fn lemma_ascii_count(s: Seq<char>)
    ensures
        ascii_count(s) <= s.len(),
    decreases s.len(),
{
    if s.len() > 0 {
        lemma_ascii_count(s.drop_last());
    }
}

/// An estimate never rounds down: four times it covers the ASCII characters
/// and it covers every other character one for one, so text without ASCII
/// costs its length; and it never exceeds the character count.
pub proof fn estimate_never_rounds_down(s: Seq<char>)
    ensures
        text_tokens(s) >= s.len() - ascii_count(s),
        4 * (text_tokens(s) - (s.len() - ascii_count(s))) >= ascii_count(s),
        ascii_count(s) == 0 ==> text_tokens(s) == s.len(),
        0 <= text_tokens(s) <= s.len(),
{
    lemma_ascii_count(s);
}

proof fn lemma_ascii_concat(a: Seq<char>, b: Seq<char>)
    ensures
        ascii_count(a + b) == ascii_count(a) + ascii_count(b),
    decreases b.len(),
{
    if b.len() == 0 {
        assert(a + b =~= a);
    } else {
        lemma_ascii_concat(a, b.drop_last());
        assert((a + b).drop_last() =~= a + b.drop_last());
    }
}

/// Putting two texts together never costs more than both, nor less than either
/// of them, whichever comes first.
pub proof fn estimate_of_two_texts(a: Seq<char>, b: Seq<char>)
    ensures
        text_tokens(a) <= text_tokens(a + b),
        text_tokens(b) <= text_tokens(a + b),
        text_tokens(a + b) <= text_tokens(a) + text_tokens(b),
        text_tokens(a + b) == text_tokens(b + a),
{
    lemma_ascii_concat(a, b);
    lemma_ascii_concat(b, a);
    lemma_ascii_count(a);
    lemma_ascii_count(b);
}

proof fn lemma_calls_tokens(calls: Seq<CallView>, n: int)
    requires
        0 <= n <= calls.len(),
    ensures
        0 <= calls_tokens(calls.take(n)) <= calls_tokens(calls),
    decreases calls.len() - n,
{
    if n < calls.len() {
        lemma_calls_tokens(calls, n + 1);
        assert(calls.take(n + 1).drop_last() =~= calls.take(n));
        estimate_never_rounds_down(calls[n].name);
        estimate_never_rounds_down(calls[n].args);
        lemma_calls_nonnegative(calls.take(n));
    } else {
        assert(calls.take(n) =~= calls);
        lemma_calls_nonnegative(calls);
    }
}

proof fn lemma_calls_nonnegative(calls: Seq<CallView>)
    ensures
        0 <= calls_tokens(calls),
    decreases calls.len(),
{
    if calls.len() > 0 {
        lemma_calls_nonnegative(calls.drop_last());
        estimate_never_rounds_down(calls.last().name);
        estimate_never_rounds_down(calls.last().args);
    }
}

/// Every message costs at least its envelope.
pub proof fn lemma_message_tokens(m: MessageView)
    ensures
        MESSAGE_OVERHEAD_TOKENS <= message_tokens(m),
{
    estimate_never_rounds_down(m.content);
    lemma_calls_nonnegative(m.tool_calls);
    if let Some(id) = m.tool_call_id {
        estimate_never_rounds_down(id);
    }
}

/// A longer run of messages costs no less.
pub proof fn lemma_messages_tokens(ms: Seq<MessageView>, n: int)
    requires
        0 <= n <= ms.len(),
    ensures
        0 <= messages_tokens(ms.take(n)) <= messages_tokens(ms),
    decreases ms.len() - n,
{
    if n < ms.len() {
        lemma_messages_tokens(ms, n + 1);
        assert(ms.take(n + 1).drop_last() =~= ms.take(n));
        lemma_message_tokens(ms[n]);
        lemma_messages_nonnegative(ms.take(n));
    } else {
        assert(ms.take(n) =~= ms);
        lemma_messages_nonnegative(ms);
    }
}

pub proof fn lemma_messages_nonnegative(ms: Seq<MessageView>)
    ensures
        0 <= messages_tokens(ms),
    decreases ms.len(),
{
    if ms.len() > 0 {
        lemma_messages_nonnegative(ms.drop_last());
        lemma_message_tokens(ms.last());
    }
}

proof fn lemma_tools_tokens(ts: Seq<ToolView>, n: int)
    requires
        0 <= n <= ts.len(),
    ensures
        0 <= tools_tokens(ts.take(n)) <= tools_tokens(ts),
    decreases ts.len() - n,
{
    if n < ts.len() {
        lemma_tools_tokens(ts, n + 1);
        assert(ts.take(n + 1).drop_last() =~= ts.take(n));
        lemma_tool_nonnegative(ts[n]);
        lemma_tools_nonnegative(ts.take(n));
    } else {
        assert(ts.take(n) =~= ts);
        lemma_tools_nonnegative(ts);
    }
}

proof fn lemma_tool_nonnegative(t: ToolView)
    ensures
        0 <= tool_tokens(t),
{
    estimate_never_rounds_down(t.name);
    estimate_never_rounds_down(t.description);
    estimate_never_rounds_down(compact_text(t.input_schema));
}

pub proof fn lemma_tools_nonnegative(ts: Seq<ToolView>)
    ensures
        0 <= tools_tokens(ts),
    decreases ts.len(),
{
    if ts.len() > 0 {
        lemma_tools_nonnegative(ts.drop_last());
        lemma_tool_nonnegative(ts.last());
    }
}

/// Estimated tokens for one text body.
pub fn estimate_text(text: &str) -> (tokens: usize)
    ensures
        tokens == text_tokens(text@),
{
    let chars = chars_of(text);
    let mut ascii: usize = 0;
    let mut wide: usize = 0;
    let mut i: usize = 0;
    while i < chars.len()
        invariant
            i <= chars@.len(),
            chars@ == text@,
            ascii + wide == i,
            ascii == ascii_count(text@.take(i as int)),
        decreases chars@.len() - i,
    {
        assert(text@.take(i + 1).drop_last() =~= text@.take(i as int));
        if (chars[i] as u32) < 128 {
            ascii = ascii + 1;
        } else {
            wide = wide + 1;
        }
        i = i + 1;
    }
    assert(text@.take(text@.len() as int) =~= text@);
    let whole: usize = ascii / 4;
    if ascii % 4 == 0 {
        whole + wide
    } else {
        whole + 1 + wide
    }
}

/// Estimated tokens for one message: its text, any tool-call payloads it
/// carries, and the per-message envelope.
pub fn estimate_message(message: &Message) -> (tokens: usize)
    requires
        message_tokens(message@) <= usize::MAX,
    ensures
        tokens == message_tokens(message@),
{
    let ghost calls = message@.tool_calls;
    proof {
        estimate_never_rounds_down(message@.content);
        lemma_calls_nonnegative(calls);
        if let Some(id) = message@.tool_call_id {
            estimate_never_rounds_down(id);
        }
        lemma_calls_tokens(calls, 0);
        assert(calls.take(0) =~= Seq::empty());
    }
    let mut tokens: usize = MESSAGE_OVERHEAD_TOKENS + estimate_text(message.content.as_str());
    let mut i: usize = 0;
    while i < message.tool_calls.len()
        invariant
            i <= message.tool_calls@.len(),
            calls == calls_view(message.tool_calls@),
            MESSAGE_OVERHEAD_TOKENS + text_tokens(message@.content) + calls_tokens(calls)
                <= usize::MAX,
            tokens == MESSAGE_OVERHEAD_TOKENS + text_tokens(message@.content) + calls_tokens(
                calls.take(i as int),
            ),
        decreases message.tool_calls@.len() - i,
    {
        proof {
            lemma_calls_tokens(calls, i + 1);
            assert(calls.take(i + 1).drop_last() =~= calls.take(i as int));
            assert(calls[i as int] == message.tool_calls@[i as int]@);
            estimate_never_rounds_down(calls[i as int].name);
            estimate_never_rounds_down(calls[i as int].args);
        }
        let name: usize = estimate_text(message.tool_calls[i].name.as_str());
        let args: usize = estimate_text(message.tool_calls[i].args.as_str());
        tokens = tokens + name + args;
        i = i + 1;
    }
    assert(calls.take(calls.len() as int) =~= calls);
    if let Some(id) = &message.tool_call_id {
        tokens = tokens + estimate_text(id.as_str());
    }
    tokens
}

/// Estimated tokens for several messages.
pub fn estimate_messages(messages: &Vec<Message>) -> (tokens: usize)
    requires
        messages_tokens(messages_view(messages@)) <= usize::MAX,
    ensures
        tokens == messages_tokens(messages_view(messages@)),
{
    let ghost all = messages_view(messages@);
    let mut tokens: usize = 0;
    let mut i: usize = 0;
    while i < messages.len()
        invariant
            i <= messages@.len(),
            all == messages_view(messages@),
            messages_tokens(all) <= usize::MAX,
            tokens == messages_tokens(all.take(i as int)),
        decreases messages@.len() - i,
    {
        proof {
            lemma_messages_tokens(all, i + 1);
            assert(all.take(i + 1).drop_last() =~= all.take(i as int));
            assert(all[i as int] == messages@[i as int]@);
            lemma_messages_nonnegative(all.take(i as int));
        }
        tokens = tokens + estimate_message(&messages[i]);
        i = i + 1;
    }
    assert(all.take(all.len() as int) =~= all);
    tokens
}

/// Estimated tokens for the tool schemas sent alongside a request.
pub fn estimate_tool_specs(tools: &Vec<ToolSpec>) -> (tokens: usize)
    requires
        tools_tokens(tools_view(tools@)) <= usize::MAX,
    ensures
        tokens == tools_tokens(tools_view(tools@)),
{
    let ghost all = tools_view(tools@);
    let mut tokens: usize = 0;
    let mut i: usize = 0;
    while i < tools.len()
        invariant
            i <= tools@.len(),
            all == tools_view(tools@),
            tools_tokens(all) <= usize::MAX,
            tokens == tools_tokens(all.take(i as int)),
        decreases tools@.len() - i,
    {
        proof {
            lemma_tools_tokens(all, i + 1);
            assert(all.take(i + 1).drop_last() =~= all.take(i as int));
            assert(all[i as int] == tools@[i as int]@);
            estimate_never_rounds_down(all[i as int].name);
            estimate_never_rounds_down(all[i as int].description);
            estimate_never_rounds_down(compact_text(all[i as int].input_schema));
            lemma_tools_nonnegative(all.take(i as int));
        }
        let name: usize = estimate_text(tools[i].name.as_str());
        let description: usize = estimate_text(tools[i].description.as_str());
        let schema: usize = estimate_text(tools[i].input_schema.to_text().as_str());
        tokens = tokens + name + description + schema;
        i = i + 1;
    }
    assert(all.take(all.len() as int) =~= all);
    tokens
}

fn plus(total: Option<usize>, more: usize) -> (out: Option<usize>)
    ensures
        total matches Some(n) ==> (out matches Some(sum) ==> sum == n + more),
        total matches Some(n) ==> (out is None <==> n + more > usize::MAX),
        total is None ==> out is None,
{
    match total {
        Some(n) => if n > usize::MAX - more {
            None
        } else {
            Some(n + more)
        },
        None => None,
    }
}

/// Estimated tokens for the tool schemas sent alongside a request; `None` when
/// there are more than can be counted.
pub fn try_estimate_tool_specs(tools: &Vec<ToolSpec>) -> (tokens: Option<usize>)
    ensures
        tokens is Some <==> tools_tokens(tools_view(tools@)) <= usize::MAX,
        tokens matches Some(n) ==> n == tools_tokens(tools_view(tools@)),
{
    let ghost all = tools_view(tools@);
    let mut total: Option<usize> = Some(0);
    let mut i: usize = 0;
    while i < tools.len()
        invariant
            i <= tools@.len(),
            all == tools_view(tools@),
            total matches Some(n) ==> n == tools_tokens(all.take(i as int)),
            total is None ==> tools_tokens(all.take(i as int)) > usize::MAX,
        decreases tools@.len() - i,
    {
        proof {
            assert(all.take(i + 1).drop_last() =~= all.take(i as int));
            assert(all[i as int] == tools@[i as int]@);
            estimate_never_rounds_down(all[i as int].name);
            estimate_never_rounds_down(all[i as int].description);
            estimate_never_rounds_down(compact_text(all[i as int].input_schema));
        }
        let name: usize = estimate_text(tools[i].name.as_str());
        let description: usize = estimate_text(tools[i].description.as_str());
        let schema: usize = estimate_text(tools[i].input_schema.to_text().as_str());
        total = plus(plus(plus(total, name), description), schema);
        i = i + 1;
    }
    assert(all.take(all.len() as int) =~= all);
    if total.is_some() {
        Some(estimate_tool_specs(tools))
    } else {
        None
    }
}

/// The ASCII characters are counted, all of them and nothing else.
pub proof fn ascii_characters_are_counted(s: Seq<char>)
    ensures
        ascii_count(s) == s.filter(|c: char| (c as u32) < 128).len(),
    decreases s.len(),
{
    reveal(Seq::filter);
    let plain = |c: char| (c as u32) < 128;
    if s.len() > 0 {
        ascii_characters_are_counted(s.drop_last());
    }
    assert(ascii_count(s) == s.filter(plain).len());
}

/// Four ASCII characters are a token, the last of them begun, and any other
/// character is one.
pub proof fn an_estimate_has_two_rates(s: Seq<char>)
    ensures
        ({
            let others = s.len() - ascii_count(s);
            let quarters = text_tokens(s) - others;
            4 * quarters >= ascii_count(s) && 4 * quarters < ascii_count(s) + 4
        }),
        text_tokens(Seq::empty()) == 0,
{
}

/// Messages cost what each of them costs, whichever they are sent with, and so
/// do calls.
pub proof fn messages_cost_what_each_costs(
    a: Seq<MessageView>,
    b: Seq<MessageView>,
    m: MessageView,
)
    ensures
        messages_tokens(a + b) == messages_tokens(a) + messages_tokens(b),
        messages_tokens(seq![m]) == message_tokens(m),
        messages_tokens(Seq::empty()) == 0,
    decreases b.len(),
{
    assert(seq![m].drop_last() =~= Seq::empty());
    assert(messages_tokens(seq![m].drop_last()) == 0);
    if b.len() == 0 {
        assert(a + b =~= a);
    } else {
        messages_cost_what_each_costs(a, b.drop_last(), m);
        assert((a + b).drop_last() =~= a + b.drop_last());
    }
}

/// A message costs four tokens and what it says; a call adds its name and what
/// it is given, and an answer the id of the call.
pub proof fn a_message_costs_what_it_carries(m: MessageView, call: CallView, id: Seq<char>)
    ensures
        m.tool_calls.len() == 0 && m.tool_call_id is None ==> message_tokens(m) == 4 + text_tokens(
            m.content,
        ),
        message_tokens(MessageView { tool_calls: m.tool_calls.push(call), ..m }) == message_tokens(
            m,
        ) + text_tokens(call.name) + text_tokens(call.args),
        m.tool_call_id is None ==> message_tokens(MessageView { tool_call_id: Some(id), ..m })
            == message_tokens(m) + text_tokens(id),
{
    assert(m.tool_calls.push(call).drop_last() =~= m.tool_calls);
}

/// Tools cost what each of them costs: its name, its description and its schema.
pub proof fn tools_cost_what_each_costs(a: Seq<ToolView>, tool: ToolView)
    ensures
        tools_tokens(Seq::empty()) == 0,
        tools_tokens(a.push(tool)) == tools_tokens(a) + text_tokens(tool.name) + text_tokens(
            tool.description,
        ) + text_tokens(compact_text(tool.input_schema)),
{
    assert(a.push(tool).drop_last() =~= a);
}

} // verus!
