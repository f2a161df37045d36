//! Summarizing the oldest span of a conversation into one checkpoint.
//!
//! Nothing is deleted: a pass appends one checkpoint that hides the span. A
//! span never ends between a tool call and its result, and never reaches into
//! the retained tail.

use super::assembly::{EntryView, PromptManifest, RequestHeader, SectionEntry};
use super::gateway::{Exchange, Request, Usage};
use super::projection::{
    checkpoint, checkpoint_hides_its_range, claimed_range, is_hidden, lemma_visible_below, visible,
    visible_below, visible_of, visible_positions,
};
use super::prune::{content_bytes, elided_at, is_elision_of, pruned_text, to_fit, Budget};
use super::sections::{sources_view, RequestKind, RequestSource, SectionId};
use super::tokens::{
    estimate_message, estimate_text, lemma_messages_tokens, messages_tokens, text_tokens,
};
use crate::json::{find, lookup, ordered, unsigned, Value};
use crate::lists::{increasing, insert_sorted, lemma_push_members, remove_sorted};
use crate::message::{
    calls_view, messages_view, plain_message, CallView, Item, ItemView, Message, MessageRole,
    MessageView, ToolCall, Transcript,
};
use crate::state::{events_view, EventView, RunState};
use crate::text::{
    blank_is_white_space_alone, byte_len, byte_length, ends, ends_of_a_text,
    holding_is_standing_between, holds, is_blank, is_space, lemma_len_within_bytes, same, texts,
    trimmed,
};
use vstd::prelude::*;

verus! {

/// Fewest visible items worth a model call.
pub const MIN_SPAN_ITEMS: usize = 2;

/// What the summarizer is told.
pub const SUMMARY_INSTRUCTION: &'static str = "You are compacting a conversation transcript so it can continue within a smaller context window. Write a summary of the exchange below that preserves what a participant would need to carry on: decisions reached, facts established, file paths, identifiers, and open questions. Preserve specifics — names, numbers, and paths — over general description. Do not add information that is not in the transcript, do not offer opinions, and do not address the reader. Write the summary and nothing else.";

/// What a checkpoint message starts with.
pub const SUMMARY_PREFIX: &'static str = "[Summary of the earlier conversation, replacing it in full:]\n\n";

/// When a run's history is summarized.
#[derive(Clone, Copy, Debug, PartialEq, Eq, Structural)]
pub struct CompactionConfig {
    pub enabled: bool,
    /// The pressure, in percent of the window, at which a pass runs.
    pub pressure_percent: usize,
    /// The newest visible items a pass never touches.
    pub retain_tail_turns: usize,
}

/// The inclusive transcript positions one pass replaces.
#[derive(Clone, Copy, Debug, PartialEq, Eq, Structural)]
pub struct Span {
    /// Always 0: a pass summarizes from the beginning, so a second pass
    /// subsumes the first checkpoint.
    pub start: usize,
    pub end: usize,
    /// Visible items the span covers.
    pub items: usize,
}

/// The messages the model sees, oldest first.
pub open spec fn visible_messages(log: Seq<ItemView>) -> Seq<MessageView> {
    visible_of(log).map_values(|p: int| log[p].message)
}

/// The ids of the calls that a list of calls makes.
pub open spec fn call_ids(calls: Seq<CallView>) -> Set<Seq<char>> {
    calls.map_values(|c: CallView| c.id).to_set()
}

/// The calls that have no result yet after a run of messages.
pub open spec fn open_calls(ms: Seq<MessageView>) -> Set<Seq<char>>
    decreases ms.len(),
{
    if ms.len() == 0 {
        Set::empty()
    } else {
        let asked = open_calls(ms.drop_last()).union(call_ids(ms.last().tool_calls));
        match ms.last().tool_call_id {
            Some(id) => asked.remove(id),
            None => asked,
        }
    }
}

/// Whether a span of the first `c + 1` visible messages may be cut there:
/// every call in it has its result, and it fits the budget.
pub open spec fn is_cut(ms: Seq<MessageView>, budget: int, c: int) -> bool {
    &&& 0 <= c < ms.len()
    &&& open_calls(ms.take(c + 1)) == Set::<Seq<char>>::empty()
    &&& messages_tokens(ms.take(c + 1)) <= budget
}

/// Every call made before a cut with nothing open has its result before it,
/// at or after the call.
pub proof fn balanced_cut_splits_no_call(ms: Seq<MessageView>, i: int, id: Seq<char>)
    requires
        0 <= i < ms.len(),
        call_ids(ms[i].tool_calls).contains(id),
        !open_calls(ms).contains(id),
    ensures
        exists|j: int| i <= j < ms.len() && (#[trigger] ms[j]).tool_call_id == Some(id),
    decreases ms.len(),
{
    let last = ms.len() - 1;
    if ms[last].tool_call_id == Some(id) {
        assert(i <= last < ms.len());
    } else if i < last {
        let shorter = ms.drop_last();
        assert(shorter[i] == ms[i]);
        balanced_cut_splits_no_call(shorter, i, id);
        let j = choose|j: int|
            i <= j < shorter.len() && (#[trigger] shorter[j]).tool_call_id == Some(id);
        assert(ms[j].tool_call_id == Some(id));
    }
}

/// Whether no message from a place on answers a call.
pub open spec fn is_unanswered_from(ms: Seq<MessageView>, i: int, id: Seq<char>) -> bool {
    forall|j: int| i <= j < ms.len() ==> (#[trigger] ms[j]).tool_call_id != Some(id)
}

/// A call is open after a run of messages exactly when no message at or after
/// the one that made it answers it.
pub proof fn a_call_is_open_until_it_is_answered(ms: Seq<MessageView>, id: Seq<char>)
    ensures
        open_calls(ms).contains(id) <==> exists|i: int|
            0 <= i < ms.len() && #[trigger] makes_call(ms[i], id) && is_unanswered_from(ms, i, id),
    decreases ms.len(),
{
    if ms.len() > 0 {
        let shorter = ms.drop_last();
        let last = ms.last();
        let n = ms.len() - 1;
        a_call_is_open_until_it_is_answered(shorter, id);
        lemma_makes_call(last, id);
        if open_calls(ms).contains(id) {
            assert(last.tool_call_id != Some(id));
            if makes_call(last, id) {
                assert(makes_call(ms[n], id) && is_unanswered_from(ms, n, id));
            } else {
                let i = choose|i: int|
                    0 <= i < shorter.len() && #[trigger] makes_call(shorter[i], id)
                        && is_unanswered_from(shorter, i, id);
                assert(is_unanswered_from(ms, i, id)) by {
                    assert forall|j: int| i <= j < ms.len() implies (#[trigger] ms[j]).tool_call_id
                        != Some(id) by {
                        if j < n {
                            assert(shorter[j].tool_call_id != Some(id));
                        }
                    }
                }
                assert(makes_call(ms[i], id));
            }
        }
        if exists|i: int|
            0 <= i < ms.len() && #[trigger] makes_call(ms[i], id) && is_unanswered_from(
                ms,
                i,
                id,
            ) {
            let i = choose|i: int|
                0 <= i < ms.len() && #[trigger] makes_call(ms[i], id) && is_unanswered_from(
                    ms,
                    i,
                    id,
                );
            assert(ms[n].tool_call_id != Some(id));
            if i < n {
                assert(is_unanswered_from(shorter, i, id)) by {
                    assert forall|j: int| i <= j < shorter.len() implies (
                    #[trigger] shorter[j]).tool_call_id != Some(id) by {
                        assert(ms[j].tool_call_id != Some(id));
                    }
                }
                assert(makes_call(shorter[i], id));
            }
        }
    }
}

/// Whether a message makes a call with an id.
pub open spec fn makes_call(m: MessageView, id: Seq<char>) -> bool {
    exists|k: int| 0 <= k < m.tool_calls.len() && (#[trigger] m.tool_calls[k]).id == id
}

proof fn lemma_makes_call(m: MessageView, id: Seq<char>)
    ensures
        call_ids(m.tool_calls).contains(id) <==> makes_call(m, id),
{
    let ids = m.tool_calls.map_values(|c: CallView| c.id);
    if ids.to_set().contains(id) {
        let k = choose|k: int| 0 <= k < ids.len() && ids[k] == id;
        assert(m.tool_calls[k].id == id);
    }
    if makes_call(m, id) {
        let k = choose|k: int| 0 <= k < m.tool_calls.len() && (#[trigger] m.tool_calls[k]).id == id;
        assert(ids[k] == id);
    }
}

/// A span may be cut wherever it fits its budget and every call made in it is
/// answered in it, and nowhere else.
pub proof fn a_cut_leaves_no_call_open(ms: Seq<MessageView>, budget: int, c: int)
    requires
        0 <= c < ms.len(),
    ensures
        is_cut(ms, budget, c) <==> messages_tokens(ms.take(c + 1)) <= budget && forall|
            i: int,
            id: Seq<char>,
        |
            0 <= i <= c && #[trigger] makes_call(ms[i], id) ==> !is_unanswered_from(
                ms.take(c + 1),
                i,
                id,
            ),
{
    let head = ms.take(c + 1);
    if open_calls(head) == Set::<Seq<char>>::empty() {
        assert forall|i: int, id: Seq<char>| 0 <= i <= c && #[trigger] makes_call(ms[i], id) implies
            !is_unanswered_from(head, i, id) by {
            a_call_is_open_until_it_is_answered(head, id);
            assert(!open_calls(head).contains(id));
            assert(makes_call(head[i], id));
        }
    }
    if forall|i: int, id: Seq<char>|
        0 <= i <= c && #[trigger] makes_call(ms[i], id) ==> !is_unanswered_from(head, i, id) {
        assert forall|id: Seq<char>| !open_calls(head).contains(id) by {
            a_call_is_open_until_it_is_answered(head, id);
            if open_calls(head).contains(id) {
                let i = choose|i: int|
                    0 <= i < head.len() && #[trigger] makes_call(head[i], id)
                        && is_unanswered_from(head, i, id);
                assert(makes_call(ms[i], id));
            }
        }
        assert(open_calls(head) =~= Set::empty());
    }
}

fn add_calls(pending: &mut Vec<String>, calls: &Vec<ToolCall>)
    requires
        increasing(texts(old(pending)@)),
    ensures
        increasing(texts(final(pending)@)),
        texts(final(pending)@).to_set() == texts(old(pending)@).to_set().union(
            call_ids(calls_view(calls@)),
        ),
{
    let ghost asked = calls_view(calls@).map_values(|c: CallView| c.id);
    let ghost before = texts(pending@).to_set();
    let mut i: usize = 0;
    assert(before.union(asked.take(0).to_set()) =~= before);
    while i < calls.len()
        invariant
            i <= calls@.len(),
            asked == calls_view(calls@).map_values(|c: CallView| c.id),
            increasing(texts(pending@)),
            texts(pending@).to_set() == before.union(asked.take(i as int).to_set()),
        decreases calls@.len() - i,
    {
        insert_sorted(pending, calls[i].id.as_str());
        proof {
            let now = asked.take(i + 1);
            assert(now =~= asked.take(i as int).push(asked[i as int]));
            assert(asked[i as int] == calls@[i as int].id@);
            lemma_push_members(asked.take(i as int), asked[i as int]);
            assert(texts(pending@).to_set() =~= before.union(now.to_set()));
        }
        i = i + 1;
    }
    assert(asked.take(asked.len() as int) =~= asked);
}

/// The newest balanced cut that leaves `retain_tail_turns` items untouched and
/// whose span fits `span_budget` tokens.
pub fn select_span(
    transcript: &Transcript,
    retain_tail_turns: usize,
    span_budget: usize,
) -> (span: Option<Span>)
    requires
        messages_tokens(visible_messages(transcript@)) <= usize::MAX,
    ensures
        span matches Some(s) ==> {
            &&& s.start == 0
            &&& s.items >= MIN_SPAN_ITEMS
            &&& s.items + retain_tail_turns <= visible_of(transcript@).len()
            &&& s.end == visible_of(transcript@)[s.items - 1]
            &&& is_cut(visible_messages(transcript@), span_budget as int, s.items - 1)
            &&& forall|c: int|
                s.items <= c && c + retain_tail_turns < visible_of(transcript@).len()
                    ==> !#[trigger] is_cut(
                    visible_messages(transcript@),
                    span_budget as int,
                    c,
                )
        },
        span is None ==> forall|c: int|
            MIN_SPAN_ITEMS <= c + 1 && c + retain_tail_turns < visible_of(transcript@).len()
                ==> !#[trigger] is_cut(visible_messages(transcript@), span_budget as int, c),
{
    let positions = visible_positions(transcript);
    let ghost log = transcript@;
    let ghost seen = visible_of(log);
    let ghost ms = visible_messages(log);
    proof {
        lemma_visible_below(log, log.len() as int);
        assert(seen.len() == positions@.len());
    }
    if retain_tail_turns >= positions.len() {
        return None;
    }
    let limit: usize = positions.len() - retain_tail_turns;
    let mut pending: Vec<String> = Vec::new();
    let mut cost: usize = 0;
    let mut best: Option<usize> = None;
    let mut i: usize = 0;
    assert(texts(pending@).to_set() =~= Set::empty());
    while i < limit
        invariant
            i <= limit <= positions@.len(),
            limit + retain_tail_turns == positions@.len(),
            log == transcript@,
            seen == visible_of(log),
            seen == positions@.map_values(|p: usize| p as int),
            ms == visible_messages(log),
            ms.len() == seen.len(),
            forall|k: int| 0 <= k < seen.len() ==> 0 <= #[trigger] seen[k] < log.len(),
            messages_tokens(ms) <= usize::MAX,
            increasing(texts(pending@)),
            texts(pending@).to_set() == open_calls(ms.take(i as int)),
            cost == messages_tokens(ms.take(i as int)),
            best matches Some(c) ==> c < i && is_cut(ms, span_budget as int, c as int) && forall|
                d: int,
            | c < d < i ==> !#[trigger] is_cut(ms, span_budget as int, d),
            best is None ==> forall|d: int|
                0 <= d < i ==> !#[trigger] is_cut(ms, span_budget as int, d),
        decreases limit - i,
    {
        assert(seen[i as int] == positions@[i as int]);
        let message = &transcript.items[positions[i]].message;
        proof {
            assert(ms[i as int] == log[seen[i as int]].message);
            assert(ms[i as int] == message@);
            assert(ms.take(i + 1).drop_last() =~= ms.take(i as int));
            lemma_messages_tokens(ms, i + 1);
            lemma_messages_tokens(ms.take(i + 1), i as int);
            assert(ms.take(i + 1).take(i as int) =~= ms.take(i as int));
        }
        add_calls(&mut pending, &message.tool_calls);
        if let Some(id) = &message.tool_call_id {
            remove_sorted(&mut pending, id.as_str());
        }
        cost = cost + estimate_message(message);
        proof {
            assert(texts(pending@).to_set() == open_calls(ms.take(i + 1)));
            if pending@.len() == 0 {
                assert(texts(pending@).to_set() =~= Set::empty());
            } else {
                assert(texts(pending@).to_set().contains(pending@[0]@)) by {
                    assert(texts(pending@)[0] == pending@[0]@);
                }
            }
        }
        if pending.len() == 0 && cost <= span_budget {
            best = Some(i);
        }
        i = i + 1;
    }
    match best {
        None => None,
        Some(cut) => {
            if cut + 1 < MIN_SPAN_ITEMS {
                return None;
            }
            assert(seen[cut as int] == positions@[cut as int]);
            Some(Span { start: 0, end: positions[cut], items: cut + 1 })
        },
    }
}

/// After a pass the model sees the items past the span and then the
/// checkpoint: the span's items are replaced by exactly one.
pub proof fn compaction_replaces_the_span_by_its_checkpoint(
    log: Seq<ItemView>,
    mark: ItemView,
    items: int,
)
    requires
        1 <= items <= visible_of(log).len(),
        claimed_range(mark) == Some((0int, visible_of(log)[items - 1])),
    ensures
        visible_of(log.push(mark)) == visible_of(log).skip(items).push(log.len() as int),
{
    let end = visible_of(log)[items - 1];
    lemma_visible_below(log, log.len() as int);
    checkpoint_hides_its_range(log, mark, 0, end);
    lemma_visible_after(log, mark, items, log.len() as int);
}

proof fn lemma_visible_prefix(log: Seq<ItemView>, upto: int)
    requires
        0 <= upto <= log.len(),
    ensures
        visible_below(log, upto).len() <= visible_of(log).len(),
        visible_below(log, upto) == visible_of(log).take(visible_below(log, upto).len() as int),
    decreases log.len() - upto,
{
    if upto < log.len() {
        lemma_visible_prefix(log, upto + 1);
        let shorter = visible_below(log, upto);
        assert(shorter =~= visible_of(log).take(shorter.len() as int));
    } else {
        assert(visible_of(log).take(visible_of(log).len() as int) =~= visible_of(log));
    }
}

proof fn lemma_visible_after(log: Seq<ItemView>, mark: ItemView, items: int, upto: int)
    requires
        1 <= items <= visible_of(log).len(),
        0 <= upto <= log.len(),
        visible_of(log)[items - 1] < log.len(),
        forall|p: int|
            0 <= p < log.len() ==> (#[trigger] is_hidden(log.push(mark), p) <==> is_hidden(log, p)
                || p <= visible_of(log)[items - 1]),
        forall|j: int, k: int|
            0 <= j < k < visible_of(log).len() ==> #[trigger] visible_of(log)[j]
                < #[trigger] visible_of(log)[k],
    ensures
        upto <= visible_of(log)[items - 1] + 1 ==> visible_below(log.push(mark), upto).len() == 0,
        upto > visible_of(log)[items - 1] ==> visible_below(log, upto).len() >= items
            && visible_below(log.push(mark), upto) == visible_below(log, upto).skip(items),
    decreases upto,
{
    let end = visible_of(log)[items - 1];
    let longer = log.push(mark);
    lemma_visible_prefix(log, upto);
    lemma_visible_below(log, log.len() as int);
    if upto > 0 {
        lemma_visible_after(log, mark, items, upto - 1);
        lemma_visible_prefix(log, upto - 1);
        lemma_visible_below(log, upto);
        let seen = visible_below(log, upto);
        if upto - 1 <= end {
            assert(is_hidden(longer, upto - 1));
        }
        if upto == end + 1 {
            assert(!is_hidden(log, end));
            assert(seen.last() == end);
            assert(visible_of(log)[seen.len() - 1] == end);
            assert(seen.len() == items);
            assert(visible_below(longer, upto) =~= seen.skip(items));
        } else if upto > end + 1 {
            assert(visible_below(longer, upto) =~= seen.skip(items));
        }
    }
}

/// What a role is called in a rendered span.
pub open spec fn role_name(role: MessageRole) -> Seq<char> {
    match role {
        MessageRole::User => "user"@,
        MessageRole::Assistant => "assistant"@,
        MessageRole::System => "system"@,
        MessageRole::Tool => "tool"@,
    }
}

/// The calls of a turn, named one after the other.
pub open spec fn calls_line(calls: Seq<CallView>) -> Seq<char>
    decreases calls.len(),
{
    if calls.len() == 0 {
        Seq::empty()
    } else {
        calls_line(calls.drop_last()) + "called "@ + calls.last().name + " with "@
            + calls.last().args
    }
}

/// One message of a rendered span: a turn without text that carries calls
/// shows its calls instead.
pub open spec fn span_line(role: MessageRole, content: Seq<char>, calls: Seq<CallView>) -> Seq<
    char,
> {
    role_name(role) + ": "@ + (if trimmed(content).len() == 0 && calls.len() > 0 {
        calls_line(calls)
    } else {
        content
    }) + "\n"@
}

/// What the summarizer is shown of message `i`.
pub open spec fn shown_text(ms: Seq<MessageView>, budget: Budget, i: int) -> Seq<char> {
    if elided_at(ms, budget, i) {
        pruned_text(ms[i])
    } else {
        ms[i].content
    }
}

/// The first `n` messages, rendered.
pub open spec fn span_text(ms: Seq<MessageView>, budget: Budget, n: int) -> Seq<char>
    decreases n,
{
    if n <= 0 {
        Seq::empty()
    } else {
        span_text(ms, budget, n - 1) + span_line(
            ms[n - 1].role,
            shown_text(ms, budget, n - 1),
            ms[n - 1].tool_calls,
        )
    }
}

/// How many characters the first `n` rendered messages hold.
pub open spec fn span_chars(ms: Seq<MessageView>, budget: Budget, n: int) -> nat
    decreases n,
{
    if n <= 0 {
        0
    } else {
        span_chars(ms, budget, n - 1) + shown_text(ms, budget, n - 1).len()
    }
}

/// Of the first `n` positions, those up to `end`.
pub open spec fn positions_to(seen: Seq<int>, end: int, n: int) -> Seq<int>
    decreases n,
{
    if n <= 0 {
        Seq::empty()
    } else if seen[n - 1] <= end {
        positions_to(seen, end, n - 1).push(seen[n - 1])
    } else {
        positions_to(seen, end, n - 1)
    }
}

/// The visible messages up to position `end`.
pub open spec fn span_messages(log: Seq<ItemView>, end: int) -> Seq<MessageView> {
    positions_to(visible_of(log), end, visible_of(log).len() as int).map_values(
        |p: int| log[p].message,
    )
}

/// What a rendered span has to fit into.
pub open spec fn span_limits(span_budget: usize) -> Budget {
    Budget {
        context_budget_tokens: Some(span_budget),
        reserved_tokens: text_tokens(SUMMARY_INSTRUCTION@) as usize,
    }
}

/// Whether rendering the span up to `end` stays within machine limits.
pub open spec fn span_is_bounded(log: Seq<ItemView>, end: int) -> bool {
    text_tokens(SUMMARY_INSTRUCTION@) + messages_tokens(span_messages(log, end)) + content_bytes(
        span_messages(log, end),
    ) <= usize::MAX
}

/// Whether every message of a log keeps its metadata in key order.
pub open spec fn metadata_ordered(log: Seq<ItemView>) -> bool {
    forall|i: int| 0 <= i < log.len() ==> ordered((#[trigger] log[i]).message.metadata)
}

proof fn lemma_span_chars(ms: Seq<MessageView>, budget: Budget, n: int)
    requires
        0 <= n <= ms.len(),
    ensures
        span_chars(ms, budget, n) <= content_bytes(ms.take(n)),
    decreases n,
{
    if n > 0 {
        lemma_span_chars(ms, budget, n - 1);
        assert(ms.take(n).drop_last() =~= ms.take(n - 1));
        lemma_len_within_bytes(shown_text(ms, budget, n - 1));
    }
}

proof fn lemma_positions_to(seen: Seq<int>, end: int, n: int, len: int)
    requires
        0 <= n <= seen.len(),
        forall|k: int| 0 <= k < seen.len() ==> 0 <= #[trigger] seen[k] < len,
    ensures
        forall|k: int|
            0 <= k < positions_to(seen, end, n).len() ==> 0 <= #[trigger] positions_to(seen, end, n)[k]
                < len,
    decreases n,
{
    if n > 0 {
        lemma_positions_to(seen, end, n - 1, len);
        let shorter = positions_to(seen, end, n - 1);
        let out = positions_to(seen, end, n);
        assert forall|k: int| 0 <= k < out.len() implies 0 <= #[trigger] out[k] < len by {
            if k < shorter.len() {
                assert(out[k] == shorter[k]);
            }
        }
    }
}

/// The span as text for the summarizer, and how many characters it replaced.
pub struct RenderedSpan {
    pub text: String,
    pub replaced_chars: usize,
}

fn role_text(role: MessageRole) -> (name: &'static str)
    ensures
        name@ == role_name(role),
{
    match role {
        MessageRole::User => "user",
        MessageRole::Assistant => "assistant",
        MessageRole::System => "system",
        MessageRole::Tool => "tool",
    }
}

fn push_calls(out: &mut String, calls: &Vec<ToolCall>)
    ensures
        final(out)@ == old(out)@ + calls_line(calls_view(calls@)),
{
    let ghost all = calls_view(calls@);
    let ghost before = out@;
    let mut i: usize = 0;
    assert(before + calls_line(all.take(0)) =~= before);
    while i < calls.len()
        invariant
            i <= calls@.len(),
            all == calls_view(calls@),
            out@ == before + calls_line(all.take(i as int)),
        decreases calls@.len() - i,
    {
        proof {
            assert(all.take(i + 1).drop_last() =~= all.take(i as int));
            assert(all[i as int] == calls@[i as int]@);
        }
        out.push_str("called ");
        out.push_str(calls[i].name.as_str());
        out.push_str(" with ");
        out.push_str(calls[i].args.as_str());
        assert(out@ =~= before + calls_line(all.take(i + 1)));
        i = i + 1;
    }
    assert(all.take(all.len() as int) =~= all);
}

fn push_line(out: &mut String, message: &Message)
    ensures
        final(out)@ == old(out)@ + span_line(
            message@.role,
            message@.content,
            message@.tool_calls,
        ),
{
    out.push_str(role_text(message.role));
    out.push_str(": ");
    let blank = is_blank(message.content.as_str());
    if blank && message.tool_calls.len() > 0 {
        push_calls(out, &message.tool_calls);
    } else {
        out.push_str(message.content.as_str());
    }
    out.push_str("\n");
    assert(out@ =~= old(out)@ + span_line(message@.role, message@.content, message@.tool_calls));
}

/// Renders the span up to `span.end` as a plain transcript, oversized tool
/// results elided to fit `span_budget`.
pub fn render_span(transcript: &Transcript, span: &Span, span_budget: usize) -> (out: RenderedSpan)
    requires
        metadata_ordered(transcript@),
        span_is_bounded(transcript@, span.end as int),
    ensures
        out.text@ == span_text(
            span_messages(transcript@, span.end as int),
            span_limits(span_budget),
            span_messages(transcript@, span.end as int).len() as int,
        ),
        out.replaced_chars == span_chars(
            span_messages(transcript@, span.end as int),
            span_limits(span_budget),
            span_messages(transcript@, span.end as int).len() as int,
        ),
{
    let ghost log = transcript@;
    let ghost seen = visible_of(log);
    let ghost end = span.end as int;
    let ghost ms = span_messages(log, end);
    let positions = visible_positions(transcript);
    proof {
        lemma_visible_below(log, log.len() as int);
        assert(seen.len() == positions@.len());
    }
    let mut messages: Vec<Message> = Vec::new();
    let mut i: usize = 0;
    while i < positions.len()
        invariant
            i <= positions@.len(),
            log == transcript@,
            seen == visible_of(log),
            end == span.end,
            seen == positions@.map_values(|p: usize| p as int),
            forall|k: int| 0 <= k < seen.len() ==> 0 <= #[trigger] seen[k] < log.len(),
            messages_view(messages@) == positions_to(seen, end, i as int).map_values(
                |p: int| log[p].message,
            ),
        decreases positions@.len() - i,
    {
        assert(seen[i as int] == positions@[i as int]);
        if positions[i] <= span.end {
            let ghost kept = messages@;
            messages.push(transcript.items[positions[i]].message.copy());
            proof {
                assert(messages@.last()@ == log[seen[i as int]].message);
                assert(messages_view(messages@) =~= messages_view(kept).push(
                    log[seen[i as int]].message,
                ));
                assert(positions_to(seen, end, i + 1).map_values(|p: int| log[p].message)
                    =~= positions_to(seen, end, i as int).map_values(|p: int| log[p].message).push(
                    log[seen[i as int]].message,
                ));
            }
        }
        i = i + 1;
    }
    let ghost before = messages@;
    proof {
        lemma_positions_to(seen, end, seen.len() as int, log.len() as int);
        assert forall|k: int| 0 <= k < before.len() implies ordered(
            (#[trigger] before[k])@.metadata,
        ) by {
            assert(messages_view(before)[k] == before[k]@);
            assert(ms[k] == log[positions_to(seen, end, seen.len() as int)[k]].message);
        }
        crate::prompt::tokens::estimate_never_rounds_down(SUMMARY_INSTRUCTION@);
        lemma_messages_tokens(ms, 0);
    }
    let budget = Budget {
        context_budget_tokens: Some(span_budget),
        reserved_tokens: estimate_text(SUMMARY_INSTRUCTION),
    };
    to_fit(&mut messages, &budget);
    let mut text = String::new();
    let mut replaced_chars: usize = 0;
    let mut j: usize = 0;
    while j < messages.len()
        invariant
            j <= messages@.len(),
            messages@.len() == ms.len(),
            before.len() == ms.len(),
            ms == messages_view(before),
            budget == span_limits(span_budget),
            content_bytes(ms) <= usize::MAX,
            forall|k: int|
                #![trigger messages@[k]]
                0 <= k < ms.len() ==> if elided_at(ms, budget, k) {
                    is_elision_of(before[k]@, messages@[k]@)
                } else {
                    messages@[k]@ == before[k]@
                },
            text@ == span_text(ms, budget, j as int),
            replaced_chars == span_chars(ms, budget, j as int),
        decreases messages@.len() - j,
    {
        proof {
            assert(ms[j as int] == before[j as int]@);
            assert(messages@[j as int]@.content == shown_text(ms, budget, j as int));
            lemma_span_chars(ms, budget, j + 1);
            crate::prompt::prune::lemma_content_bytes(ms, j + 1);
        }
        replaced_chars = replaced_chars + messages[j].content.as_str().unicode_len();
        push_line(&mut text, &messages[j]);
        j = j + 1;
    }
    RenderedSpan { text, replaced_chars }
}

proof fn lemma_span_grows(ms: Seq<MessageView>, budget: Budget, i: int, n: int)
    requires
        0 <= i <= n,
    ensures
        span_text(ms, budget, i).len() <= span_text(ms, budget, n).len(),
        span_text(ms, budget, n).take(span_text(ms, budget, i).len() as int) == span_text(
            ms,
            budget,
            i,
        ),
    decreases n - i,
{
    let had = span_text(ms, budget, i);
    let has = span_text(ms, budget, n);
    if i < n {
        lemma_span_grows(ms, budget, i, n - 1);
        assert(has.take(had.len() as int) =~= span_text(ms, budget, n - 1).take(had.len() as int));
    } else {
        assert(has.take(had.len() as int) =~= had);
    }
}

/// Whether something other than white space was said.
pub open spec fn says_something(text: Seq<char>) -> bool {
    exists|k: int| 0 <= k < text.len() && !is_space(#[trigger] text[k])
}

/// The summarizer is shown every message of the span: whatever its role, its
/// text stands right after its own role and a colon, on a line of its own,
/// after everything that was said before it. The text is the message's own,
/// unless the budget elides it.
pub proof fn every_message_is_shown(ms: Seq<MessageView>, budget: Budget, i: int)
    requires
        0 <= i < ms.len(),
    ensures
        ({
            let text = span_text(ms, budget, ms.len() as int);
            let at = span_text(ms, budget, i).len() as int;
            let next = span_text(ms, budget, i + 1).len() as int;
            let said = if elided_at(ms, budget, i) {
                pruned_text(ms[i])
            } else {
                ms[i].content
            };
            let who = match ms[i].role {
                MessageRole::User => "user"@,
                MessageRole::Assistant => "assistant"@,
                MessageRole::System => "system"@,
                MessageRole::Tool => "tool"@,
            };
            &&& 0 <= at <= next <= text.len()
            &&& text.take(at) == span_text(ms, budget, i)
            &&& says_something(said) || ms[i].tool_calls.len() == 0 ==> text.subrange(at, next)
                == who + ": "@ + said + "\n"@
        }),
        span_text(ms, budget, 0).len() == 0,
{
    let text = span_text(ms, budget, ms.len() as int);
    lemma_span_grows(ms, budget, i, ms.len() as int);
    lemma_span_grows(ms, budget, i + 1, ms.len() as int);
    let had = span_text(ms, budget, i);
    let has = span_text(ms, budget, i + 1);
    let said = shown_text(ms, budget, i);
    blank_is_white_space_alone(said);
    if says_something(said) {
        let k = choose|k: int| 0 <= k < said.len() && !is_space(#[trigger] said[k]);
        assert(!is_space(said[k]));
    }
    let line = span_line(ms[i].role, said, ms[i].tool_calls);
    assert(has == had + line);
    assert(text.subrange(had.len() as int, has.len() as int) =~= text.take(
        has.len() as int,
    ).skip(had.len() as int));
    assert(has.skip(had.len() as int) =~= line);
}

proof fn lemma_call_is_named(calls: Seq<CallView>, k: int)
    requires
        0 <= k < calls.len(),
    ensures
        holds(calls_line(calls), "called "@ + calls[k].name + " with "@ + calls[k].args),
    decreases calls.len(),
{
    let line = calls_line(calls);
    let shorter = calls.drop_last();
    let own = "called "@ + calls[k].name + " with "@ + calls[k].args;
    if k < shorter.len() {
        lemma_call_is_named(shorter, k);
        assert(shorter[k] == calls[k]);
        holding_is_standing_between(calls_line(shorter), own);
        let (left, right) = choose|left: Seq<char>, right: Seq<char>|
            #![trigger left + own + right]
            calls_line(shorter) == left + own + right;
        let rest = right + "called "@ + calls.last().name + " with "@ + calls.last().args;
        assert(line =~= left + own + rest);
    } else {
        assert(line =~= calls_line(shorter) + own + Seq::empty());
    }
    holding_is_standing_between(line, own);
}

/// A turn that says nothing but calls tools is shown by its calls: every one of
/// them, with its name and what it was given.
pub proof fn a_silent_turn_shows_its_calls(ms: Seq<MessageView>, budget: Budget, i: int, k: int)
    requires
        0 <= i < ms.len(),
        0 <= k < ms[i].tool_calls.len(),
        !elided_at(ms, budget, i),
        !says_something(ms[i].content),
    ensures
        holds(
            span_text(ms, budget, i + 1).skip(span_text(ms, budget, i).len() as int),
            "called "@ + ms[i].tool_calls[k].name + " with "@ + ms[i].tool_calls[k].args,
        ),
{
    let said = ms[i].content;
    blank_is_white_space_alone(said);
    assert forall|j: int| 0 <= j < said.len() implies is_space(#[trigger] said[j]) by {}
    let calls = ms[i].tool_calls;
    let own = "called "@ + calls[k].name + " with "@ + calls[k].args;
    lemma_call_is_named(calls, k);
    holding_is_standing_between(calls_line(calls), own);
    let (left, right) = choose|left: Seq<char>, right: Seq<char>|
        #![trigger left + own + right]
        calls_line(calls) == left + own + right;
    let line = span_text(ms, budget, i + 1).skip(span_text(ms, budget, i).len() as int);
    assert(line =~= span_line(ms[i].role, said, calls));
    assert(line =~= (role_name(ms[i].role) + ": "@ + left) + own + (right + "\n"@));
    holding_is_standing_between(line, own);
}

proof fn lemma_positions_prefix(seen: Seq<int>, end: int, n: int, items: int)
    requires
        0 <= n <= seen.len(),
        0 <= items <= seen.len(),
        forall|k: int| 0 <= k < items ==> #[trigger] seen[k] <= end,
        forall|k: int| items <= k < seen.len() ==> #[trigger] seen[k] > end,
    ensures
        positions_to(seen, end, n) == seen.take(
            if n < items {
                n
            } else {
                items
            },
        ),
    decreases n,
{
    if n > 0 {
        lemma_positions_prefix(seen, end, n - 1, items);
        let many = if n < items {
            n
        } else {
            items
        };
        assert(positions_to(seen, end, n) =~= seen.take(many));
    } else {
        assert(seen.take(0) =~= Seq::empty());
    }
}

/// A span of so many visible items holds exactly those: the oldest messages the
/// model sees, all of them, in order.
pub proof fn a_span_holds_its_items(log: Seq<ItemView>, items: int)
    requires
        1 <= items <= visible_of(log).len(),
    ensures
        span_messages(log, visible_of(log)[items - 1]) == visible_messages(log).take(items),
{
    let seen = visible_of(log);
    let end = seen[items - 1];
    lemma_visible_below(log, log.len() as int);
    assert forall|k: int| 0 <= k < items implies #[trigger] seen[k] <= end by {
        if k < items - 1 {
            assert(seen[k] < seen[items - 1]);
        }
    }
    assert forall|k: int| items <= k < seen.len() implies #[trigger] seen[k] > end by {
        assert(seen[items - 1] < seen[k]);
    }
    lemma_positions_prefix(seen, end, seen.len() as int, items);
    assert(span_messages(log, end) =~= visible_messages(log).take(items));
}

/// What a pass says it replaced is the length of what the summarizer was shown
/// of each message.
pub proof fn replaced_characters_add_up(ms: Seq<MessageView>, budget: Budget, i: int)
    requires
        0 <= i < ms.len(),
    ensures
        span_chars(ms, budget, 0) == 0,
        !elided_at(ms, budget, i) ==> span_chars(ms, budget, i + 1) == span_chars(ms, budget, i)
            + ms[i].content.len(),
        elided_at(ms, budget, i) ==> span_chars(ms, budget, i + 1) == span_chars(ms, budget, i)
            + pruned_text(ms[i]).len(),
{
}

/// The message a checkpoint carries.
pub open spec fn checkpoint_text(summary: Seq<char>) -> MessageView {
    plain_message(MessageRole::User, SUMMARY_PREFIX@ + summary)
}

fn checkpoint_message(summary: &Message) -> (out: Message)
    ensures
        out@ == checkpoint_text(summary@.content),
{
    let mut text = SUMMARY_PREFIX.to_owned();
    text.push_str(summary.content.as_str());
    Message::text(MessageRole::User, text.as_str())
}

/// A summarization request: what it replaces and the two messages it is made
/// of.
pub struct SummaryRequest {
    pub span: Span,
    pub instruction: Message,
    pub input: Message,
    pub replaced_chars: usize,
}

/// Decides what to summarize regardless of the measured pressure: the newest
/// safe span within half the window. `None` when compaction is off, there is
/// no summarizer or window, or no safe span.
pub fn plan_summary(
    transcript: &Transcript,
    config: &CompactionConfig,
    window: Option<usize>,
) -> (request: Option<SummaryRequest>)
    requires
        metadata_ordered(transcript@),
        messages_tokens(visible_messages(transcript@)) <= usize::MAX,
        forall|p: int| 0 <= p < transcript@.len() ==> #[trigger] span_is_bounded(transcript@, p),
    ensures
        !config.enabled || window is None ==> request is None,
        request matches Some(r) ==> {
            let budget = (window->0 / 2) as usize;
            &&& r.span.start == 0
            &&& r.span.items >= MIN_SPAN_ITEMS
            &&& r.span.items + config.retain_tail_turns <= visible_of(transcript@).len()
            &&& r.span.end == visible_of(transcript@)[r.span.items - 1]
            &&& is_cut(visible_messages(transcript@), budget as int, r.span.items - 1)
            &&& forall|c: int|
                r.span.items <= c && c + config.retain_tail_turns < visible_of(transcript@).len()
                    ==> !#[trigger] is_cut(visible_messages(transcript@), budget as int, c)
            &&& r.instruction@ == plain_message(MessageRole::System, SUMMARY_INSTRUCTION@)
            &&& r.input@ == plain_message(
                MessageRole::User,
                span_text(
                    span_messages(transcript@, r.span.end as int),
                    span_limits(budget),
                    span_messages(transcript@, r.span.end as int).len() as int,
                ),
            )
            &&& r.replaced_chars == span_chars(
                span_messages(transcript@, r.span.end as int),
                span_limits(budget),
                span_messages(transcript@, r.span.end as int).len() as int,
            )
        },
        request is None && config.enabled && window is Some ==> forall|c: int|
            MIN_SPAN_ITEMS <= c + 1 && c + config.retain_tail_turns < visible_of(
                transcript@,
            ).len() ==> !#[trigger] is_cut(
                visible_messages(transcript@),
                window->0 as int / 2,
                c,
            ),
{
    if !config.enabled {
        return None;
    }
    let window: usize = match window {
        Some(window) => window,
        None => {
            return None;
        },
    };
    let budget: usize = window / 2;
    let span = match select_span(transcript, config.retain_tail_turns, budget) {
        Some(span) => span,
        None => {
            return None;
        },
    };
    proof {
        lemma_visible_below(transcript@, transcript@.len() as int);
        assert(span_is_bounded(transcript@, span.end as int));
    }
    let rendered = render_span(transcript, &span, budget);
    Some(
        SummaryRequest {
            span,
            instruction: Message::text(MessageRole::System, SUMMARY_INSTRUCTION),
            input: Message::text(MessageRole::User, rendered.text.as_str()),
            replaced_chars: rendered.replaced_chars,
        },
    )
}

/// Appends the checkpoint of a summary that came back, and says how long the
/// summary is. A blank summary changes nothing.
pub fn record_summary(transcript: &mut Transcript, span: &Span, summary: &Message) -> (summary_chars:
    Option<usize>)
    ensures
        summary_chars is None <==> trimmed(summary@.content).len() == 0,
        summary_chars is None ==> final(transcript)@ == old(transcript)@,
        summary_chars matches Some(chars) ==> {
            &&& chars == summary@.content.len()
            &&& final(transcript)@.len() == old(transcript)@.len() + 1
            &&& final(transcript)@.drop_last() == old(transcript)@
            &&& final(transcript)@.last().message == checkpoint_text(summary@.content)
            &&& claimed_range(final(transcript)@.last()) == Some(
                (span.start as int, span.end as int),
            )
        },
{
    if is_blank(summary.content.as_str()) {
        return None;
    }
    let ghost before = transcript@;
    let item = checkpoint(checkpoint_message(summary), span.start, span.end);
    let ghost mark = item@;
    transcript.items.push(item);
    assert(transcript@ =~= before.push(mark));
    assert(transcript@.drop_last() =~= before);
    Some(summary.content.as_str().unicode_len())
}

/// What a request to summarize is made of.
pub open spec fn summary_sections(instruction: Seq<char>, input: Seq<char>) -> Seq<EntryView> {
    seq![
        EntryView {
            id: SectionId::SummaryInstruction,
            messages: 1,
            chars: byte_len(instruction),
            sources: Seq::empty(),
        },
        EntryView {
            id: SectionId::SummarySpan,
            messages: 1,
            chars: byte_len(input),
            sources: Seq::empty(),
        },
    ]
}

/// A section of one message, of which nothing more can be said.
fn one_message(id: SectionId, message: &Message) -> (entry: SectionEntry)
    ensures
        entry@ == (EntryView {
            id,
            messages: 1,
            chars: byte_len(message@.content),
            sources: Seq::empty(),
        }),
{
    let sources: Vec<RequestSource> = Vec::new();
    assert(sources_view(sources@) =~= Seq::empty());
    SectionEntry { id, messages: 1, chars: byte_length(message.content.as_str()), sources }
}

/// The request a summary is asked for with: no turn, and nothing a turn is
/// assembled from.
pub fn summary_request(request: &SummaryRequest, logical_request_id: &str) -> (out: Request)
    ensures
        out.logical_request_id@ == logical_request_id@,
        out.kind == RequestKind::Compaction,
        out.manifest@ == summary_sections(
            request.instruction@.content,
            request.input@.content,
        ),
{
    let mut manifest = PromptManifest { sections: Vec::new() };
    manifest.sections.push(one_message(SectionId::SummaryInstruction, &request.instruction));
    manifest.sections.push(one_message(SectionId::SummarySpan, &request.input));
    assert(manifest@ =~= summary_sections(request.instruction@.content, request.input@.content));
    Request {
        logical_request_id: logical_request_id.to_owned(),
        kind: RequestKind::Compaction,
        manifest,
    }
}

/// What one completed pass did.
pub struct Compacted {
    pub span: Span,
    /// Characters the checkpoint replaced, and characters it cost.
    pub replaced_chars: usize,
    pub summary_chars: usize,
    /// What the request was made of.
    pub header: RequestHeader,
    /// What it cost, when the provider said so.
    pub usage: Option<Usage>,
}

/// Whether two states differ in what was said at most.
pub open spec fn is_same_but_for_transcript(state: RunState, other: RunState) -> bool {
    &&& state.run_id == other.run_id
    &&& state.active_agent == other.active_agent
    &&& state.trace_spans == other.trace_spans
    &&& state.trace_events == other.trace_events
    &&& state.approvals == other.approvals
}

/// Ends a pass with what the summarizer answered. A summarizer that failed,
/// which answers nothing, and one that answers with blanks leave the run as it
/// was.
pub fn finish_compaction(
    state: &mut RunState,
    request: &SummaryRequest,
    exchange: Option<Exchange>,
) -> (out: Option<Compacted>)
    ensures
        is_same_but_for_transcript(*final(state), *old(state)),
        out is Some <==> (exchange matches Some(answer) && trimmed(answer.message@.content).len()
            > 0),
        out is None ==> final(state).transcript@ == old(state).transcript@,
        out matches Some(done) ==> {
            &&& exchange matches Some(answer)
            &&& done.span == request.span
            &&& done.replaced_chars == request.replaced_chars
            &&& done.summary_chars == answer.message@.content.len()
            &&& done.header == answer.header
            &&& done.usage == answer.usage
            &&& final(state).transcript@.len() == old(state).transcript@.len() + 1
            &&& final(state).transcript@.drop_last() == old(state).transcript@
            &&& final(state).transcript@.last().message == checkpoint_text(answer.message@.content)
            &&& claimed_range(final(state).transcript@.last()) == Some(
                (request.span.start as int, request.span.end as int),
            )
        },
{
    let answer = match exchange {
        Some(answer) => answer,
        None => {
            return None;
        },
    };
    match record_summary(&mut state.transcript, &request.span, &answer.message) {
        Some(summary_chars) => Some(
            Compacted {
                span: request.span,
                replaced_chars: request.replaced_chars,
                summary_chars,
                header: answer.header,
                usage: answer.usage,
            },
        ),
        None => None,
    }
}

/// The pressure a trace recorded for its newest request, when that request
/// measured one.
pub open spec fn recorded_pressure(events: Seq<EventView>) -> Option<usize>
    decreases events.len(),
{
    if events.len() == 0 {
        None
    } else if events.last().name == "request_header"@ {
        match lookup(events.last().fields, "pressure_percent"@) {
            Some(value) => match unsigned(value) {
                Some(percent) => if percent <= usize::MAX {
                    Some(percent as usize)
                } else {
                    None
                },
                None => None,
            },
            None => None,
        }
    } else {
        recorded_pressure(events.drop_last())
    }
}

/// The pressure recorded for the most recent assembled request, in percent.
pub fn last_pressure_percent(state: &RunState) -> (percent: Option<usize>)
    ensures
        percent == recorded_pressure(events_view(state.trace_events@)),
{
    let ghost all = events_view(state.trace_events@);
    let mut i: usize = state.trace_events.len();
    assert(all.take(all.len() as int) =~= all);
    while i > 0
        invariant
            i <= state.trace_events@.len(),
            all == events_view(state.trace_events@),
            recorded_pressure(all) == recorded_pressure(all.take(i as int)),
        decreases i,
    {
        let event = &state.trace_events[i - 1];
        proof {
            assert(all.take(i as int).last() == event@);
            assert(all.take(i as int).drop_last() =~= all.take(i - 1));
        }
        if same(event.name.as_str(), "request_header") {
            return match find(&event.fields, "pressure_percent") {
                Some(value) => match value.as_unsigned() {
                    Some(percent) => if percent <= usize::MAX as u64 {
                        Some(percent as usize)
                    } else {
                        None
                    },
                    None => None,
                },
                None => None,
            };
        }
        i = i - 1;
    }
    None
}

/// How full a window is from the transcript alone, in percent, rounded down;
/// a product past the machine's range saturates.
pub open spec fn transcript_pressure(tokens: int, window: nat) -> int {
    let scaled = if tokens * 100 > usize::MAX {
        usize::MAX as int
    } else {
        tokens * 100
    };
    scaled / (if window == 0 {
        1
    } else {
        window as int
    })
}

/// How full the window is, in percent: the larger of what the visible
/// transcript estimates and what the newest request recorded.
pub fn pressure_percent(state: &RunState, window: usize) -> (percent: usize)
    requires
        messages_tokens(visible_messages(state.transcript@)) <= usize::MAX,
    ensures
        percent == {
            let estimated = transcript_pressure(
                messages_tokens(visible_messages(state.transcript@)),
                window as nat,
            );
            match recorded_pressure(events_view(state.trace_events@)) {
                Some(recorded) => if recorded > estimated {
                    recorded as int
                } else {
                    estimated
                },
                None => estimated,
            }
        },
{
    let seen = visible(&state.transcript);
    let ghost log = state.transcript@;
    let ghost ms = visible_messages(log);
    let mut tokens: usize = 0;
    let mut i: usize = 0;
    proof {
        assert(seen@.map_values(|x: &Item| x@).len() == visible_of(log).map_values(
            |p: int| log[p],
        ).len());
        lemma_messages_tokens(ms, 0);
    }
    while i < seen.len()
        invariant
            i <= seen@.len(),
            log == state.transcript@,
            ms == visible_messages(log),
            seen@.len() == ms.len(),
            seen@.map_values(|x: &Item| x@) == visible_of(log).map_values(|p: int| log[p]),
            messages_tokens(ms) <= usize::MAX,
            tokens == messages_tokens(ms.take(i as int)),
        decreases seen@.len() - i,
    {
        proof {
            assert(seen@.map_values(|x: &Item| x@)[i as int] == seen@[i as int]@);
            assert(visible_of(log).map_values(|p: int| log[p])[i as int] == log[visible_of(
                log,
            )[i as int]]);
            assert(ms[i as int] == seen@[i as int]@.message);
            assert(ms.take(i + 1).drop_last() =~= ms.take(i as int));
            lemma_messages_tokens(ms, i + 1);
            lemma_messages_tokens(ms.take(i + 1), i as int);
            assert(ms.take(i + 1).take(i as int) =~= ms.take(i as int));
        }
        tokens = tokens + estimate_message(&seen[i].message);
        i = i + 1;
    }
    assert(ms.take(ms.len() as int) =~= ms);
    let scaled: usize = match tokens.checked_mul(100) {
        Some(product) => product,
        None => usize::MAX,
    };
    let size: usize = if window == 0 {
        1
    } else {
        window
    };
    let estimated: usize = scaled / size;
    match last_pressure_percent(state) {
        Some(recorded) => if recorded > estimated {
            recorded
        } else {
            estimated
        },
        None => estimated,
    }
}

/// Whether a run is under enough pressure to summarize: compaction is on, the
/// window is known, and the pressure has reached the configured percent.
pub fn is_under_pressure(state: &RunState, config: &CompactionConfig, window: Option<usize>) -> (yes:
    bool)
    requires
        messages_tokens(visible_messages(state.transcript@)) <= usize::MAX,
    ensures
        yes == (config.enabled && window is Some && {
            let estimated = transcript_pressure(
                messages_tokens(visible_messages(state.transcript@)),
                window->0 as nat,
            );
            ||| estimated >= config.pressure_percent
            ||| recorded_pressure(events_view(state.trace_events@)) matches Some(recorded)
                && recorded >= config.pressure_percent
        }),
{
    if !config.enabled {
        return false;
    }
    match window {
        None => false,
        Some(size) => pressure_percent(state, size) >= config.pressure_percent,
    }
}

/// A checkpoint speaks as the user, says that it stands for what came before,
/// and ends with the whole summary.
pub proof fn a_checkpoint_carries_the_whole_summary(summary: Seq<char>)
    ensures
        checkpoint_text(summary).role == MessageRole::User,
        ends(checkpoint_text(summary).content, summary),
        checkpoint_text(summary).content.len() == SUMMARY_PREFIX@.len() + summary.len(),
        checkpoint_text(summary).tool_calls.len() == 0,
        checkpoint_text(summary).tool_call_id is None,
{
    ends_of_a_text(summary, summary, SUMMARY_PREFIX@);
}

/// The newest request decides the recorded pressure: the last header of the
/// trace, whatever else was traced after it.
pub proof fn the_newest_header_decides(events: Seq<EventView>, i: int, percent: u64)
    requires
        0 <= i < events.len(),
        events[i].name == "request_header"@,
        forall|j: int| i < j < events.len() ==> (#[trigger] events[j]).name != "request_header"@,
    ensures
        lookup(events[i].fields, "pressure_percent"@) == Some(Value::Number(percent as int))
            && percent <= usize::MAX ==> recorded_pressure(events) == Some(percent as usize),
        lookup(events[i].fields, "pressure_percent"@) is None ==> recorded_pressure(events) is None,
    decreases events.len(),
{
    if i < events.len() - 1 {
        let shorter = events.drop_last();
        assert(events[events.len() - 1].name != "request_header"@);
        assert forall|j: int| i < j < shorter.len() implies (#[trigger] shorter[j]).name
            != "request_header"@ by {
            assert(shorter[j] == events[j]);
        }
        the_newest_header_decides(shorter, i, percent);
    }
}

/// Without a header there is no recorded pressure.
pub proof fn no_header_no_pressure(events: Seq<EventView>)
    requires
        forall|j: int| 0 <= j < events.len() ==> (#[trigger] events[j]).name != "request_header"@,
    ensures
        recorded_pressure(events) is None,
    decreases events.len(),
{
    if events.len() > 0 {
        let shorter = events.drop_last();
        assert(events[events.len() - 1].name != "request_header"@);
        assert forall|j: int| 0 <= j < shorter.len() implies (#[trigger] shorter[j]).name
            != "request_header"@ by {
            assert(shorter[j] == events[j]);
        }
        no_header_no_pressure(shorter);
    }
}

/// The pressure is the whole percents of the window that are used.
pub proof fn pressure_is_in_percent(tokens: int, window: nat)
    requires
        0 <= tokens,
        tokens * 100 <= usize::MAX,
        window > 0,
    ensures
        transcript_pressure(tokens, window) * window <= tokens * 100,
        tokens * 100 < (transcript_pressure(tokens, window) + 1) * window,
{
    let scaled = tokens * 100;
    let size = window as int;
    let q = scaled / size;
    vstd::arithmetic::div_mod::lemma_fundamental_div_mod(scaled, size);
    assert(size * q == q * size) by (nonlinear_arith);
    assert((q + 1) * size == q * size + size) by (nonlinear_arith);
}

/// A summary is asked for with the instruction and the span, and the request
/// says how large each of them is.
pub proof fn a_summary_request_is_two_messages(instruction: Seq<char>, input: Seq<char>)
    ensures
        summary_sections(instruction, input).len() == 2,
        summary_sections(instruction, input)[0].messages == 1,
        summary_sections(instruction, input)[1].messages == 1,
        summary_sections(instruction, input)[0].chars == byte_len(instruction),
        summary_sections(instruction, input)[1].chars == byte_len(input),
        summary_sections(instruction, input)[0].id == SectionId::SummaryInstruction,
        summary_sections(instruction, input)[1].id == SectionId::SummarySpan,
{
}

} // verus!
