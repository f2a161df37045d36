//! Deterministic elision of oversized tool results under context pressure.
//!
//! Once a request is close to its window, the middle of an already recorded
//! tool result is replaced by a marker, oldest result first, until the request
//! fits.

use super::tokens::{
    estimate_message, estimate_messages, estimate_never_rounds_down, lemma_message_tokens,
    lemma_messages_nonnegative, lemma_messages_tokens, message_tokens, messages_tokens,
};
use crate::json::{find_text, lookup, put, ordered, text_of, Json, Value};
use crate::message::{messages_view, Message, MessageRole, MessageView};
use crate::text::{
    byte_len, byte_length, chars_of, decimal, holding_is_standing_between, holds,
    lemma_byte_len_concat, lemma_byte_len_push, lemma_len_within_bytes, push_decimal, string_of,
    width_of,
};
use vstd::prelude::*;

verus! {

/// The share of the context window at or below which a request is left alone:
/// four fifths. The remaining fifth is headroom for the reply.
pub const PRUNE_TRIGGER_FIFTHS: usize = 4;

/// Message-metadata key recording how many bytes an elision removed.
pub const ELIDED_BYTES_KEY: &'static str = "content_elided_bytes";

/// Message-metadata key naming where the full text of a result was written.
pub const SPILL_LOCATOR_KEY: &'static str = "spill_locator";

/// Leading bytes kept.
pub const HEAD_BYTES: usize = 2048;

/// Trailing bytes kept.
pub const TAIL_BYTES: usize = 1024;

/// Below this a result is left whole.
pub const MIN_PRUNABLE_BYTES: usize = 4096;

/// What the transcript has to fit into.
#[derive(Clone, Copy, Debug, PartialEq, Eq, Structural)]
pub struct Budget {
    /// The model's context window, when the provider resolved one. `None`
    /// disables elision.
    pub context_budget_tokens: Option<usize>,
    /// Estimated tokens already committed elsewhere.
    pub reserved_tokens: usize,
}

/// What elision removed from one assembled request.
#[derive(Clone, Copy, Debug, PartialEq, Eq, Structural)]
pub struct Elision {
    /// Messages that lost their middle.
    pub messages: usize,
    /// Characters removed, across all of them.
    pub chars: usize,
}

impl Default for Budget {
    fn default() -> (out: Budget)
        ensures
            out == (Budget { context_budget_tokens: None, reserved_tokens: 0 }),
    {
        Budget { context_budget_tokens: None, reserved_tokens: 0 }
    }
}

impl Default for Elision {
    fn default() -> (out: Elision)
        ensures
            out == (Elision { messages: 0, chars: 0 }),
    {
        Elision { messages: 0, chars: 0 }
    }
}

/// The length of the longest prefix of `s`, from `i` characters on, that is at
/// most `limit` bytes.
pub open spec fn prefix_within(s: Seq<char>, limit: nat, i: int) -> int
    decreases s.len() - i,
{
    if 0 <= i < s.len() && byte_len(s.take(i + 1)) <= limit {
        prefix_within(s, limit, i + 1)
    } else {
        i
    }
}

/// The start of the longest suffix of `s`, from `i` down, that is at most
/// `limit` bytes.
pub open spec fn suffix_within(s: Seq<char>, limit: nat, i: int) -> int
    decreases i,
{
    if 0 < i <= s.len() && byte_len(s.skip(i - 1)) <= limit {
        suffix_within(s, limit, i - 1)
    } else {
        i
    }
}

/// How many leading characters an elision keeps.
pub open spec fn head_len(s: Seq<char>) -> int {
    prefix_within(s, HEAD_BYTES as nat, 0)
}

/// Where the kept trailing characters start.
pub open spec fn tail_start(s: Seq<char>) -> int {
    suffix_within(s, TAIL_BYTES as nat, s.len() as int)
}

/// How many bytes an elision removes.
pub open spec fn removed_bytes(s: Seq<char>) -> nat {
    byte_len(s.subrange(head_len(s), tail_start(s)))
}

/// How many characters an elision removes.
pub open spec fn removed_chars(s: Seq<char>) -> int {
    tail_start(s) - head_len(s)
}

/// The note left in place of the removed middle.
pub open spec fn marker(removed: nat, locator: Option<Seq<char>>) -> Seq<char> {
    match locator {
        Some(place) => "\n\n[... "@ + decimal(removed)
            + " bytes elided from the middle of this tool result to fit the context window. The full output is at "@
            + place + "; read the range you need rather than re-running the call ...]\n\n"@,
        None => "\n\n[... "@ + decimal(removed)
            + " bytes elided from the middle of this tool result to fit the context window. They were not spilled and cannot be read back ...]\n\n"@,
    }
}

/// The text of a message once its middle is elided.
pub open spec fn pruned_text(m: MessageView) -> Seq<char> {
    let s = m.content;
    s.take(head_len(s)) + marker(
        removed_bytes(s),
        text_of(lookup(m.metadata, SPILL_LOCATOR_KEY@)),
    ) + s.skip(tail_start(s))
}

/// Whether a message is elided when asked: a large enough tool result that
/// gets shorter by it.
pub open spec fn is_elidable(m: MessageView) -> bool {
    &&& m.role == MessageRole::Tool
    &&& byte_len(m.content) >= MIN_PRUNABLE_BYTES
    &&& byte_len(pruned_text(m)) < byte_len(m.content)
}

/// Whether `after` is the elision of `before`: the pruned text, the byte count
/// recorded, and nothing else changed.
pub open spec fn is_elision_of(before: MessageView, after: MessageView) -> bool {
    &&& after.content == pruned_text(before)
    &&& lookup(after.metadata, ELIDED_BYTES_KEY@) == Some(
        Value::Number(removed_bytes(before.content) as int),
    )
    &&& ordered(after.metadata)
    &&& forall|key: Seq<char>|
        key != ELIDED_BYTES_KEY@ ==> lookup(after.metadata, key) == #[trigger] lookup(
            before.metadata,
            key,
        )
    &&& after.role == before.role
    &&& after.attachments == before.attachments
    &&& after.tool_calls == before.tool_calls
    &&& after.tool_call_id == before.tool_call_id
}

proof fn lemma_prefix_within(s: Seq<char>, limit: nat, i: int)
    requires
        0 <= i <= s.len(),
        byte_len(s.take(i)) <= limit,
    ensures
        i <= prefix_within(s, limit, i) <= s.len(),
        byte_len(s.take(prefix_within(s, limit, i))) <= limit,
    decreases s.len() - i,
{
    if i < s.len() && byte_len(s.take(i + 1)) <= limit {
        lemma_prefix_within(s, limit, i + 1);
    }
}

proof fn lemma_suffix_within(s: Seq<char>, limit: nat, i: int)
    requires
        0 <= i <= s.len(),
        byte_len(s.skip(i)) <= limit,
    ensures
        0 <= suffix_within(s, limit, i) <= i,
        byte_len(s.skip(suffix_within(s, limit, i))) <= limit,
    decreases i,
{
    if 0 < i && byte_len(s.skip(i - 1)) <= limit {
        lemma_suffix_within(s, limit, i - 1);
    }
}

proof fn lemma_split(s: Seq<char>, at: int)
    requires
        0 <= at <= s.len(),
    ensures
        byte_len(s) == byte_len(s.take(at)) + byte_len(s.skip(at)),
{
    lemma_byte_len_concat(s.take(at), s.skip(at));
    assert(s =~= s.take(at) + s.skip(at));
}

/// The two kept ends of a prunable text never overlap, and with the removed
/// middle they make up the whole.
pub proof fn kept_ends_are_disjoint(s: Seq<char>)
    requires
        byte_len(s) >= MIN_PRUNABLE_BYTES,
    ensures
        0 <= head_len(s) <= tail_start(s) <= s.len(),
        byte_len(s.take(head_len(s))) <= HEAD_BYTES,
        byte_len(s.skip(tail_start(s))) <= TAIL_BYTES,
        s == s.take(head_len(s)) + s.subrange(head_len(s), tail_start(s)) + s.skip(tail_start(s)),
        byte_len(s) == byte_len(s.take(head_len(s))) + removed_bytes(s) + byte_len(
            s.skip(tail_start(s)),
        ),
{
    assert(s.take(0) =~= Seq::empty());
    assert(s.skip(s.len() as int) =~= Seq::empty());
    lemma_prefix_within(s, HEAD_BYTES as nat, 0);
    lemma_suffix_within(s, TAIL_BYTES as nat, s.len() as int);
    let (h, t) = (head_len(s), tail_start(s));
    if t < h {
        lemma_split(s, t);
        lemma_split(s.take(h), t);
        assert(s.take(h).take(t) =~= s.take(t));
    }
    let middle = s.subrange(h, t);
    assert(s =~= s.take(h) + middle + s.skip(t));
    lemma_byte_len_concat(s.take(h) + middle, s.skip(t));
    lemma_byte_len_concat(s.take(h), middle);
}

proof fn lemma_longest_prefix(s: Seq<char>, limit: nat, i: int)
    requires
        0 <= i <= s.len(),
    ensures
        prefix_within(s, limit, i) < s.len() ==> byte_len(s.take(prefix_within(s, limit, i) + 1))
            > limit,
    decreases s.len() - i,
{
    if i < s.len() && byte_len(s.take(i + 1)) <= limit {
        lemma_longest_prefix(s, limit, i + 1);
    }
}

proof fn lemma_longest_suffix(s: Seq<char>, limit: nat, i: int)
    requires
        0 <= i <= s.len(),
    ensures
        suffix_within(s, limit, i) > 0 ==> byte_len(s.skip(suffix_within(s, limit, i) - 1))
            > limit,
    decreases i,
{
    if 0 < i && byte_len(s.skip(i - 1)) <= limit {
        lemma_longest_suffix(s, limit, i - 1);
    }
}

/// As much is kept of the two ends as fits: of a text large enough to be
/// elided, one more character at the front would make more than 2048 bytes,
/// and one more at the back more than 1024.
pub proof fn kept_ends_are_as_long_as_they_may_be(s: Seq<char>)
    requires
        byte_len(s) >= 4096,
    ensures
        0 <= head_len(s) <= tail_start(s) <= s.len(),
        byte_len(s.take(head_len(s))) <= 2048,
        head_len(s) < s.len() && byte_len(s.take(head_len(s) + 1)) > 2048,
        byte_len(s.take(head_len(s))) > 2048 - 4,
        byte_len(s.skip(tail_start(s))) <= 1024,
        tail_start(s) > 0 && byte_len(s.skip(tail_start(s) - 1)) > 1024,
        byte_len(s.skip(tail_start(s))) > 1024 - 4,
{
    kept_ends_are_disjoint(s);
    lemma_longest_prefix(s, HEAD_BYTES as nat, 0);
    lemma_longest_suffix(s, TAIL_BYTES as nat, s.len() as int);
    let (h, t) = (head_len(s), tail_start(s));
    if h == s.len() {
        assert(s.take(h) =~= s);
    }
    if t == 0 {
        assert(s.skip(0) =~= s);
    }
    lemma_byte_len_push(s.take(h), s[h]);
    assert(s.take(h + 1) =~= s.take(h).push(s[h]));
    lemma_byte_len_concat(seq![s[t - 1]], s.skip(t));
    assert(s.skip(t - 1) =~= seq![s[t - 1]] + s.skip(t));
    lemma_byte_len_push(Seq::empty(), s[t - 1]);
    assert(Seq::empty().push(s[t - 1]) =~= seq![s[t - 1]]);
}

/// An elided text is the longest start of the result that fits 2048 bytes, a
/// note, and the longest end that fits 1024. The note says how many bytes were
/// taken out and, when the whole was put somewhere, where.
pub proof fn an_elided_text_keeps_both_ends(m: MessageView) -> (cut: (int, int))
    requires
        byte_len(m.content) >= 4096,
    ensures
        0 <= cut.0 <= cut.1 <= m.content.len(),
        2048 - 4 < byte_len(m.content.take(cut.0)) <= 2048 < byte_len(m.content.take(cut.0 + 1)),
        1024 - 4 < byte_len(m.content.skip(cut.1)) <= 1024 < byte_len(m.content.skip(cut.1 - 1)),
        exists|note: Seq<char>|
            #![trigger m.content.take(cut.0) + note + m.content.skip(cut.1)]
            {
                &&& pruned_text(m) == m.content.take(cut.0) + note + m.content.skip(cut.1)
                &&& holds(note, decimal(byte_len(m.content.subrange(cut.0, cut.1))))
                &&& lookup(m.metadata, "spill_locator"@) matches Some(Value::Text(place))
                    ==> holds(note, place)
            },
        removed_chars(m.content) == cut.1 - cut.0,
        removed_bytes(m.content) == byte_len(m.content.subrange(cut.0, cut.1)),
{
    let s = m.content;
    kept_ends_are_as_long_as_they_may_be(s);
    let (h, t) = (head_len(s), tail_start(s));
    let place = text_of(lookup(m.metadata, SPILL_LOCATOR_KEY@));
    let note = marker(removed_bytes(s), place);
    let count = decimal(removed_bytes(s));
    assert(pruned_text(m) == s.take(h) + note + s.skip(t));
    match place {
        Some(at) => {
            let a = "\n\n[... "@;
            let b =
                " bytes elided from the middle of this tool result to fit the context window. The full output is at "@;
            let c = "; read the range you need rather than re-running the call ...]\n\n"@;
            assert(note =~= a + count + (b + at + c));
            assert(note =~= (a + count + b) + at + c);
            holding_is_standing_between(note, count);
            holding_is_standing_between(note, at);
        },
        None => {
            let a = "\n\n[... "@;
            let b =
                " bytes elided from the middle of this tool result to fit the context window. They were not spilled and cannot be read back ...]\n\n"@;
            assert(note =~= a + count + b);
            holding_is_standing_between(note, count);
        },
    }
    (h, t)
}

fn find_head(chars: &Vec<char>) -> (head: usize)
    requires
        byte_len(chars@) <= usize::MAX,
    ensures
        head == head_len(chars@),
{
    let ghost s = chars@;
    let mut i: usize = 0;
    let mut bytes: usize = 0;
    assert(s.take(0) =~= Seq::empty());
    while i < chars.len()
        invariant_except_break
            i <= chars@.len(),
            bytes == byte_len(s.take(i as int)),
            bytes <= HEAD_BYTES,
            head_len(s) == prefix_within(s, HEAD_BYTES as nat, i as int),
            s == chars@,
        ensures
            i == head_len(s),
        decreases chars@.len() - i,
    {
        let width: usize = width_of(chars[i]);
        proof {
            lemma_byte_len_push(s.take(i as int), s[i as int]);
            assert(s.take(i + 1) =~= s.take(i as int).push(s[i as int]));
        }
        if bytes + width > HEAD_BYTES {
            break;
        }
        bytes = bytes + width;
        i = i + 1;
    }
    i
}

fn find_tail(chars: &Vec<char>) -> (tail: usize)
    requires
        byte_len(chars@) <= usize::MAX,
    ensures
        tail == tail_start(chars@),
{
    let ghost s = chars@;
    let mut i: usize = chars.len();
    let mut bytes: usize = 0;
    assert(s.skip(s.len() as int) =~= Seq::empty());
    while i > 0
        invariant_except_break
            i <= chars@.len(),
            bytes == byte_len(s.skip(i as int)),
            bytes <= TAIL_BYTES,
            tail_start(s) == suffix_within(s, TAIL_BYTES as nat, i as int),
            s == chars@,
        ensures
            i == tail_start(s),
        decreases i,
    {
        let width: usize = width_of(chars[i - 1]);
        proof {
            lemma_byte_len_concat(seq![s[i - 1]], s.skip(i as int));
            assert(s.skip(i - 1) =~= seq![s[i - 1]] + s.skip(i as int));
            lemma_byte_len_push(Seq::empty(), s[i - 1]);
            assert(Seq::empty().push(s[i - 1]) =~= seq![s[i - 1]]);
        }
        if bytes + width > TAIL_BYTES {
            break;
        }
        bytes = bytes + width;
        i = i - 1;
    }
    i
}

/// Replaces the middle of one tool result with a marker. `None`, and the
/// message untouched, when it is not a candidate or would not get shorter.
fn elide(message: &mut Message) -> (removed: Option<usize>)
    requires
        ordered(old(message)@.metadata),
    ensures
        removed is Some <==> is_elidable(old(message)@),
        removed is None ==> final(message)@ == old(message)@,
        removed matches Some(chars) ==> is_elision_of(old(message)@, final(message)@) && chars
            == removed_chars(old(message)@.content),
{
    let len: usize = byte_length(message.content.as_str());
    if message.role != MessageRole::Tool || len < MIN_PRUNABLE_BYTES {
        return None;
    }
    let ghost before = message@;
    let ghost s = message@.content;
    proof {
        kept_ends_are_disjoint(s);
    }
    let chars = chars_of(message.content.as_str());
    let head: usize = find_head(&chars);
    let tail: usize = find_tail(&chars);
    let middle = string_of(&chars, head, tail);
    let removed: usize = byte_length(middle.as_str());
    let mut pruned = string_of(&chars, 0, head);
    assert(pruned@ =~= s.take(head_len(s)));
    pruned.push_str("\n\n[... ");
    push_decimal(&mut pruned, removed as u64);
    match find_text(&message.metadata, SPILL_LOCATOR_KEY) {
        Some(place) => {
            pruned.push_str(
                " bytes elided from the middle of this tool result to fit the context window. The full output is at ",
            );
            pruned.push_str(place);
            pruned.push_str("; read the range you need rather than re-running the call ...]\n\n");
        },
        None => {
            pruned.push_str(
                " bytes elided from the middle of this tool result to fit the context window. They were not spilled and cannot be read back ...]\n\n",
            );
        },
    }
    let rest = string_of(&chars, tail, chars.len());
    pruned.push_str(rest.as_str());
    proof {
        assert(rest@ =~= s.skip(tail_start(s)));
        assert(pruned@ =~= pruned_text(before));
    }
    if byte_length(pruned.as_str()) >= len {
        return None;
    }
    message.content = pruned;
    put(&mut message.metadata, ELIDED_BYTES_KEY, Json::Unsigned(removed as u64));
    Some(tail - head)
}

/// The tokens of a message once it is elided.
pub open spec fn elided_tokens(m: MessageView) -> int {
    message_tokens(MessageView { content: pruned_text(m), ..m })
}

/// The running total once the first `i` messages were considered: each
/// elidable one is elided, and what it saved taken off, while the total is
/// over the ceiling.
pub open spec fn total_after(ms: Seq<MessageView>, start: int, ceiling: int, i: int) -> int
    decreases i,
{
    if i <= 0 {
        start
    } else {
        let total = total_after(ms, start, ceiling, i - 1);
        let m = ms[i - 1];
        if total <= ceiling || !is_elidable(m) {
            total
        } else {
            let saved = message_tokens(m) - elided_tokens(m);
            let taken = if saved < 0 {
                0
            } else {
                saved
            };
            if taken > total {
                0
            } else {
                total - taken
            }
        }
    }
}

/// The ceiling of a window: four fifths of it, rounded down.
pub open spec fn ceiling_of(window: nat) -> int {
    (window * PRUNE_TRIGGER_FIFTHS / 5) as int
}

/// Whether message `i` of a request is elided under a budget.
pub open spec fn elided_at(ms: Seq<MessageView>, budget: Budget, i: int) -> bool {
    &&& budget.context_budget_tokens matches Some(window) && window > 0 && total_after(
        ms,
        budget.reserved_tokens + messages_tokens(ms),
        ceiling_of(window as nat),
        i,
    ) > ceiling_of(window as nat)
    &&& is_elidable(ms[i])
}

proof fn lemma_elided_cost(before: MessageView, after: MessageView)
    requires
        is_elidable(before),
        is_elision_of(before, after),
    ensures
        message_tokens(after) == elided_tokens(before),
        message_tokens(after) <= message_tokens(before) + byte_len(before.content),
{
    estimate_never_rounds_down(before.content);
    estimate_never_rounds_down(after.content);
    lemma_len_within_bytes(after.content);
}

/// How many of the first `n` messages are elided.
pub open spec fn elided_count(ms: Seq<MessageView>, budget: Budget, n: int) -> nat
    decreases n,
{
    if n <= 0 {
        0
    } else {
        elided_count(ms, budget, n - 1) + if elided_at(ms, budget, n - 1) {
            1nat
        } else {
            0nat
        }
    }
}

/// How many characters eliding among the first `n` messages removes.
pub open spec fn elided_chars(ms: Seq<MessageView>, budget: Budget, n: int) -> int
    decreases n,
{
    if n <= 0 {
        0
    } else {
        elided_chars(ms, budget, n - 1) + if elided_at(ms, budget, n - 1) {
            removed_chars(ms[n - 1].content)
        } else {
            0
        }
    }
}

/// The bytes of text a request holds.
pub open spec fn content_bytes(ms: Seq<MessageView>) -> nat
    decreases ms.len(),
{
    if ms.len() == 0 {
        0
    } else {
        content_bytes(ms.drop_last()) + byte_len(ms.last().content)
    }
}

/// The first messages hold no more text than all of them.
pub proof fn lemma_content_bytes(ms: Seq<MessageView>, n: int)
    requires
        0 <= n <= ms.len(),
    ensures
        content_bytes(ms.take(n)) <= content_bytes(ms),
    decreases ms.len() - n,
{
    if n < ms.len() {
        lemma_content_bytes(ms, n + 1);
        assert(ms.take(n + 1).drop_last() =~= ms.take(n));
    } else {
        assert(ms.take(n) =~= ms);
    }
}

proof fn lemma_elided_chars(ms: Seq<MessageView>, budget: Budget, n: int)
    requires
        0 <= n <= ms.len(),
    ensures
        0 <= elided_chars(ms, budget, n) <= content_bytes(ms.take(n)),
        elided_count(ms, budget, n) <= n,
    decreases n,
{
    if n > 0 {
        lemma_elided_chars(ms, budget, n - 1);
        assert(ms.take(n).drop_last() =~= ms.take(n - 1));
        if elided_at(ms, budget, n - 1) {
            kept_ends_are_disjoint(ms[n - 1].content);
            lemma_len_within_bytes(ms[n - 1].content);
        }
    }
}

proof fn lemma_none_elided(ms: Seq<MessageView>, budget: Budget, n: int)
    requires
        0 <= n <= ms.len(),
        forall|i: int| 0 <= i < ms.len() ==> !#[trigger] elided_at(ms, budget, i),
    ensures
        elided_chars(ms, budget, n) == 0,
        elided_count(ms, budget, n) == 0,
    decreases n,
{
    if n > 0 {
        lemma_none_elided(ms, budget, n - 1);
    }
}

/// Once the request fits, nothing more is elided: a total at or under the
/// ceiling stays where it is.
pub proof fn elision_stops_once_it_fits(ms: Seq<MessageView>, start: int, ceiling: int, i: int, j: int)
    requires
        0 <= i <= j,
        total_after(ms, start, ceiling, i) <= ceiling,
    ensures
        total_after(ms, start, ceiling, j) == total_after(ms, start, ceiling, i),
    decreases j - i,
{
    if i < j {
        elision_stops_once_it_fits(ms, start, ceiling, i, j - 1);
    }
}

/// Only tool results are ever elided, and each elided text gets shorter.
pub proof fn only_tool_results_shrink(ms: Seq<MessageView>, budget: Budget, i: int)
    requires
        0 <= i < ms.len(),
        elided_at(ms, budget, i),
    ensures
        ms[i].role == MessageRole::Tool,
        byte_len(pruned_text(ms[i])) < byte_len(ms[i].content),
{
}

/// Elides oversized tool results until the request fits, oldest first, and
/// returns what was removed.
pub fn to_fit(messages: &mut Vec<Message>, budget: &Budget) -> (elision: Elision)
    requires
        forall|i: int| 0 <= i < old(messages)@.len() ==> ordered((#[trigger] old(messages)@[i])@.metadata),
        budget.reserved_tokens + messages_tokens(messages_view(old(messages)@)) + content_bytes(
            messages_view(old(messages)@),
        ) <= usize::MAX,
    ensures
        final(messages)@.len() == old(messages)@.len(),
        forall|i: int|
            #![trigger final(messages)@[i]]
            0 <= i < old(messages)@.len() ==> if elided_at(
                messages_view(old(messages)@),
                *budget,
                i,
            ) {
                is_elision_of(old(messages)@[i]@, final(messages)@[i]@)
            } else {
                final(messages)@[i]@ == old(messages)@[i]@
            },
        elision.messages == elided_count(
            messages_view(old(messages)@),
            *budget,
            old(messages)@.len() as int,
        ),
        elision.chars == elided_chars(
            messages_view(old(messages)@),
            *budget,
            old(messages)@.len() as int,
        ),
{
    let ghost ms = messages_view(messages@);
    let ghost n = messages@.len() as int;
    let mut elision = Elision { messages: 0, chars: 0 };
    let window: usize = match budget.context_budget_tokens {
        Some(window) => window,
        None => 0,
    };
    if window == 0 {
        proof {
            lemma_none_elided(ms, *budget, n);
        }
        return elision;
    }
    let mut prunable = false;
    let mut k: usize = 0;
    while k < messages.len()
        invariant
            k <= messages@.len(),
            ms == messages_view(messages@),
            !prunable ==> forall|i: int| 0 <= i < k ==> !#[trigger] is_elidable(ms[i]),
        decreases messages@.len() - k,
    {
        if messages[k].role == MessageRole::Tool && byte_length(messages[k].content.as_str())
            >= MIN_PRUNABLE_BYTES {
            prunable = true;
        }
        k = k + 1;
    }
    if !prunable {
        proof {
            lemma_none_elided(ms, *budget, n);
        }
        return elision;
    }
    let ceiling: usize = window / 5 * PRUNE_TRIGGER_FIFTHS + window % 5 * PRUNE_TRIGGER_FIFTHS / 5;
    let ghost start = budget.reserved_tokens + messages_tokens(ms);
    proof {
        lemma_messages_tokens(ms, n);
        assert(ms.take(n) =~= ms);
        assert(ceiling == ceiling_of(window as nat));
    }
    let mut total: usize = budget.reserved_tokens + estimate_messages(messages);
    let mut i: usize = 0;
    while i < messages.len()
        invariant
            i <= n,
            n == messages@.len(),
            n == ms.len(),
            n == old(messages)@.len(),
            ms == messages_view(old(messages)@),
            window > 0,
            budget.context_budget_tokens == Some(window),
            start == budget.reserved_tokens + messages_tokens(ms),
            start + content_bytes(ms) <= usize::MAX,
            ceiling == ceiling_of(window as nat),
            total == total_after(ms, start, ceiling as int, i as int),
            elision.messages == elided_count(ms, *budget, i as int),
            elision.chars == elided_chars(ms, *budget, i as int),
            forall|j: int| 0 <= j < n ==> ordered((#[trigger] old(messages)@[j])@.metadata),
            forall|j: int| #![trigger messages@[j]] i <= j < n ==> messages@[j] == old(messages)@[j],
            forall|j: int|
                #![trigger messages@[j]]
                0 <= j < i ==> if elided_at(ms, *budget, j) {
                    is_elision_of(old(messages)@[j]@, messages@[j]@)
                } else {
                    messages@[j]@ == old(messages)@[j]@
                },
        decreases n - i,
    {
        assert(ms[i as int] == old(messages)@[i as int]@);
        if total > ceiling {
            let ghost was = messages@[i as int]@;
            proof {
                lemma_messages_tokens(ms, i + 1);
                assert(ms.take(i + 1).drop_last() =~= ms.take(i as int));
                lemma_messages_tokens(ms.take(i + 1), i as int);
                assert(ms.take(i + 1).take(i as int) =~= ms.take(i as int));
                lemma_elided_chars(ms, *budget, i + 1);
                lemma_content_bytes(ms, i + 1);
            }
            let before: usize = estimate_message(&messages[i]);
            let ghost held = messages@;
            let removed = elide(&mut messages[i]);
            assert(messages@ =~= held.update(i as int, messages@[i as int]));
            if let Some(chars) = removed {
                proof {
                    lemma_elided_cost(was, messages@[i as int]@);
                }
                let after: usize = estimate_message(&messages[i]);
                let saved: usize = if after < before {
                    before - after
                } else {
                    0
                };
                total = if saved > total {
                    0
                } else {
                    total - saved
                };
                elision.messages = elision.messages + 1;
                elision.chars = elision.chars + chars;
            }
        }
        i = i + 1;
    }
    elision
}

/// The ceiling is four fifths of the window: no more than that, and the next
/// larger number is.
pub proof fn the_ceiling_is_four_fifths(window: nat)
    ensures
        5 * ceiling_of(window) <= 4 * window,
        4 * window < 5 * (ceiling_of(window) + 1),
{
}

/// Whether messages are a request after elision: as long as before, and every
/// message is either its elision or as it was, as decided for each.
pub open spec fn is_fitted(ms: Seq<MessageView>, budget: Budget, after: Seq<MessageView>) -> bool {
    &&& after.len() == ms.len()
    &&& forall|i: int|
        #![trigger after[i]]
        0 <= i < ms.len() ==> if elided_at(ms, budget, i) {
            is_elision_of(ms[i], after[i])
        } else {
            after[i] == ms[i]
        }
}

/// A request without a window, and one within four fifths of its window, is
/// left exactly as it is.
pub proof fn what_fits_is_left_alone(ms: Seq<MessageView>, budget: Budget, after: Seq<MessageView>)
    requires
        is_fitted(ms, budget, after),
        match budget.context_budget_tokens {
            None => true,
            Some(window) => window == 0 || 5 * (budget.reserved_tokens + messages_tokens(ms)) <= 4
                * window,
        },
    ensures
        after == ms,
{
    if let Some(window) = budget.context_budget_tokens {
        let start = budget.reserved_tokens + messages_tokens(ms);
        let ceiling = ceiling_of(window as nat);
        the_ceiling_is_four_fifths(window as nat);
        assert forall|i: int| 0 <= i < ms.len() implies !#[trigger] elided_at(ms, budget, i) by {
            if window > 0 {
                elision_stops_once_it_fits(ms, start, ceiling, 0, i);
            }
        }
    }
    assert(after =~= ms);
}

/// The oldest results go first: whatever is elided, every tool result before it
/// that could be elided is elided too.
pub proof fn the_oldest_results_go_first(ms: Seq<MessageView>, budget: Budget, i: int, j: int)
    requires
        0 <= i < j < ms.len(),
        elided_at(ms, budget, j),
        is_elidable(ms[i]),
    ensures
        elided_at(ms, budget, i),
{
    if let Some(window) = budget.context_budget_tokens {
        let start = budget.reserved_tokens + messages_tokens(ms);
        let ceiling = ceiling_of(window as nat);
        if total_after(ms, start, ceiling, i) <= ceiling {
            elision_stops_once_it_fits(ms, start, ceiling, i, j);
        }
    }
}

/// A request that is over four fifths of its window loses the middle of the
/// oldest tool result there is to elide.
pub proof fn what_is_too_large_is_elided(ms: Seq<MessageView>, budget: Budget, window: usize, i: int)
    requires
        budget.context_budget_tokens == Some(window),
        window > 0,
        5 * (budget.reserved_tokens + messages_tokens(ms)) >= 4 * window + 5,
        0 <= i < ms.len(),
        is_elidable(ms[i]),
        forall|j: int| 0 <= j < i ==> !is_elidable(#[trigger] ms[j]),
    ensures
        elided_at(ms, budget, i),
{
    let start = budget.reserved_tokens + messages_tokens(ms);
    let ceiling = ceiling_of(window as nat);
    the_ceiling_is_four_fifths(window as nat);
    lemma_untouched_total(ms, start, ceiling, i);
}

proof fn lemma_untouched_total(ms: Seq<MessageView>, start: int, ceiling: int, i: int)
    requires
        0 <= i <= ms.len(),
        forall|j: int| 0 <= j < i ==> !is_elidable(#[trigger] ms[j]),
    ensures
        total_after(ms, start, ceiling, i) == start,
    decreases i,
{
    if i > 0 {
        lemma_untouched_total(ms, start, ceiling, i - 1);
    }
}

/// A tool result is elided when asked exactly when it has 4096 bytes or more
/// and gets shorter by it; nothing but a tool result ever is.
pub proof fn what_can_be_elided(m: MessageView)
    ensures
        is_elidable(m) <==> m.role == MessageRole::Tool && byte_len(m.content) >= 4096 && byte_len(
            pruned_text(m),
        ) < byte_len(m.content),
{
}

/// Everything but the text and the count of elided bytes stays: whatever
/// happens to a message, its role, its calls, the call it answers and its
/// attachments are kept, and so is its place.
pub proof fn elision_keeps_the_rest(
    ms: Seq<MessageView>,
    budget: Budget,
    after: Seq<MessageView>,
    i: int,
    key: Seq<char>,
)
    requires
        is_fitted(ms, budget, after),
        0 <= i < ms.len(),
    ensures
        after.len() == ms.len(),
        after[i].role == ms[i].role,
        after[i].tool_calls == ms[i].tool_calls,
        after[i].tool_call_id == ms[i].tool_call_id,
        after[i].attachments == ms[i].attachments,
        ms[i].role != MessageRole::Tool ==> after[i] == ms[i],
        byte_len(ms[i].content) < 4096 ==> after[i] == ms[i],
        after[i].content == ms[i].content || after[i].content == pruned_text(ms[i]),
        key != "content_elided_bytes"@ ==> lookup(after[i].metadata, key) == lookup(
            ms[i].metadata,
            key,
        ),
        after[i] != ms[i] ==> lookup(after[i].metadata, "content_elided_bytes"@) == Some(
            Value::Number(removed_bytes(ms[i].content) as int),
        ),
{
}

/// Elision ends with a request that fits, or with nothing left to elide: if
/// any result that could be elided was left whole, then what is left is within
/// four fifths of the window.
pub proof fn elision_ends_when_it_fits_or_must(
    ms: Seq<MessageView>,
    budget: Budget,
    after: Seq<MessageView>,
    window: usize,
    i: int,
)
    requires
        is_fitted(ms, budget, after),
        budget.context_budget_tokens == Some(window),
        window > 0,
        0 <= i < ms.len(),
        is_elidable(ms[i]),
        !elided_at(ms, budget, i),
        forall|j: int|
            0 <= j < ms.len() && is_elidable(#[trigger] ms[j]) ==> elided_tokens(ms[j])
                <= message_tokens(ms[j]),
    ensures
        5 * (budget.reserved_tokens + messages_tokens(after)) <= 4 * window,
{
    let n = ms.len() as int;
    let start = budget.reserved_tokens + messages_tokens(ms);
    let ceiling = ceiling_of(window as nat);
    the_ceiling_is_four_fifths(window as nat);
    elision_stops_once_it_fits(ms, start, ceiling, i, n);
    lemma_running_total(ms, budget, after, window, n);
    assert(ms.take(n) =~= ms);
    assert(after.take(n) =~= after);
}

proof fn lemma_running_total(
    ms: Seq<MessageView>,
    budget: Budget,
    after: Seq<MessageView>,
    window: usize,
    n: int,
)
    requires
        is_fitted(ms, budget, after),
        budget.context_budget_tokens == Some(window),
        window > 0,
        0 <= n <= ms.len(),
        forall|j: int|
            0 <= j < ms.len() && is_elidable(#[trigger] ms[j]) ==> elided_tokens(ms[j])
                <= message_tokens(ms[j]),
    ensures
        total_after(
            ms,
            budget.reserved_tokens + messages_tokens(ms),
            ceiling_of(window as nat),
            n,
        ) == budget.reserved_tokens + messages_tokens(ms) - messages_tokens(ms.take(n))
            + messages_tokens(after.take(n)),
        messages_tokens(after.take(n)) >= 0,
    decreases n,
{
    let start = budget.reserved_tokens + messages_tokens(ms);
    let ceiling = ceiling_of(window as nat);
    if n > 0 {
        lemma_running_total(ms, budget, after, window, n - 1);
        assert(ms.take(n).drop_last() =~= ms.take(n - 1));
        assert(after.take(n).drop_last() =~= after.take(n - 1));
        assert(after.take(n).last() == after[n - 1]);
        lemma_messages_tokens(ms, n);
        lemma_messages_tokens(after, n);
        lemma_messages_nonnegative(after.take(n));
        if elided_at(ms, budget, n - 1) {
            lemma_elided_cost(ms[n - 1], after[n - 1]);
            lemma_message_tokens(after[n - 1]);
        }
    } else {
        assert(ms.take(0) =~= Seq::empty());
        assert(after.take(0) =~= Seq::empty());
    }
}

/// What is reported is what happened: as many messages are counted as differ,
/// and as many characters as were taken out of them.
pub proof fn the_count_is_of_what_was_elided(ms: Seq<MessageView>, budget: Budget, n: int)
    requires
        0 <= n < ms.len(),
    ensures
        elided_count(ms, budget, 0) == 0,
        elided_chars(ms, budget, 0) == 0,
        !elided_at(ms, budget, n) ==> elided_count(ms, budget, n + 1) == elided_count(
            ms,
            budget,
            n,
        ) && elided_chars(ms, budget, n + 1) == elided_chars(ms, budget, n),
        elided_at(ms, budget, n) ==> elided_count(ms, budget, n + 1) == elided_count(
            ms,
            budget,
            n,
        ) + 1 && exists|cut: (int, int)|
            #![trigger ms[n].content.subrange(cut.0, cut.1)]
            0 <= cut.0 <= cut.1 <= ms[n].content.len() && elided_chars(ms, budget, n + 1)
                == elided_chars(ms, budget, n) + ms[n].content.subrange(cut.0, cut.1).len()
                && byte_len(ms[n].content.take(cut.0)) > 2048 - 4 && byte_len(
                ms[n].content.skip(cut.1),
            ) > 1024 - 4,
{
    if elided_at(ms, budget, n) {
        let cut = an_elided_text_keeps_both_ends(ms[n]);
        assert(ms[n].content.subrange(cut.0, cut.1).len() == cut.1 - cut.0);
    }
}

} // verus!
