//! Starting a run from an envelope and finishing it with one.
//!
//! A run continues its conversation: the history is loaded before it and what
//! the run adds is appended after. A self-contained run starts from nothing
//! and adds nothing.

use crate::identity::{Identity, Principal};
use crate::json::{
    entries_view, find_text, lookup, ordered, put_missing, text_of, the_first_entry_counts, Json,
    Value,
};
use crate::message::{items_view, Item, ItemView, Message, MessageView, Transcript};
use crate::state::{
    events_view, spans_view, EventView, RunState, SpanKind, SpanView, TraceEvent, TraceSpan,
};
use crate::text::same;
use vstd::prelude::*;

verus! {

/// The key that says where a run's history comes from and goes.
pub const SESSION_SCOPE_KEY: &'static str = "session_scope";

/// The scope of a self-contained run.
pub const SESSION_SCOPE_EPHEMERAL: &'static str = "ephemeral";

/// A message on its way in or out.
pub struct Envelope {
    pub channel_id: String,
    pub conversation_id: String,
    pub sender: String,
    pub message: Message,
    pub metadata: Vec<(String, Json)>,
}

/// Whether metadata marks a self-contained run.
pub open spec fn marks_ephemeral(metadata: Seq<(Seq<char>, Value)>) -> bool {
    text_of(lookup(metadata, SESSION_SCOPE_KEY@)) == Some(SESSION_SCOPE_EPHEMERAL@)
}

/// Decides [`marks_ephemeral`].
pub fn is_ephemeral(metadata: &Vec<(String, Json)>) -> (yes: bool)
    ensures
        yes == marks_ephemeral(entries_view(metadata@)),
{
    match find_text(metadata, SESSION_SCOPE_KEY) {
        Some(scope) => same(scope, SESSION_SCOPE_EPHEMERAL),
        None => false,
    }
}

/// The participant an envelope speaks as.
pub fn envelope_principal(active_agent: &str, input: &Envelope) -> (out: Principal)
    ensures
        out@ == (Identity {
            agent: active_agent@,
            channel: input.channel_id@,
            conversation: input.conversation_id@,
            sender: Some(input.sender@),
        }),
{
    Principal {
        agent: active_agent.to_owned(),
        channel: input.channel_id.clone(),
        conversation: input.conversation_id.clone(),
        sender: Some(input.sender.clone()),
    }
}

/// What an input's metadata says unless it says otherwise itself.
pub open spec fn input_defaults(
    conversation_id: Seq<char>,
    channel_id: Seq<char>,
    sender: Seq<char>,
) -> Seq<(Seq<char>, Value)> {
    seq![
        ("conversation_id"@, Value::Text(conversation_id)),
        ("channel_id"@, Value::Text(channel_id)),
        ("sender"@, Value::Text(sender)),
    ]
}

/// Whether an item is the input of a run: the message, and the metadata with
/// what it leaves out.
pub open spec fn is_input_item(item: ItemView, input: Envelope) -> bool {
    &&& item.message == input.message@
    &&& ordered(item.metadata)
    &&& forall|key: Seq<char>| #[trigger]
        lookup(item.metadata, key) == match lookup(entries_view(input.metadata@), key) {
            Some(value) => Some(value),
            None => lookup(
                input_defaults(input.conversation_id@, input.channel_id@, input.sender@),
                key,
            ),
        }
}

fn input_item(input: &Envelope) -> (item: Item)
    requires
        ordered(entries_view(input.metadata@)),
    ensures
        is_input_item(item@, *input),
{
    let mut metadata = crate::json::copy_entries(&input.metadata);
    let mut defaults: Vec<(String, Json)> = Vec::new();
    defaults.push(("conversation_id".to_owned(), Json::text(input.conversation_id.as_str())));
    defaults.push(("channel_id".to_owned(), Json::text(input.channel_id.as_str())));
    defaults.push(("sender".to_owned(), Json::text(input.sender.as_str())));
    assert(entries_view(defaults@) =~= input_defaults(
        input.conversation_id@,
        input.channel_id@,
        input.sender@,
    ));
    put_missing(&mut metadata, &defaults);
    Item { message: input.message.copy(), metadata }
}

/// A run about to take its first step.
pub struct StartedRun {
    pub state: RunState,
    /// How many items of the transcript the session already has.
    pub persisted_len: usize,
    pub ephemeral: bool,
}

/// The history a run starts from.
pub open spec fn starting_history(input: Envelope, history: Seq<ItemView>) -> Seq<ItemView> {
    if marks_ephemeral(entries_view(input.metadata@)) {
        Seq::empty()
    } else {
        history
    }
}

/// Something that happened in a span, with nothing more to say.
pub open spec fn bare_event(span: nat, name: Seq<char>) -> EventView {
    EventView { span, name, fields: Seq::empty() }
}

fn push_event(state: &mut RunState, span: usize, name: &str)
    ensures
        events_view(final(state).trace_events@) == events_view(old(state).trace_events@).push(
            bare_event(span as nat, name@),
        ),
        final(state).run_id == old(state).run_id,
        final(state).active_agent == old(state).active_agent,
        final(state).transcript == old(state).transcript,
        final(state).trace_spans == old(state).trace_spans,
        final(state).approvals == old(state).approvals,
{
    let ghost before = events_view(state.trace_events@);
    let event = TraceEvent { span, name: name.to_owned(), fields: Vec::new() };
    assert(event@ =~= bare_event(span as nat, name@));
    state.trace_events.push(event);
    assert(events_view(state.trace_events@) =~= before.push(bare_event(span as nat, name@)));
}

/// The span of a run, with the fields it is recorded with.
pub open spec fn run_span(fields: Seq<(Seq<char>, Value)>) -> SpanView {
    SpanView { parent: None, kind: SpanKind::Run, name: "run"@, fields }
}

/// What the span of a run says from its start.
pub open spec fn run_fields(run_id: Seq<char>, active_agent: Seq<char>) -> Seq<(Seq<char>, Value)> {
    seq![("active_agent"@, Value::Text(active_agent)), ("run_id"@, Value::Text(run_id))]
}

fn push_run_span(state: &mut RunState, fields: Vec<(String, Json)>) -> (place: usize)
    ensures
        place == old(state).trace_spans@.len(),
        spans_view(final(state).trace_spans@) == spans_view(old(state).trace_spans@).push(
            run_span(entries_view(fields@)),
        ),
        final(state).run_id == old(state).run_id,
        final(state).active_agent == old(state).active_agent,
        final(state).transcript == old(state).transcript,
        final(state).trace_events == old(state).trace_events,
        final(state).approvals == old(state).approvals,
{
    let ghost before = spans_view(state.trace_spans@);
    let ghost view = run_span(entries_view(fields@));
    let place: usize = state.trace_spans.len();
    let span = TraceSpan { parent: None, kind: SpanKind::Run, name: "run".to_owned(), fields };
    assert(span@ =~= view);
    state.trace_spans.push(span);
    assert(spans_view(state.trace_spans@) =~= before.push(view));
    place
}

/// Records that a run started: its span, and the event in it.
pub fn record_run_start(state: &mut RunState)
    ensures
        spans_view(final(state).trace_spans@) == spans_view(old(state).trace_spans@).push(
            run_span(run_fields(old(state).run_id@, old(state).active_agent@)),
        ),
        events_view(final(state).trace_events@) == events_view(old(state).trace_events@).push(
            bare_event(old(state).trace_spans@.len(), "run_started"@),
        ),
        final(state).run_id == old(state).run_id,
        final(state).active_agent == old(state).active_agent,
        final(state).transcript == old(state).transcript,
        final(state).approvals == old(state).approvals,
{
    let mut fields: Vec<(String, Json)> = Vec::new();
    fields.push(("active_agent".to_owned(), Json::text(state.active_agent.as_str())));
    fields.push(("run_id".to_owned(), Json::text(state.run_id.as_str())));
    assert(entries_view(fields@) =~= run_fields(state.run_id@, state.active_agent@));
    let place: usize = push_run_span(state, fields);
    push_event(state, place, "run_started");
}

/// The first span at or after `i` that covers the run itself.
pub open spec fn run_span_place(spans: Seq<SpanView>, i: int) -> Option<nat>
    decreases spans.len() - i,
{
    if i < 0 || i >= spans.len() {
        None
    } else if spans[i].kind == SpanKind::Run {
        Some(i as nat)
    } else {
        run_span_place(spans, i + 1)
    }
}

/// Finds the span that covers the run itself.
pub fn run_span_id(state: &RunState) -> (out: Option<usize>)
    ensures
        match out {
            Some(place) => Some(place as nat),
            None => None,
        } == run_span_place(spans_view(state.trace_spans@), 0),
{
    let ghost spans = spans_view(state.trace_spans@);
    let mut i: usize = 0;
    while i < state.trace_spans.len()
        invariant
            i <= state.trace_spans@.len(),
            spans == spans_view(state.trace_spans@),
            run_span_place(spans, 0) == run_span_place(spans, i as int),
        decreases state.trace_spans@.len() - i,
    {
        assert(spans[i as int] == state.trace_spans@[i as int]@);
        if state.trace_spans[i].kind == SpanKind::Run {
            return Some(i);
        }
        i = i + 1;
    }
    None
}

/// The spans of a run once it finished: one is added when none covers it.
pub open spec fn spans_at_finish(spans: Seq<SpanView>) -> Seq<SpanView> {
    if run_span_place(spans, 0) is None {
        spans.push(run_span(Seq::empty()))
    } else {
        spans
    }
}

/// The event a run ends with, in the span that covers it.
pub open spec fn finish_event(spans: Seq<SpanView>) -> EventView {
    bare_event(
        match run_span_place(spans, 0) {
            Some(place) => place,
            None => spans.len(),
        },
        "run_finished"@,
    )
}

/// Records that a run finished.
pub fn record_run_finish(state: &mut RunState)
    ensures
        spans_view(final(state).trace_spans@) == spans_at_finish(
            spans_view(old(state).trace_spans@),
        ),
        events_view(final(state).trace_events@) == events_view(old(state).trace_events@).push(
            finish_event(spans_view(old(state).trace_spans@)),
        ),
        final(state).run_id == old(state).run_id,
        final(state).active_agent == old(state).active_agent,
        final(state).transcript == old(state).transcript,
        final(state).approvals == old(state).approvals,
{
    let place: usize = match run_span_id(state) {
        Some(place) => place,
        None => {
            let fields: Vec<(String, Json)> = Vec::new();
            assert(entries_view(fields@) =~= Seq::empty());
            push_run_span(state, fields)
        },
    };
    push_event(state, place, "run_finished");
}

/// Starts a run: the history, unless the run is self-contained, and the input
/// after it.
pub fn start_run(input: &Envelope, history: Transcript, run_id: &str, active_agent: &str) -> (out:
    StartedRun)
    requires
        ordered(entries_view(input.metadata@)),
    ensures
        out.ephemeral == marks_ephemeral(entries_view(input.metadata@)),
        out.persisted_len == starting_history(*input, history@).len(),
        out.state.transcript@.len() == out.persisted_len + 1,
        out.state.transcript@.take(out.persisted_len as int) == starting_history(*input, history@),
        is_input_item(out.state.transcript@.last(), *input),
        out.state.run_id@ == run_id@,
        out.state.active_agent@ == active_agent@,
        spans_view(out.state.trace_spans@) == seq![run_span(run_fields(run_id@, active_agent@))],
        events_view(out.state.trace_events@) == seq![bare_event(0, "run_started"@)],
        out.state.approvals@.len() == 0,
{
    let ephemeral = is_ephemeral(&input.metadata);
    let mut state = RunState::new(run_id, active_agent);
    if !ephemeral {
        state.transcript = history;
    }
    let ghost before = state.transcript@;
    assert(before =~= starting_history(*input, history@));
    let persisted_len: usize = state.transcript.items.len();
    let item = input_item(input);
    let ghost view = item@;
    state.transcript.items.push(item);
    assert(state.transcript@ =~= before.push(view));
    assert(state.transcript@.take(persisted_len as int) =~= before);
    assert(spans_view(state.trace_spans@) =~= Seq::empty());
    assert(events_view(state.trace_events@) =~= Seq::empty());
    record_run_start(&mut state);
    assert(spans_view(state.trace_spans@) =~= seq![run_span(run_fields(run_id@, active_agent@))]);
    assert(events_view(state.trace_events@) =~= seq![bare_event(0, "run_started"@)]);
    StartedRun { state, persisted_len, ephemeral }
}

/// The items of a transcript after the first `persisted_len`.
pub fn new_items(transcript: &Transcript, persisted_len: usize) -> (out: Vec<Item>)
    requires
        persisted_len <= transcript@.len(),
    ensures
        items_view(out@) == transcript@.skip(persisted_len as int),
{
    let mut out: Vec<Item> = Vec::new();
    let mut i: usize = persisted_len;
    while i < transcript.items.len()
        invariant
            persisted_len <= i <= transcript.items@.len(),
            out@.len() == i - persisted_len,
            forall|k: int|
                0 <= k < out@.len() ==> (#[trigger] out@[k])@ == transcript.items@[persisted_len
                    + k]@,
        decreases transcript.items@.len() - i,
    {
        out.push(transcript.items[i].copy());
        i = i + 1;
    }
    assert(items_view(out@) =~= transcript@.skip(persisted_len as int));
    out
}

/// Whether the run of a transcript is self-contained: its first item says so.
pub open spec fn is_ephemeral_run(items: Seq<ItemView>) -> bool {
    items.len() > 0 && marks_ephemeral(items[0].metadata)
}

/// The item a run ends with.
pub open spec fn output_item(message: MessageView) -> ItemView {
    ItemView { message, metadata: Seq::empty() }
}

/// Finishes a run: its reply becomes the last item.
pub fn close_run(state: &mut RunState, message: &Message)
    ensures
        final(state).transcript@ == old(state).transcript@.push(output_item(message@)),
        spans_view(final(state).trace_spans@) == spans_at_finish(
            spans_view(old(state).trace_spans@),
        ),
        events_view(final(state).trace_events@) == events_view(old(state).trace_events@).push(
            finish_event(spans_view(old(state).trace_spans@)),
        ),
        final(state).run_id == old(state).run_id,
        final(state).active_agent == old(state).active_agent,
        final(state).approvals == old(state).approvals,
{
    let ghost before = state.transcript@;
    let item = Item { message: message.copy(), metadata: Vec::new() };
    assert(item@ =~= output_item(message@));
    state.transcript.items.push(item);
    assert(state.transcript@ =~= before.push(output_item(message@)));
    record_run_finish(state);
}

/// Decides [`is_ephemeral_run`].
pub fn is_self_contained(transcript: &Transcript) -> (yes: bool)
    ensures
        yes == is_ephemeral_run(transcript@),
{
    if transcript.items.len() == 0 {
        false
    } else {
        assert(transcript@[0] == transcript.items@[0]@);
        is_ephemeral(&transcript.items[0].metadata)
    }
}

/// How a run ended.
pub enum RunOutcome {
    Finished { state: RunState, output: Envelope },
    Paused(RunState),
}

/// A conversation gains exactly what a run added: what it held, followed by
/// what is appended, is the run's transcript.
pub proof fn the_conversation_gains_what_the_run_added(
    history: Seq<ItemView>,
    transcript: Seq<ItemView>,
    persisted_len: int,
)
    requires
        0 <= persisted_len <= transcript.len(),
        transcript.take(persisted_len) == history,
    ensures
        history + transcript.skip(persisted_len) =~= transcript,
{
}

/// A self-contained run stays one: the item it starts with carries the mark,
/// so that whoever finishes it writes nothing back, however often it paused.
pub proof fn a_self_contained_run_stays_one(
    input: Envelope,
    first: ItemView,
    transcript: Seq<ItemView>,
)
    requires
        marks_ephemeral(entries_view(input.metadata@)),
        is_input_item(first, input),
        transcript.len() > 0,
        transcript[0] == first,
    ensures
        is_ephemeral_run(transcript),
{
    let own = lookup(entries_view(input.metadata@), SESSION_SCOPE_KEY@);
    assert(own is Some);
    assert(lookup(first.metadata, SESSION_SCOPE_KEY@) == own);
}

/// A run that continues its conversation is never taken for a self-contained
/// one: its input does not carry the mark.
pub proof fn an_ordinary_run_stays_one(input: Envelope, first: ItemView, transcript: Seq<ItemView>)
    requires
        !marks_ephemeral(entries_view(input.metadata@)),
        is_input_item(first, input),
        transcript.len() > 0,
        transcript[0] == first,
    ensures
        !is_ephemeral_run(transcript),
{
    reveal_strlit("session_scope");
    reveal_strlit("conversation_id");
    reveal_strlit("channel_id");
    reveal_strlit("sender");
    let key = SESSION_SCOPE_KEY@;
    let own = lookup(entries_view(input.metadata@), key);
    let defaults = input_defaults(input.conversation_id@, input.channel_id@, input.sender@);
    assert(lookup(first.metadata, key) == match own {
        Some(value) => Some(value),
        None => lookup(defaults, key),
    });
    assert(key.len() == 13);
    assert("conversation_id"@.len() == 15);
    assert("channel_id"@.len() == 10);
    assert("sender"@.len() == 6);
    let second = defaults.drop_first();
    let third = second.drop_first();
    assert(defaults[0].0 == "conversation_id"@);
    assert(second[0].0 == "channel_id"@);
    assert(third[0].0 == "sender"@);
    assert(lookup(third.drop_first(), key) is None);
    assert(lookup(third, key) is None);
    assert(lookup(second, key) is None);
    assert(lookup(defaults, key) is None);
}

/// A run is self-contained exactly when its input's scope says so, and then it
/// starts from nothing; any other starts from the whole history.
pub proof fn only_a_marked_run_starts_afresh(input: Envelope, history: Seq<ItemView>)
    ensures
        marks_ephemeral(entries_view(input.metadata@)) <==> lookup(
            entries_view(input.metadata@),
            "session_scope"@,
        ) == Some(Value::Text("ephemeral"@)),
        lookup(entries_view(input.metadata@), "session_scope"@) == Some(Value::Text("ephemeral"@))
            ==> starting_history(input, history).len() == 0,
        lookup(entries_view(input.metadata@), "session_scope"@) != Some(Value::Text("ephemeral"@))
            ==> starting_history(input, history) == history,
{
}

/// An input keeps what it says of itself; where it is silent it says its
/// conversation, its channel and its sender, and nothing else.
pub proof fn an_input_says_where_it_came_from(item: ItemView, input: Envelope, key: Seq<char>)
    requires
        is_input_item(item, input),
    ensures
        item.message == input.message@,
        lookup(entries_view(input.metadata@), key) matches Some(own) ==> lookup(item.metadata, key)
            == Some(own),
        lookup(entries_view(input.metadata@), "conversation_id"@) is None ==> lookup(
            item.metadata,
            "conversation_id"@,
        ) == Some(Value::Text(input.conversation_id@)),
        lookup(entries_view(input.metadata@), "channel_id"@) is None ==> lookup(
            item.metadata,
            "channel_id"@,
        ) == Some(Value::Text(input.channel_id@)),
        lookup(entries_view(input.metadata@), "sender"@) is None ==> lookup(
            item.metadata,
            "sender"@,
        ) == Some(Value::Text(input.sender@)),
        key != "conversation_id"@ && key != "channel_id"@ && key != "sender"@ ==> lookup(
            item.metadata,
            key,
        ) == lookup(entries_view(input.metadata@), key),
{
    reveal_strlit("conversation_id");
    reveal_strlit("channel_id");
    reveal_strlit("sender");
    assert("conversation_id"@.len() == 15);
    assert("channel_id"@.len() == 10);
    assert("sender"@.len() == 6);
    let defaults = input_defaults(input.conversation_id@, input.channel_id@, input.sender@);
    assert(defaults.len() == 3);
    assert(defaults[0] == ("conversation_id"@, Value::Text(input.conversation_id@)));
    assert(defaults[1] == ("channel_id"@, Value::Text(input.channel_id@)));
    assert(defaults[2] == ("sender"@, Value::Text(input.sender@)));
    the_first_entry_counts(defaults, "conversation_id"@);
    the_first_entry_counts(defaults, "channel_id"@);
    the_first_entry_counts(defaults, "sender"@);
    the_first_entry_counts(defaults, key);
    assert(lookup(item.metadata, key) == match lookup(entries_view(input.metadata@), key) {
        Some(value) => Some(value),
        None => lookup(defaults, key),
    });
    assert(lookup(item.metadata, "conversation_id"@) == match lookup(
        entries_view(input.metadata@),
        "conversation_id"@,
    ) {
        Some(value) => Some(value),
        None => lookup(defaults, "conversation_id"@),
    });
    assert(lookup(item.metadata, "channel_id"@) == match lookup(
        entries_view(input.metadata@),
        "channel_id"@,
    ) {
        Some(value) => Some(value),
        None => lookup(defaults, "channel_id"@),
    });
    assert(lookup(item.metadata, "sender"@) == match lookup(
        entries_view(input.metadata@),
        "sender"@,
    ) {
        Some(value) => Some(value),
        None => lookup(defaults, "sender"@),
    });
}

/// A run ends in the span that covers it, the first that does; where none does
/// one is added, and no other span is touched.
pub proof fn a_run_ends_in_its_own_span(spans: Seq<SpanView>)
    ensures
        ({
            let after = spans_at_finish(spans);
            let event = finish_event(spans);
            &&& event.name == "run_finished"@
            &&& event.fields.len() == 0
            &&& event.span < after.len()
            &&& after[event.span as int].kind == SpanKind::Run
            &&& forall|j: int| 0 <= j < event.span ==> (#[trigger] after[j]).kind != SpanKind::Run
            &&& after.take(spans.len() as int) == spans
            &&& after.len() == spans.len() + (if exists|j: int|
                0 <= j < spans.len() && (#[trigger] spans[j]).kind == SpanKind::Run {
                0int
            } else {
                1int
            })
        }),
{
    lemma_run_span(spans, 0);
    assert(spans_at_finish(spans).take(spans.len() as int) =~= spans);
}

proof fn lemma_run_span(spans: Seq<SpanView>, i: int)
    requires
        0 <= i,
    ensures
        match run_span_place(spans, i) {
            Some(place) => i <= place < spans.len() && spans[place as int].kind == SpanKind::Run
                && forall|j: int| i <= j < place ==> (#[trigger] spans[j]).kind != SpanKind::Run,
            None => forall|j: int|
                i <= j < spans.len() ==> (#[trigger] spans[j]).kind != SpanKind::Run,
        },
    decreases spans.len() - i,
{
    if i < spans.len() {
        lemma_run_span(spans, i + 1);
    }
}

/// The span a run starts with covers it, and says which run it is and who runs
/// it.
pub proof fn the_span_of_a_run_says_which_it_is(run_id: Seq<char>, active_agent: Seq<char>)
    ensures
        ({
            let span = run_span(run_fields(run_id, active_agent));
            &&& span.parent is None
            &&& span.kind == SpanKind::Run
            &&& lookup(span.fields, "run_id"@) == Some(Value::Text(run_id))
            &&& lookup(span.fields, "active_agent"@) == Some(Value::Text(active_agent))
        }),
{
    reveal_strlit("run_id");
    reveal_strlit("active_agent");
    assert("run_id"@.len() == 6);
    assert("active_agent"@.len() == 12);
    let fields = run_fields(run_id, active_agent);
    assert(fields[0].0 == "active_agent"@);
    assert(fields[1].0 == "run_id"@);
    the_first_entry_counts(fields, "run_id"@);
    the_first_entry_counts(fields, "active_agent"@);
}

/// What a run ends with is its reply as it was said.
pub proof fn a_run_ends_with_its_reply(items: Seq<ItemView>, message: MessageView)
    ensures
        items.push(output_item(message)).last().message == message,
        output_item(message).metadata.len() == 0,
        items.len() > 0 ==> (is_ephemeral_run(items.push(output_item(message)))
            <==> is_ephemeral_run(items)),
{
}

} // verus!
