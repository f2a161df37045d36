//! The records a run leaves behind, one JSON object per line.

use crate::json::{compact_text, entries_view, Json, Value};
use crate::memory::hybrid::values_view;
use crate::text::texts;
use vstd::prelude::*;

verus! {

/// Writes traces below a directory, one file per run.
pub struct JsonlTraceSink {
    pub dir: String,
}

impl JsonlTraceSink {
    /// A sink for a directory.
    pub fn new(dir: &str) -> (out: JsonlTraceSink)
        ensures
            out.dir@ == dir@,
    {
        JsonlTraceSink { dir: dir.to_owned() }
    }

    /// The file of a run, given the stem it is filed under.
    pub fn path(&self, stem: &str) -> (out: String)
        ensures
            out@ == self.dir@ + "/"@ + stem@ + ".jsonl"@,
    {
        let mut out = self.dir.clone();
        out.push_str("/");
        out.push_str(stem);
        out.push_str(".jsonl");
        out
    }
}

/// What every record of a batch says.
pub struct TraceBatch {
    pub run_id: String,
    pub active_agent: String,
    /// How far the run had come.
    pub phase: String,
    /// When the batch was written, in Unix seconds.
    pub emitted_unix: u64,
}

/// The record of one span.
pub open spec fn span_record(batch: TraceBatch, index: nat, span: Value) -> Value {
    Value::Object(
        seq![
            ("active_agent"@, Value::Text(batch.active_agent@)),
            ("emitted_unix"@, Value::Number(batch.emitted_unix as int)),
            ("index"@, Value::Number(index as int)),
            ("phase"@, Value::Text(batch.phase@)),
            ("record_type"@, Value::Text("span"@)),
            ("run_id"@, Value::Text(batch.run_id@)),
            ("span"@, span),
        ],
    )
}

/// The record of one event.
pub open spec fn event_record(batch: TraceBatch, index: nat, event: Value) -> Value {
    Value::Object(
        seq![
            ("active_agent"@, Value::Text(batch.active_agent@)),
            ("emitted_unix"@, Value::Number(batch.emitted_unix as int)),
            ("event"@, event),
            ("index"@, Value::Number(index as int)),
            ("phase"@, Value::Text(batch.phase@)),
            ("record_type"@, Value::Text("event"@)),
            ("run_id"@, Value::Text(batch.run_id@)),
        ],
    )
}

fn span_line(batch: &TraceBatch, index: usize, span: &Json) -> (out: String)
    ensures
        out@ == compact_text(span_record(*batch, index as nat, span@)),
{
    let mut entries: Vec<(String, Json)> = Vec::new();
    entries.push(("active_agent".to_owned(), Json::text(batch.active_agent.as_str())));
    entries.push(("emitted_unix".to_owned(), Json::Unsigned(batch.emitted_unix)));
    entries.push(("index".to_owned(), Json::Unsigned(index as u64)));
    entries.push(("phase".to_owned(), Json::text(batch.phase.as_str())));
    entries.push(("record_type".to_owned(), Json::text("span")));
    entries.push(("run_id".to_owned(), Json::text(batch.run_id.as_str())));
    entries.push(("span".to_owned(), span.copy()));
    assert(entries_view(entries@) =~= span_record(*batch, index as nat, span@)->Object_0);
    Json::object(entries).to_text()
}

fn event_line(batch: &TraceBatch, index: usize, event: &Json) -> (out: String)
    ensures
        out@ == compact_text(event_record(*batch, index as nat, event@)),
{
    let mut entries: Vec<(String, Json)> = Vec::new();
    entries.push(("active_agent".to_owned(), Json::text(batch.active_agent.as_str())));
    entries.push(("emitted_unix".to_owned(), Json::Unsigned(batch.emitted_unix)));
    entries.push(("event".to_owned(), event.copy()));
    entries.push(("index".to_owned(), Json::Unsigned(index as u64)));
    entries.push(("phase".to_owned(), Json::text(batch.phase.as_str())));
    entries.push(("record_type".to_owned(), Json::text("event")));
    entries.push(("run_id".to_owned(), Json::text(batch.run_id.as_str())));
    assert(entries_view(entries@) =~= event_record(*batch, index as nat, event@)->Object_0);
    Json::object(entries).to_text()
}

/// The lines for spans from `start` up to `end`.
pub open spec fn span_lines(batch: TraceBatch, spans: Seq<Value>, start: int, end: int) -> Seq<Seq<char>>
    decreases end,
{
    if end <= start || end <= 0 {
        Seq::empty()
    } else {
        span_lines(batch, spans, start, end - 1).push(
            compact_text(span_record(batch, (end - 1) as nat, spans[end - 1])),
        )
    }
}

/// The lines for events from `start` up to `end`.
pub open spec fn event_lines(
    batch: TraceBatch,
    events: Seq<Value>,
    start: int,
    end: int,
) -> Seq<Seq<char>>
    decreases end,
{
    if end <= start || end <= 0 {
        Seq::empty()
    } else {
        event_lines(batch, events, start, end - 1).push(
            compact_text(event_record(batch, (end - 1) as nat, events[end - 1])),
        )
    }
}

/// The lines a batch appends: the spans from `span_start` on, then the events
/// from `event_start` on, each with its place in the run.
pub fn trace_lines(
    batch: &TraceBatch,
    spans: &Vec<Json>,
    events: &Vec<Json>,
    span_start: usize,
    event_start: usize,
) -> (out: Vec<String>)
    ensures
        texts(out@) == span_lines(
            *batch,
            values_view(spans@),
            span_start as int,
            spans@.len() as int,
        ) + event_lines(*batch, values_view(events@), event_start as int, events@.len() as int),
{
    let ghost all_spans = values_view(spans@);
    let ghost all_events = values_view(events@);
    let mut out: Vec<String> = Vec::new();
    let mut i: usize = span_start;
    assert(texts(out@) =~= span_lines(*batch, all_spans, span_start as int, span_start as int));
    while i < spans.len()
        invariant
            span_start <= i,
            i <= spans@.len() || i == span_start,
            all_spans == values_view(spans@),
            texts(out@) == span_lines(*batch, all_spans, span_start as int, i as int),
        decreases spans@.len() - i,
    {
        let ghost before = texts(out@);
        let line = span_line(batch, i, &spans[i]);
        let ghost view = line@;
        out.push(line);
        assert(all_spans[i as int] == spans@[i as int]@);
        assert(texts(out@) =~= before.push(view));
        i = i + 1;
    }
    let ghost first = texts(out@);
    assert(first =~= span_lines(*batch, all_spans, span_start as int, spans@.len() as int));
    let mut j: usize = event_start;
    assert(first + event_lines(*batch, all_events, event_start as int, event_start as int)
        =~= first);
    while j < events.len()
        invariant
            event_start <= j,
            j <= events@.len() || j == event_start,
            all_events == values_view(events@),
            texts(out@) == first + event_lines(*batch, all_events, event_start as int, j as int),
        decreases events@.len() - j,
    {
        let ghost before = texts(out@);
        let line = event_line(batch, j, &events[j]);
        let ghost view = line@;
        out.push(line);
        assert(all_events[j as int] == events@[j as int]@);
        assert(texts(out@) =~= before.push(view));
        assert(texts(out@) =~= first + event_lines(
            *batch,
            all_events,
            event_start as int,
            j + 1,
        ));
        j = j + 1;
    }
    assert(event_lines(*batch, all_events, event_start as int, j as int) =~= event_lines(
        *batch,
        all_events,
        event_start as int,
        events@.len() as int,
    ));
    out
}

/// Every span and every event from the first that was not kept yet has a line
/// of its own, in order, which says at which place of the run it stands.
pub proof fn every_record_has_a_line(batch: TraceBatch, all: Seq<Value>, start: int, end: int)
    requires
        0 <= start <= end,
    ensures
        span_lines(batch, all, start, end) == Seq::new(
            (end - start) as nat,
            |k: int| compact_text(span_record(batch, (start + k) as nat, all[start + k])),
        ),
        event_lines(batch, all, start, end) == Seq::new(
            (end - start) as nat,
            |k: int| compact_text(event_record(batch, (start + k) as nat, all[start + k])),
        ),
    decreases end,
{
    if start < end {
        every_record_has_a_line(batch, all, start, end - 1);
    }
    assert(span_lines(batch, all, start, end) =~= Seq::new(
        (end - start) as nat,
        |k: int| compact_text(span_record(batch, (start + k) as nat, all[start + k])),
    ));
    assert(event_lines(batch, all, start, end) =~= Seq::new(
        (end - start) as nat,
        |k: int| compact_text(event_record(batch, (start + k) as nat, all[start + k])),
    ));
}

/// A record says what it is of, where it stands, and what its batch says.
pub proof fn a_record_says_what_it_is_of(batch: TraceBatch, index: nat, value: Value)
    ensures
        span_record(batch, index, value) matches Value::Object(entries) && {
            &&& entries.contains(("span"@, value))
            &&& entries.contains(("index"@, Value::Number(index as int)))
            &&& entries.contains(("record_type"@, Value::Text("span"@)))
            &&& entries.contains(("run_id"@, Value::Text(batch.run_id@)))
            &&& entries.contains(("active_agent"@, Value::Text(batch.active_agent@)))
            &&& entries.contains(("phase"@, Value::Text(batch.phase@)))
            &&& entries.contains(("emitted_unix"@, Value::Number(batch.emitted_unix as int)))
        },
        event_record(batch, index, value) matches Value::Object(entries) && {
            &&& entries.contains(("event"@, value))
            &&& entries.contains(("index"@, Value::Number(index as int)))
            &&& entries.contains(("record_type"@, Value::Text("event"@)))
            &&& entries.contains(("run_id"@, Value::Text(batch.run_id@)))
            &&& entries.contains(("active_agent"@, Value::Text(batch.active_agent@)))
            &&& entries.contains(("phase"@, Value::Text(batch.phase@)))
            &&& entries.contains(("emitted_unix"@, Value::Number(batch.emitted_unix as int)))
        },
{
    let a = span_record(batch, index, value)->Object_0;
    assert(a[0] == ("active_agent"@, Value::Text(batch.active_agent@)));
    assert(a[1] == ("emitted_unix"@, Value::Number(batch.emitted_unix as int)));
    assert(a[2] == ("index"@, Value::Number(index as int)));
    assert(a[3] == ("phase"@, Value::Text(batch.phase@)));
    assert(a[4] == ("record_type"@, Value::Text("span"@)));
    assert(a[5] == ("run_id"@, Value::Text(batch.run_id@)));
    assert(a[6] == ("span"@, value));
    let b = event_record(batch, index, value)->Object_0;
    assert(b[0] == ("active_agent"@, Value::Text(batch.active_agent@)));
    assert(b[1] == ("emitted_unix"@, Value::Number(batch.emitted_unix as int)));
    assert(b[2] == ("event"@, value));
    assert(b[3] == ("index"@, Value::Number(index as int)));
    assert(b[4] == ("phase"@, Value::Text(batch.phase@)));
    assert(b[5] == ("record_type"@, Value::Text("event"@)));
    assert(b[6] == ("run_id"@, Value::Text(batch.run_id@)));
}

} // verus!
