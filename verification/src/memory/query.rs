//! Which records a query, a selector or a budget takes.

use crate::json::{
    compact_text, copy_entries, entries_to_text, entries_view, find_text, lookup, text_of, Json, Value,
};
use crate::prompt::sections::{FragmentView, MemoryFragment};
use crate::text::{
    chars_of, contains, holds, lowered, opt_view, same, to_lower, trim, trimmed,
};
use vstd::prelude::*;

verus! {

/// One stored record.
pub struct Record {
    pub id: Option<String>,
    pub namespace: String,
    pub body: Json,
    pub metadata: Vec<(String, Json)>,
}

/// What a [`Record`] stands for.
#[verifier::ext_equal]
pub struct RecordView {
    pub id: Option<Seq<char>>,
    pub namespace: Seq<char>,
    pub body: Value,
    pub metadata: Seq<(Seq<char>, Value)>,
}

impl View for Record {
    type V = RecordView;

    open spec fn view(&self) -> RecordView {
        RecordView {
            id: opt_view(self.id),
            namespace: self.namespace@,
            body: self.body@,
            metadata: entries_view(self.metadata@),
        }
    }
}

impl Record {
    /// Copies a record.
    pub fn copy(&self) -> (out: Record)
        ensures
            out@ == self@,
    {
        let id = match &self.id {
            Some(id) => Some(id.clone()),
            None => None,
        };
        Record {
            id,
            namespace: self.namespace.clone(),
            body: self.body.copy(),
            metadata: copy_entries(&self.metadata),
        }
    }
}

/// Which records an operation is about: one by its id, else those of a
/// namespace, else all.
pub struct Selector {
    pub id: Option<String>,
    pub namespace: Option<String>,
}

/// Whether a record is live: its status says so, or it says nothing readable.
pub open spec fn is_active(record: RecordView) -> bool {
    match text_of(lookup(record.metadata, "status"@)) {
        Some(status) => status == "active"@,
        None => true,
    }
}

/// Decides [`is_active`].
pub fn record_is_active(record: &Record) -> (active: bool)
    ensures
        active == is_active(record@),
{
    match find_text(&record.metadata, "status") {
        Some(status) => same(status, "active"),
        None => true,
    }
}

/// Whether a live record answers a lexical query: the trimmed query is blank,
/// or occurs in the record's body or metadata, ASCII case aside.
pub open spec fn answers(record: RecordView, query: Option<Seq<char>>) -> bool {
    is_active(record) && match query {
        None => true,
        Some(text) => {
            let needle = lowered(trimmed(text));
            ||| trimmed(text).len() == 0
            ||| holds(lowered(compact_text(record.body)), needle)
            ||| holds(lowered(compact_text(Value::Object(record.metadata))), needle)
        },
    }
}

/// Decides [`answers`].
pub fn record_matches_query(record: &Record, query: &Option<String>) -> (yes: bool)
    ensures
        yes == answers(record@, opt_view(*query)),
{
    if !record_is_active(record) {
        return false;
    }
    let text = match query {
        Some(text) => trim(text.as_str()),
        None => {
            return true;
        },
    };
    if text.as_str().is_empty() {
        return true;
    }
    let needle = to_lower(text.as_str());
    let body = to_lower(record.body.to_text().as_str());
    if contains(body.as_str(), needle.as_str()) {
        return true;
    }
    let metadata = to_lower(entries_to_text(&record.metadata).as_str());
    contains(metadata.as_str(), needle.as_str())
}

/// Whether a selector takes a record.
pub open spec fn selects(id: Option<Seq<char>>, namespace: Option<Seq<char>>, record: RecordView) -> bool {
    if id is Some {
        record.id == id
    } else if let Some(name) = namespace {
        record.namespace == name
    } else {
        true
    }
}

/// Decides [`selects`].
pub fn selector_matches_record(record: &Record, selector: &Selector) -> (yes: bool)
    ensures
        yes == selects(opt_view(selector.id), opt_view(selector.namespace), record@),
{
    if let Some(id) = &selector.id {
        return match &record.id {
            Some(own) => same(own.as_str(), id.as_str()),
            None => false,
        };
    }
    if let Some(namespace) = &selector.namespace {
        return same(record.namespace.as_str(), namespace.as_str());
    }
    true
}

/// The estimate for a fragment: a quarter of the characters of its body and
/// metadata, rounded up, and at least one.
pub open spec fn fragment_tokens(f: FragmentView) -> nat {
    let chars = compact_text(f.body).len() + compact_text(Value::Object(f.metadata)).len();
    if chars == 0 {
        1
    } else {
        (chars + 3) / 4
    }
}

/// Computes [`fragment_tokens`].
pub fn estimate_fragment_tokens(fragment: &MemoryFragment) -> (tokens: usize)
    ensures
        tokens == fragment_tokens(fragment@),
{
    let body: usize = chars_of(fragment.body.to_text().as_str()).len();
    let metadata: usize = chars_of(entries_to_text(&fragment.metadata).as_str()).len();
    let whole: usize = body / 4 + metadata / 4;
    let rest: usize = body % 4 + metadata % 4;
    let tokens: usize = whole + (rest + 3) / 4;
    if tokens == 0 {
        1
    } else {
        tokens
    }
}

/// A record is live unless its status says otherwise in so many words.
pub proof fn only_a_status_takes_a_record_out(record: RecordView)
    ensures
        lookup(record.metadata, "status"@) is None ==> is_active(record),
        lookup(record.metadata, "status"@) == Some(Value::Text("active"@)) ==> is_active(record),
        lookup(record.metadata, "status"@) matches Some(Value::Text(status)) && status != "active"@
            ==> !is_active(record),
        !(lookup(record.metadata, "status"@) matches Some(Value::Text(_))) ==> is_active(record),
{
}

/// A live record answers a query it holds: wherever the words stand in its body
/// or its metadata, in whatever ASCII case, and whatever space is around the
/// query.
pub proof fn a_record_answers_what_it_holds(
    record: RecordView,
    query: Seq<char>,
    left: Seq<char>,
    word: Seq<char>,
    right: Seq<char>,
)
    requires
        is_active(record),
        compact_text(record.body) == left + word + right || compact_text(
            Value::Object(record.metadata),
        ) == left + word + right,
        lowered(word) == lowered(trimmed(query)),
    ensures
        answers(record, Some(query)),
{
    let whole = left + word + right;
    assert(lowered(whole) =~= lowered(left) + lowered(word) + lowered(right));
    crate::text::holding_is_standing_between(lowered(whole), lowered(word));
}

/// What answers a query is live and holds it, or nothing was asked.
pub proof fn an_answer_holds_the_query(record: RecordView, query: Option<Seq<char>>)
    ensures
        answers(record, query) ==> is_active(record),
        answers(record, None) == is_active(record),
        query matches Some(text) && trimmed(text).len() == 0 ==> answers(record, query)
            == is_active(record),
        query matches Some(text) ==> (answers(record, query) && trimmed(text).len() > 0 ==> holds(
            lowered(compact_text(record.body)),
            lowered(trimmed(text)),
        ) || holds(
            lowered(compact_text(Value::Object(record.metadata))),
            lowered(trimmed(text)),
        )),
{
}

/// A selector with an id takes the record with that id alone, one with a
/// namespace what is filed there, and an empty one everything.
pub proof fn a_selector_takes_what_it_names(
    id: Option<Seq<char>>,
    namespace: Option<Seq<char>>,
    record: RecordView,
)
    ensures
        id is Some ==> (selects(id, namespace, record) <==> record.id == id),
        id is None && namespace is Some ==> (selects(id, namespace, record) <==> Some(
            record.namespace,
        ) == namespace),
        id is None && namespace is None ==> selects(id, namespace, record),
{
}

/// A fragment costs a token for every four characters, the last of them begun,
/// and never nothing.
pub proof fn four_characters_are_a_token(f: FragmentView)
    ensures
        ({
            let chars = compact_text(f.body).len() + compact_text(Value::Object(f.metadata)).len();
            &&& fragment_tokens(f) >= 1
            &&& 4 * fragment_tokens(f) >= chars
            &&& chars > 0 ==> 4 * (fragment_tokens(f) - 1) < chars
            &&& chars == 0 ==> fragment_tokens(f) == 1
        }),
{
}

} // verus!
