//! What is done to memory, and the log of it.

use super::scope::{
    owner_id, owner_kind, store_name, visibility_name, CallerView, MemoryCaller, MemoryScope,
    ScopeView,
};
use crate::json::{
    entries_view, lemma_overlaid_at, lemma_overlaid_elsewhere, lookup, ordered, overlaid, put_all,
    text_of, Json, Value,
};
use crate::lists::contains_text;
use crate::text::{opt_view, texts};
use vstd::prelude::*;

verus! {

/// What a caller does to memory.
#[derive(Clone, Copy, Debug, PartialEq, Eq, Structural)]
pub enum MemoryOperation {
    Read,
    Write,
    Forget,
}

/// The stable name of an operation.
pub open spec fn operation_name(operation: MemoryOperation) -> Seq<char> {
    match operation {
        MemoryOperation::Read => "read"@,
        MemoryOperation::Write => "write"@,
        MemoryOperation::Forget => "forget"@,
    }
}

impl MemoryOperation {
    /// The stable name of this operation.
    pub fn as_str(self) -> (name: &'static str)
        ensures
            name@ == operation_name(self),
    {
        match self {
            MemoryOperation::Read => "read",
            MemoryOperation::Write => "write",
            MemoryOperation::Forget => "forget",
        }
    }
}

/// Why a memory operation failed.
#[derive(Debug)]
pub enum MemoryError {
    Backend(String),
}

/// One row of the access log.
pub struct AccessLogEntry {
    pub operation: MemoryOperation,
    /// The record, when the operation touched one.
    pub record_id: Option<String>,
    pub namespace: String,
    pub caller_agent_id: String,
    pub caller_task_id: String,
    pub caller_conversation_id: String,
    pub reason: Option<String>,
}

/// What an [`AccessLogEntry`] stands for.
#[verifier::ext_equal]
pub struct LogRow {
    pub operation: MemoryOperation,
    pub record_id: Option<Seq<char>>,
    pub namespace: Seq<char>,
    pub caller_agent_id: Seq<char>,
    pub caller_task_id: Seq<char>,
    pub caller_conversation_id: Seq<char>,
    pub reason: Option<Seq<char>>,
}

impl View for AccessLogEntry {
    type V = LogRow;

    open spec fn view(&self) -> LogRow {
        LogRow {
            operation: self.operation,
            record_id: opt_view(self.record_id),
            namespace: self.namespace@,
            caller_agent_id: self.caller_agent_id@,
            caller_task_id: self.caller_task_id@,
            caller_conversation_id: self.caller_conversation_id@,
            reason: opt_view(self.reason),
        }
    }
}

/// The row that logs one operation of a caller.
pub open spec fn log_row(
    operation: MemoryOperation,
    record_id: Option<Seq<char>>,
    namespace: Seq<char>,
    caller: CallerView,
    reason: Option<Seq<char>>,
) -> LogRow {
    LogRow {
        operation,
        record_id,
        namespace,
        caller_agent_id: caller.agent_id,
        caller_task_id: caller.task_id,
        caller_conversation_id: caller.conversation_id,
        reason,
    }
}

/// The rows of a list.
pub open spec fn rows_view(rows: Seq<AccessLogEntry>) -> Seq<LogRow> {
    rows.map_values(|r: AccessLogEntry| r@)
}

/// Builds [`log_row`].
pub fn access_log_entry(
    operation: MemoryOperation,
    record_id: Option<&str>,
    namespace: &str,
    caller: &MemoryCaller,
    reason: &Option<String>,
) -> (row: AccessLogEntry)
    ensures
        row@ == log_row(
            operation,
            match record_id {
                Some(id) => Some(id@),
                None => None,
            },
            namespace@,
            caller@,
            opt_view(*reason),
        ),
{
    let id = match record_id {
        Some(id) => Some(id.to_owned()),
        None => None,
    };
    let why = match reason {
        Some(text) => Some(text.clone()),
        None => None,
    };
    AccessLogEntry {
        operation,
        record_id: id,
        namespace: namespace.to_owned(),
        caller_agent_id: caller.agent_id.clone(),
        caller_task_id: caller.task_id.clone(),
        caller_conversation_id: caller.conversation_id.clone(),
        reason: why,
    }
}

/// The rows an operation on several records leaves: one per record, in order.
pub fn access_log_for_records(
    operation: MemoryOperation,
    record_ids: &Vec<String>,
    namespace: &str,
    caller: &MemoryCaller,
    reason: &Option<String>,
) -> (rows: Vec<AccessLogEntry>)
    ensures
        rows_view(rows@) == texts(record_ids@).map_values(
            |id: Seq<char>| log_row(operation, Some(id), namespace@, caller@, opt_view(*reason)),
        ),
{
    let mut rows: Vec<AccessLogEntry> = Vec::new();
    let mut i: usize = 0;
    while i < record_ids.len()
        invariant
            i <= record_ids@.len(),
            rows@.len() == i,
            forall|k: int|
                0 <= k < i ==> (#[trigger] rows@[k])@ == log_row(
                    operation,
                    Some(record_ids@[k]@),
                    namespace@,
                    caller@,
                    opt_view(*reason),
                ),
        decreases record_ids@.len() - i,
    {
        rows.push(
            access_log_entry(operation, Some(record_ids[i].as_str()), namespace, caller, reason),
        );
        i = i + 1;
    }
    assert(rows_view(rows@) =~= texts(record_ids@).map_values(
        |id: Seq<char>| log_row(operation, Some(id), namespace@, caller@, opt_view(*reason)),
    ));
    rows
}

/// The rows a read or a forget leaves: one per record it touched, or a single
/// one without a record when it touched none.
pub open spec fn operation_rows(
    operation: MemoryOperation,
    record_ids: Seq<Seq<char>>,
    namespace: Seq<char>,
    caller: CallerView,
    reason: Option<Seq<char>>,
) -> Seq<LogRow> {
    if record_ids.len() == 0 {
        seq![log_row(operation, None, namespace, caller, reason)]
    } else {
        record_ids.map_values(
            |id: Seq<char>| log_row(operation, Some(id), namespace, caller, reason),
        )
    }
}

/// Builds [`operation_rows`].
pub fn log_operation(
    operation: MemoryOperation,
    record_ids: &Vec<String>,
    namespace: &str,
    caller: &MemoryCaller,
    reason: &Option<String>,
) -> (rows: Vec<AccessLogEntry>)
    ensures
        rows_view(rows@) == operation_rows(
            operation,
            texts(record_ids@),
            namespace@,
            caller@,
            opt_view(*reason),
        ),
{
    if record_ids.len() == 0 {
        let mut rows: Vec<AccessLogEntry> = Vec::new();
        rows.push(access_log_entry(operation, None, namespace, caller, reason));
        assert(rows_view(rows@) =~= operation_rows(
            operation,
            texts(record_ids@),
            namespace@,
            caller@,
            opt_view(*reason),
        ));
        rows
    } else {
        access_log_for_records(operation, record_ids, namespace, caller, reason)
    }
}

/// Every operation leaves a trace: no read or forget goes unlogged.
pub proof fn every_operation_is_logged(
    operation: MemoryOperation,
    record_ids: Seq<Seq<char>>,
    namespace: Seq<char>,
    caller: CallerView,
    reason: Option<Seq<char>>,
)
    ensures
        operation_rows(operation, record_ids, namespace, caller, reason).len() > 0,
{
}

/// How often a record has been read.
pub struct AccessCount {
    pub record_id: String,
    pub count: u64,
}

/// The counts of a list.
pub open spec fn counts_view(counts: Seq<AccessCount>) -> Seq<(Seq<char>, u64)> {
    counts.map_values(|c: AccessCount| (c.record_id@, c.count))
}

/// One count after a read of some records; a full count stays full.
pub open spec fn counted_once(count: (Seq<char>, u64), ids: Seq<Seq<char>>) -> (Seq<char>, u64) {
    if ids.contains(count.0) && count.1 < u64::MAX {
        (count.0, (count.1 + 1) as u64)
    } else {
        count
    }
}

/// The counts after a read of some records.
pub open spec fn counted(counts: Seq<(Seq<char>, u64)>, ids: Seq<Seq<char>>) -> Seq<(Seq<char>, u64)> {
    counts.map_values(|c: (Seq<char>, u64)| counted_once(c, ids))
}

/// Counts one more read of every listed record.
pub fn record_read_access(counts: &mut Vec<AccessCount>, record_ids: &Vec<String>)
    ensures
        counts_view(final(counts)@) == counted(counts_view(old(counts)@), texts(record_ids@)),
{
    let ghost before = counts_view(counts@);
    let ghost ids = texts(record_ids@);
    let mut i: usize = 0;
    while i < counts.len()
        invariant
            i <= counts@.len(),
            counts@.len() == before.len(),
            ids == texts(record_ids@),
            forall|k: int|
                #![trigger counts_view(counts@)[k]]
                0 <= k < counts@.len() ==> counts_view(counts@)[k] == if k < i {
                    counted_once(before[k], ids)
                } else {
                    before[k]
                },
        decreases counts@.len() - i,
    {
        assert(counts_view(counts@)[i as int] == before[i as int]);
        let ghost now = counts@;
        if contains_text(record_ids, counts[i].record_id.as_str()) {
            let count: u64 = counts[i].count;
            let bumped = AccessCount {
                record_id: counts[i].record_id.clone(),
                count: if count < u64::MAX {
                    count + 1
                } else {
                    count
                },
            };
            counts.set(i, bumped);
        }
        assert forall|k: int|
            #![trigger counts_view(counts@)[k]]
            0 <= k < counts@.len() implies counts_view(counts@)[k] == if k < i + 1 {
            counted_once(before[k], ids)
        } else {
            before[k]
        } by {
            if k != i {
                assert(counts@[k] == now[k]);
                assert(counts_view(now)[k] == counts_view(counts@)[k]);
            }
        }
        i = i + 1;
    }
    assert(counts_view(counts@) =~= counted(before, ids));
}

/// The counts after several reads, one after the other.
pub open spec fn counted_each(
    counts: Seq<(Seq<char>, u64)>,
    reads: Seq<Seq<Seq<char>>>,
) -> Seq<(Seq<char>, u64)>
    decreases reads.len(),
{
    if reads.len() == 0 {
        counts
    } else {
        counted(counted_each(counts, reads.drop_last()), reads.last())
    }
}

/// What a managed write says of itself: whose memory it is, where it is filed,
/// and who wrote it.
pub open spec fn managed_marks(caller: CallerView, scope: ScopeView) -> Seq<(Seq<char>, Value)> {
    seq![
        ("store"@, Value::Text(store_name(scope.store))),
        ("owner_kind"@, Value::Text(owner_kind(scope.owner))),
        ("owner_id"@, Value::Text(owner_id(scope.owner))),
        ("visibility"@, Value::Text(visibility_name(scope.visibility))),
        ("domain"@, Value::Text(scope.domain_field())),
        ("conversation_id"@, Value::Text(caller.conversation_id)),
        ("source_agent_id"@, Value::Text(caller.agent_id)),
        ("source_task_id"@, Value::Text(caller.task_id)),
    ]
}

/// Whether metadata is what a managed write files: what it was given, with
/// [`managed_marks`] over it.
pub open spec fn is_managed(
    filed: Seq<(Seq<char>, Value)>,
    given: Seq<(Seq<char>, Value)>,
    caller: CallerView,
    scope: ScopeView,
) -> bool {
    &&& ordered(filed)
    &&& forall|key: Seq<char>| #[trigger]
        lookup(filed, key) == overlaid(given, managed_marks(caller, scope), key)
}

/// The metadata a managed write files.
pub fn managed_metadata(
    caller: &MemoryCaller,
    scope: &MemoryScope,
    metadata: Vec<(String, Json)>,
) -> (out: Vec<(String, Json)>)
    requires
        ordered(entries_view(metadata@)),
    ensures
        is_managed(entries_view(out@), entries_view(metadata@), caller@, scope@),
{
    let mut marks: Vec<(String, Json)> = Vec::new();
    marks.push(("store".to_owned(), Json::text(scope.store.as_str())));
    marks.push(("owner_kind".to_owned(), Json::text(scope.owner.kind())));
    marks.push(("owner_id".to_owned(), Json::text(scope.owner.namespace_id().as_str())));
    marks.push(("visibility".to_owned(), Json::text(scope.visibility.as_str())));
    marks.push(("domain".to_owned(), Json::text(scope.domain_name().as_str())));
    marks.push(("conversation_id".to_owned(), Json::text(caller.conversation_id.as_str())));
    marks.push(("source_agent_id".to_owned(), Json::text(caller.agent_id.as_str())));
    marks.push(("source_task_id".to_owned(), Json::text(caller.task_id.as_str())));
    assert(entries_view(marks@) =~= managed_marks(caller@, scope@));
    let mut out = metadata;
    put_all(&mut out, &marks);
    out
}

/// A managed record is found by its owner: whatever it was given, its metadata
/// names the store, the owner, the visibility and the domain it is filed
/// under, and who wrote it. Its status is the one it was given.
pub proof fn a_managed_record_names_its_owner(
    filed: Seq<(Seq<char>, Value)>,
    given: Seq<(Seq<char>, Value)>,
    caller: CallerView,
    scope: ScopeView,
)
    requires
        is_managed(filed, given, caller, scope),
    ensures
        text_of(lookup(filed, "store"@)) == Some(store_name(scope.store)),
        text_of(lookup(filed, "owner_kind"@)) == Some(owner_kind(scope.owner)),
        text_of(lookup(filed, "owner_id"@)) == Some(owner_id(scope.owner)),
        text_of(lookup(filed, "visibility"@)) == Some(visibility_name(scope.visibility)),
        text_of(lookup(filed, "domain"@)) == Some(scope.domain_field()),
        text_of(lookup(filed, "conversation_id"@)) == Some(caller.conversation_id),
        text_of(lookup(filed, "source_agent_id"@)) == Some(caller.agent_id),
        text_of(lookup(filed, "source_task_id"@)) == Some(caller.task_id),
        lookup(filed, "status"@) == lookup(given, "status"@),
{
    reveal_strlit("store");
    reveal_strlit("owner_kind");
    reveal_strlit("owner_id");
    reveal_strlit("visibility");
    reveal_strlit("domain");
    reveal_strlit("conversation_id");
    reveal_strlit("source_agent_id");
    reveal_strlit("source_task_id");
    reveal_strlit("status");
    let marks = managed_marks(caller, scope);
    assert("owner_kind"@[0] == 'o' && "visibility"@[0] == 'v');
    assert("conversation_id"@[0] == 'c' && "source_agent_id"@[0] == 's');
    assert("domain"@[0] == 'd' && "status"@[0] == 's');
    assert(marks[0].0.len() == 5 && marks[1].0.len() == 10 && marks[2].0.len() == 8
        && marks[3].0.len() == 10 && marks[4].0.len() == 6 && marks[5].0.len() == 15
        && marks[6].0.len() == 15 && marks[7].0.len() == 14 && "status"@.len() == 6);
    lemma_overlaid_at(given, marks, 0);
    lemma_overlaid_at(given, marks, 1);
    lemma_overlaid_at(given, marks, 2);
    lemma_overlaid_at(given, marks, 3);
    lemma_overlaid_at(given, marks, 4);
    lemma_overlaid_at(given, marks, 5);
    lemma_overlaid_at(given, marks, 6);
    lemma_overlaid_at(given, marks, 7);
    lemma_overlaid_elsewhere(given, marks, "status"@);
}

/// A read is counted at the records it returned and nowhere else: once more for
/// each, in place, however often it is listed.
pub proof fn a_read_is_counted_once(counts: Seq<(Seq<char>, u64)>, ids: Seq<Seq<char>>, i: int)
    requires
        0 <= i < counts.len(),
    ensures
        counted(counts, ids).len() == counts.len(),
        counted(counts, ids)[i].0 == counts[i].0,
        (exists|k: int| 0 <= k < ids.len() && #[trigger] ids[k] == counts[i].0) && counts[i].1
            < u64::MAX ==> counted(counts, ids)[i].1 == counts[i].1 + 1,
        (forall|k: int| 0 <= k < ids.len() ==> #[trigger] ids[k] != counts[i].0) ==> counted(
            counts,
            ids,
        )[i] == counts[i],
{
    if exists|k: int| 0 <= k < ids.len() && #[trigger] ids[k] == counts[i].0 {
        let k = choose|k: int| 0 <= k < ids.len() && #[trigger] ids[k] == counts[i].0;
        assert(ids.contains(counts[i].0));
    }
}

/// The log says what was done, to which record, where, by whom and why: one row
/// for every record, in order, or one without a record.
pub proof fn the_log_says_who_did_what(
    operation: MemoryOperation,
    record_ids: Seq<Seq<char>>,
    namespace: Seq<char>,
    caller: CallerView,
    reason: Option<Seq<char>>,
    i: int,
)
    requires
        0 <= i < operation_rows(operation, record_ids, namespace, caller, reason).len(),
    ensures
        ({
            let rows = operation_rows(operation, record_ids, namespace, caller, reason);
            &&& record_ids.len() > 0 ==> rows.len() == record_ids.len() && rows[i].record_id
                == Some(record_ids[i])
            &&& record_ids.len() == 0 ==> rows.len() == 1 && rows[i].record_id is None
            &&& rows[i].operation == operation
            &&& rows[i].namespace == namespace
            &&& rows[i].caller_agent_id == caller.agent_id
            &&& rows[i].caller_task_id == caller.task_id
            &&& rows[i].caller_conversation_id == caller.conversation_id
            &&& rows[i].reason == reason
        }),
{
}

/// Whatever is not a mark of the write itself keeps what it was given.
pub proof fn a_managed_record_keeps_its_own(
    filed: Seq<(Seq<char>, Value)>,
    given: Seq<(Seq<char>, Value)>,
    caller: CallerView,
    scope: ScopeView,
    key: Seq<char>,
)
    requires
        is_managed(filed, given, caller, scope),
        key != "store"@,
        key != "owner_kind"@,
        key != "owner_id"@,
        key != "visibility"@,
        key != "domain"@,
        key != "conversation_id"@,
        key != "source_agent_id"@,
        key != "source_task_id"@,
    ensures
        lookup(filed, key) == lookup(given, key),
{
    lemma_overlaid_elsewhere(given, managed_marks(caller, scope), key);
}

} // verus!
