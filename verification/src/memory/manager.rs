//! What a managed read, write, forget or episode does, apart from the store
//! it is done to.

use super::accounting::{
    a_managed_record_names_its_owner, access_log_entry, counted, counted_each, counts_view,
    is_managed, log_operation, log_row, managed_metadata, operation_rows, record_read_access,
    rows_view, AccessCount, AccessLogEntry, LogRow, MemoryError, MemoryOperation,
};
use super::authorize::{
    authorize_scope, conversations_are_isolated, hydration_scopes, refusal, scopes_view, searched_stores, stores_scopes,
    unauthorized, UNAUTHORIZED_PREFIX,
};
use super::hybrid::{last_with, pick_records, picked};
use super::hydration::{
    fragment_of, gathered, nothing, only_active_records_are_recalled, recall_only_grows,
    records_view, saturated, what_fits_is_recalled, Gathered, Hydration, HydrationResult,
};
use super::query::{
    fragment_tokens, is_active, selector_matches_record, selects, Record, RecordView, Selector,
};
use super::scope::{
    namespaces_separate_scopes, outcome_name, CallerView, EpisodeRecord, HydrationRequest, MemoryCaller, MemoryOwner,
    MemoryScope, MemoryStore, MemoryVisibility, OwnerView, RetrievalStrategy, ScopeView,
};
use super::sqlite::{
    a_written_record_is_read_back, answered, assigned_id, forgetting_is_exact, found, holds_id,
    index_view, meets_idless, read_fails, reads_stay_in_their_namespace, remaining, says, RecordTable, TAKEN_ID,
    UNREADABLE_ID,
};
use crate::identity::Identity;
use crate::json::{
    copy_entries, entries_view, lookup, member, ordered, overlaid, put_all, text_list, text_of,
    the_first_entry_counts, Json, Value,
};
use crate::prompt::sections::{fragments_view, FragmentView, MemoryFragment};
use crate::text::{opt_view, same, texts};
use vstd::prelude::*;

verus! {

/// Opens a scope for an operation: the namespace it works on, or the reason it
/// is refused.
pub fn open_scope(caller: &MemoryCaller, scope: &MemoryScope, operation: MemoryOperation) -> (out: Result<
    String,
    MemoryError,
>)
    ensures
        out is Ok <==> refusal(caller@, scope@, operation) is None,
        out matches Ok(namespace) ==> namespace@ == scope@.namespace(),
        out matches Err(MemoryError::Backend(text)) ==> refusal(caller@, scope@, operation)
            matches Some(reason) && text@ == UNAUTHORIZED_PREFIX@ + reason,
{
    match authorize_scope(caller, scope, operation) {
        Ok(()) => Ok(scope.namespace()),
        Err(error) => Err(error),
    }
}

/// Why forgetting is refused: the scope is not the caller's to forget, or the
/// selector names a namespace outside it.
pub open spec fn forget_refusal(
    caller: CallerView,
    scope: ScopeView,
    selected: Option<Seq<char>>,
) -> Option<Seq<char>> {
    match refusal(caller, scope, MemoryOperation::Forget) {
        Some(reason) => Some(reason),
        None => if selected is Some && selected != Some(scope.namespace()) {
            Some("selector namespace is outside the requested scope"@)
        } else {
            None
        },
    }
}

/// Opens a scope for forgetting: the namespace to forget in, or the reason it is refused.
pub fn open_for_forgetting(caller: &MemoryCaller, scope: &MemoryScope, selector: &Selector) -> (out: Result<
    String,
    MemoryError,
>)
    ensures
        out is Ok <==> forget_refusal(caller@, scope@, opt_view(selector.namespace)) is None,
        out matches Ok(namespace) ==> namespace@ == scope@.namespace(),
        out matches Err(MemoryError::Backend(text)) ==> forget_refusal(
            caller@,
            scope@,
            opt_view(selector.namespace),
        ) matches Some(reason) && text@ == UNAUTHORIZED_PREFIX@ + reason,
{
    let namespace = match open_scope(caller, scope, MemoryOperation::Forget) {
        Ok(namespace) => namespace,
        Err(error) => {
            return Err(error);
        },
    };
    if let Some(selected) = &selector.namespace {
        if !same(selected.as_str(), namespace.as_str()) {
            return Err(unauthorized("selector namespace is outside the requested scope"));
        }
    }
    Ok(namespace)
}

/// The ids of the first `n` records a selector takes, in order.
pub open spec fn selected_ids(
    records: Seq<RecordView>,
    id: Option<Seq<char>>,
    namespace: Option<Seq<char>>,
    n: int,
) -> Seq<Seq<char>>
    decreases n,
{
    if n <= 0 {
        Seq::empty()
    } else {
        let before = selected_ids(records, id, namespace, n - 1);
        match records[n - 1].id {
            Some(own) => if selects(id, namespace, records[n - 1]) {
                before.push(own)
            } else {
                before
            },
            None => before,
        }
    }
}

/// The ids of the records a selector takes, in order.
pub fn matching_ids(records: &Vec<Record>, selector: &Selector) -> (out: Vec<String>)
    ensures
        texts(out@) == selected_ids(
            records_view(records@),
            opt_view(selector.id),
            opt_view(selector.namespace),
            records@.len() as int,
        ),
{
    let ghost all = records_view(records@);
    let ghost id = opt_view(selector.id);
    let ghost namespace = opt_view(selector.namespace);
    let mut out: Vec<String> = Vec::new();
    assert(texts(out@) =~= Seq::empty());
    let mut i: usize = 0;
    while i < records.len()
        invariant
            i <= records@.len(),
            all == records_view(records@),
            id == opt_view(selector.id),
            namespace == opt_view(selector.namespace),
            texts(out@) == selected_ids(all, id, namespace, i as int),
        decreases records@.len() - i,
    {
        assert(all[i as int] == records@[i as int]@);
        let ghost before = texts(out@);
        if let Some(own) = &records[i].id {
            if selector_matches_record(&records[i], selector) {
                out.push(own.clone());
                assert(texts(out@) =~= before.push(own@));
            }
        }
        i = i + 1;
    }
    out
}

/// The ids of records, in order.
pub fn record_ids(records: &Vec<Record>) -> (out: Vec<String>)
    ensures
        texts(out@) == selected_ids(records_view(records@), None, None, records@.len() as int),
{
    matching_ids(records, &Selector { id: None, namespace: None })
}

/// What a managed write puts where, and why.
pub struct ManagedWrite {
    pub caller: MemoryCaller,
    pub scope: MemoryScope,
    pub body: Json,
    pub metadata: Vec<(String, Json)>,
    pub reason: String,
}

/// The caller an episode is recorded as.
pub open spec fn episode_caller(episode: EpisodeRecord) -> CallerView {
    CallerView {
        agent_id: episode.active_agent@,
        task_id: episode.task_id@,
        channel_id: episode.channel_id@,
        conversation_id: episode.conversation_id@,
        user_id: opt_view(episode.user_id),
        allowed_shared_domains: Seq::empty(),
        writable_shared_domains: Seq::empty(),
        audit_read_access: false,
    }
}

/// The scope an episode is filed under: its own conversation's.
pub open spec fn episode_scope(episode: EpisodeRecord) -> ScopeView {
    ScopeView {
        store: MemoryStore::Episodic,
        owner: OwnerView::Conversation(
            Identity {
                agent: episode.active_agent@,
                channel: episode.channel_id@,
                conversation: episode.conversation_id@,
                sender: None,
            },
        ),
        visibility: MemoryVisibility::Private,
        domain: None,
    }
}

/// The body of an episode's record.
pub open spec fn episode_body(episode: EpisodeRecord) -> Value {
    Value::Object(
        seq![
            ("active_agent"@, Value::Text(episode.active_agent@)),
            ("conversation_id"@, Value::Text(episode.conversation_id@)),
            ("kind"@, Value::Text("run_episode"@)),
            ("outcome"@, Value::Text(outcome_name(episode.outcome))),
            ("run_id"@, Value::Text(episode.run_id@)),
            ("subagents_used"@, text_list(texts(episode.subagents_used@))),
            ("summary"@, Value::Text(episode.summary@)),
            ("task_id"@, Value::Text(episode.task_id@)),
            ("tools_used"@, text_list(texts(episode.tools_used@))),
        ],
    )
}

/// What an episode's metadata gains.
pub open spec fn episode_marks(episode: EpisodeRecord) -> Seq<(Seq<char>, Value)> {
    seq![
        ("source_run_id"@, Value::Text(episode.run_id@)),
        ("outcome"@, Value::Text(outcome_name(episode.outcome))),
        ("tools_count"@, Value::Number(episode.tools_used@.len() as int)),
        ("subagents_count"@, Value::Number(episode.subagents_used@.len() as int)),
        ("turn_count"@, Value::Number(episode.turn_count as int)),
    ]
}

/// What recording an episode writes; `None` for a run not worth recording.
pub fn episode_write(episode: &EpisodeRecord) -> (out: Option<ManagedWrite>)
    requires
        ordered(entries_view(episode.metadata@)),
    ensures
        out is Some <==> episode.records(),
        out matches Some(write) ==> {
            &&& write.caller@ == episode_caller(*episode)
            &&& write.scope@ == episode_scope(*episode)
            &&& write.body@ == episode_body(*episode)
            &&& ordered(entries_view(write.metadata@))
            &&& forall|key: Seq<char>| #[trigger]
                lookup(entries_view(write.metadata@), key) == overlaid(
                    entries_view(episode.metadata@),
                    episode_marks(*episode),
                    key,
                )
            &&& write.reason@ == "episode_record"@
        },
{
    if !episode.should_record() {
        return None;
    }
    let user_id = match &episode.user_id {
        Some(user) => Some(user.clone()),
        None => None,
    };
    let caller = MemoryCaller {
        agent_id: episode.active_agent.clone(),
        task_id: episode.task_id.clone(),
        channel_id: episode.channel_id.clone(),
        conversation_id: episode.conversation_id.clone(),
        user_id,
        allowed_shared_domains: Vec::new(),
        writable_shared_domains: Vec::new(),
        audit_read_access: false,
    };
    let scope = MemoryScope::new(
        MemoryStore::Episodic,
        MemoryOwner::Conversation(episode.conversation_principal()),
        MemoryVisibility::Private,
        None,
    );
    let mut body: Vec<(String, Json)> = Vec::new();
    body.push(("active_agent".to_owned(), Json::text(episode.active_agent.as_str())));
    body.push(("conversation_id".to_owned(), Json::text(episode.conversation_id.as_str())));
    body.push(("kind".to_owned(), Json::text("run_episode")));
    body.push(("outcome".to_owned(), Json::text(episode.outcome.as_str())));
    body.push(("run_id".to_owned(), Json::text(episode.run_id.as_str())));
    body.push(("subagents_used".to_owned(), Json::text_list(&episode.subagents_used)));
    body.push(("summary".to_owned(), Json::text(episode.summary.as_str())));
    body.push(("task_id".to_owned(), Json::text(episode.task_id.as_str())));
    body.push(("tools_used".to_owned(), Json::text_list(&episode.tools_used)));
    assert(entries_view(body@) =~= episode_body(*episode)->Object_0);
    let mut marks: Vec<(String, Json)> = Vec::new();
    marks.push(("source_run_id".to_owned(), Json::text(episode.run_id.as_str())));
    marks.push(("outcome".to_owned(), Json::text(episode.outcome.as_str())));
    marks.push(("tools_count".to_owned(), Json::Unsigned(episode.tools_used.len() as u64)));
    marks.push(("subagents_count".to_owned(), Json::Unsigned(episode.subagents_used.len() as u64)));
    marks.push(("turn_count".to_owned(), Json::Unsigned(episode.turn_count as u64)));
    assert(entries_view(marks@) =~= episode_marks(*episode));
    let mut metadata = copy_entries(&episode.metadata);
    put_all(&mut metadata, &marks);
    assert(caller@ =~= episode_caller(*episode));
    Some(
        ManagedWrite {
            caller,
            scope,
            body: Json::object(body),
            metadata,
            reason: "episode_record".to_owned(),
        },
    )
}

/// Recording an episode is never refused: it is filed under the conversation
/// it is recorded as.
pub proof fn episodes_are_admitted(episode: EpisodeRecord)
    ensures
        refusal(episode_caller(episode), episode_scope(episode), MemoryOperation::Write) is None,
{
}

/// Long-term memory under its rules: every operation is authorised first, and
/// leaves a row in the access log; every read is counted at the records it
/// returned.
pub struct MemoryManager {
    pub table: RecordTable,
    pub log: Vec<AccessLogEntry>,
    /// How often each record was read.
    pub counts: Vec<AccessCount>,
}

/// The counts among the first `n` whose records are held.
pub open spec fn held_counts(
    counts: Seq<(Seq<char>, u64)>,
    rows: Seq<RecordView>,
    n: int,
) -> Seq<(Seq<char>, u64)>
    decreases n,
{
    if n <= 0 {
        Seq::empty()
    } else if holds_id(rows, counts[n - 1].0) {
        held_counts(counts, rows, n - 1).push(counts[n - 1])
    } else {
        held_counts(counts, rows, n - 1)
    }
}

/// The text a refusal is reported with.
pub open spec fn refused_with(error: MemoryError, reason: Seq<char>) -> bool {
    error matches MemoryError::Backend(text) && text@ == UNAUTHORIZED_PREFIX@ + reason
}

/// Why a scope's search fails, when it does: the caller may not read it, or
/// the read comes upon a row without an id.
pub open spec fn search_failure(
    rows: Seq<RecordView>,
    caller: CallerView,
    scope: ScopeView,
    query: Option<Seq<char>>,
    limit: nat,
) -> Option<Seq<char>> {
    match refusal(caller, scope, MemoryOperation::Read) {
        Some(reason) => Some(UNAUTHORIZED_PREFIX@ + reason),
        None => if read_fails(rows, scope.namespace(), query, limit, None) {
            Some(UNREADABLE_ID@)
        } else {
            None
        },
    }
}

/// What a scope's search comes to, for one way of searching.
pub open spec fn scope_records(
    rows: Seq<RecordView>,
    namespace: Seq<char>,
    strategy: RetrievalStrategy,
    query: Seq<char>,
    limit: nat,
) -> Seq<RecordView> {
    match strategy {
        RetrievalStrategy::Recency => found(rows, namespace, None, limit, rows.len() as int),
        RetrievalStrategy::Lexical => found(rows, namespace, Some(query), limit, rows.len() as int),
        RetrievalStrategy::Hybrid => {
            let lexical = found(rows, namespace, Some(query), limit, rows.len() as int);
            let ids = selected_ids(lexical, None, None, lexical.len() as int);
            let all = picked(ids, lexical, ids.len() as int);
            if limit < all.len() {
                all.take(limit as int)
            } else {
                all
            }
        },
    }
}

/// The query a scope is read with, for one way of searching.
pub open spec fn scope_query(strategy: RetrievalStrategy, query: Seq<char>) -> Option<Seq<char>> {
    match strategy {
        RetrievalStrategy::Recency => None,
        _ => Some(query),
    }
}

/// How far a search has come.
#[verifier::ext_equal]
pub struct Search {
    pub gathered: Gathered,
    /// What was logged.
    pub rows: Seq<LogRow>,
    /// The records each read returned.
    pub reads: Seq<Seq<Seq<char>>>,
    /// What it failed with, if it did.
    pub failed: Option<Seq<char>>,
}

/// What is asked of memory.
#[verifier::ext_equal]
pub struct Asked {
    pub query: Seq<char>,
    pub max_fragments: nat,
    pub max_tokens: nat,
    pub strategy: RetrievalStrategy,
}

/// What a request asks.
pub open spec fn asked(request: HydrationRequest) -> Asked {
    Asked {
        query: request.query@,
        max_fragments: request.max_fragments as nat,
        max_tokens: request.max_tokens as nat,
        strategy: request.strategy,
    }
}

/// How far searching the first `n` scopes comes. Each scope is asked for four
/// records for every fragment there is still room for; the search ends when
/// there is no room, or at a scope that cannot be read.
pub open spec fn search(
    rows: Seq<RecordView>,
    caller: CallerView,
    asked: Asked,
    scopes: Seq<ScopeView>,
    n: int,
) -> Search
    decreases n,
{
    if n <= 0 {
        Search { gathered: nothing(), rows: Seq::empty(), reads: Seq::empty(), failed: None }
    } else {
        let before = search(rows, caller, asked, scopes, n - 1);
        let scope = scopes[n - 1];
        if before.failed is Some || before.gathered.fragments.len() >= asked.max_fragments {
            before
        } else {
            let limit = saturated(
                (4 * (asked.max_fragments - before.gathered.fragments.len())) as nat,
            );
            let query = scope_query(asked.strategy, asked.query);
            match search_failure(rows, caller, scope, query, limit) {
                Some(why) => Search { failed: Some(why), ..before },
                None => {
                    let read = found(
                        rows,
                        scope.namespace(),
                        query,
                        limit,
                        rows.len() as int,
                    );
                    let taken = scope_records(
                        rows,
                        scope.namespace(),
                        asked.strategy,
                        asked.query,
                        limit,
                    );
                    Search {
                        gathered: gathered(
                            before.gathered,
                            asked.max_fragments,
                            asked.max_tokens,
                            taken,
                            taken.len() as int,
                        ),
                        rows: before.rows + operation_rows(
                            MemoryOperation::Read,
                            selected_ids(read, None, None, read.len() as int),
                            scope.namespace(),
                            caller,
                            Some("managed_read"@),
                        ),
                        reads: before.reads.push(
                            selected_ids(read, None, None, read.len() as int),
                        ),
                        failed: None,
                    }
                },
            }
        }
    }
}

/// How far a whole request comes.
pub open spec fn whole_search(
    rows: Seq<RecordView>,
    caller: CallerView,
    request: HydrationRequest,
) -> Search {
    let scopes = stores_scopes(
        caller,
        opt_view(request.domain),
        searched_stores(request.stores@),
    );
    search(rows, caller, asked(request), scopes, scopes.len() as int)
}

impl MemoryManager {
    /// Memory with nothing in it.
    pub fn new() -> (out: MemoryManager)
        ensures
            out.table.rows@.len() == 0,
            out.table.next_row == 1,
            out.log@.len() == 0,
            out.counts@.len() == 0,
    {
        MemoryManager { table: RecordTable::new(), log: Vec::new(), counts: Vec::new() }
    }

    /// The records held.
    pub open spec fn rows(&self) -> Seq<RecordView> {
        records_view(self.table.rows@)
    }

    /// The access log.
    pub open spec fn logged(&self) -> Seq<LogRow> {
        rows_view(self.log@)
    }

    /// How often each record was read.
    pub open spec fn read_counts(&self) -> Seq<(Seq<char>, u64)> {
        counts_view(self.counts@)
    }

    fn append_log(&mut self, rows: Vec<AccessLogEntry>)
        ensures
            final(self).table == old(self).table,
            final(self).counts == old(self).counts,
            final(self).logged() == old(self).logged() + rows_view(rows@),
    {
        let ghost before = self.logged();
        let ghost more = rows_view(rows@);
        let mut rows = rows;
        self.log.append(&mut rows);
        assert(self.logged() =~= before + more);
    }

    /// Keeps the counts of the records that are there.
    fn drop_counts(&mut self)
        ensures
            final(self).table == old(self).table,
            final(self).log == old(self).log,
            final(self).read_counts() == held_counts(
                old(self).read_counts(),
                old(self).rows(),
                old(self).counts@.len() as int,
            ),
    {
        let ghost before = self.read_counts();
        let ghost rows = self.rows();
        let mut kept: Vec<AccessCount> = Vec::new();
        let mut i: usize = 0;
        assert(counts_view(kept@) =~= Seq::empty());
        while i < self.counts.len()
            invariant
                i <= self.counts@.len(),
                *self == *old(self),
                before == self.read_counts(),
                rows == self.rows(),
                counts_view(kept@) == held_counts(before, rows, i as int),
            decreases self.counts@.len() - i,
        {
            assert(before[i as int] == (self.counts@[i as int].record_id@, self.counts@[i as int].count));
            let ghost so_far = counts_view(kept@);
            if self.table.has_id(self.counts[i].record_id.as_str()) {
                kept.push(
                    AccessCount {
                        record_id: self.counts[i].record_id.clone(),
                        count: self.counts[i].count,
                    },
                );
                assert(counts_view(kept@) =~= so_far.push(before[i as int]));
            }
            i = i + 1;
        }
        self.counts = kept;
    }

    /// Writes a record under a scope.
    pub fn write_scoped(
        &mut self,
        caller: &MemoryCaller,
        scope: &MemoryScope,
        body: Json,
        metadata: Vec<(String, Json)>,
    ) -> (out: Result<String, MemoryError>)
        requires
            old(self).table.next_row < u64::MAX,
            ordered(entries_view(metadata@)),
        ensures
            wrote(
                *old(self),
                *final(self),
                caller@,
                scope@,
                body@,
                entries_view(metadata@),
                "managed_write"@,
                out,
            ),
    {
        self.write_scoped_with_reason(caller, scope, body, metadata, "managed_write")
    }

    /// Writes a record under a scope, and says why.
    pub fn write_scoped_with_reason(
        &mut self,
        caller: &MemoryCaller,
        scope: &MemoryScope,
        body: Json,
        metadata: Vec<(String, Json)>,
        reason: &str,
    ) -> (out: Result<String, MemoryError>)
        requires
            old(self).table.next_row < u64::MAX,
            ordered(entries_view(metadata@)),
        ensures
            wrote(
                *old(self),
                *final(self),
                caller@,
                scope@,
                body@,
                entries_view(metadata@),
                reason@,
                out,
            ),
    {
        let namespace = match open_scope(caller, scope, MemoryOperation::Write) {
            Ok(namespace) => namespace,
            Err(error) => {
                return Err(error);
            },
        };
        let ghost given = entries_view(metadata@);
        let metadata = managed_metadata(caller, scope, metadata);
        let ghost filed = entries_view(metadata@);
        let record = Record { id: None, namespace: namespace.clone(), body, metadata };
        let written = self.table.write(namespace.as_str(), record);
        assert(is_managed(filed, given, caller@, scope@));
        assert(self.rows().drop_last() =~= old(self).rows());
        let id = match written {
            Ok(id) => id,
            Err(error) => {
                return Err(error);
            },
        };
        let why = Some(reason.to_owned());
        let mut rows: Vec<AccessLogEntry> = Vec::new();
        rows.push(
            access_log_entry(
                MemoryOperation::Write,
                Some(id.as_str()),
                namespace.as_str(),
                caller,
                &why,
            ),
        );
        let ghost logged = rows_view(rows@);
        self.append_log(rows);
        assert(self.logged() =~= old(self).logged().push(logged[0]));
        let ghost counts = self.read_counts();
        self.counts.push(AccessCount { record_id: id.clone(), count: 0 });
        assert(self.read_counts() =~= counts.push((id@, 0u64)));
        Ok(id)
    }

    /// Reads a scope of a store without a full-text index.
    pub fn read_scoped(
        &mut self,
        caller: &MemoryCaller,
        scope: &MemoryScope,
        query: &Option<String>,
        limit: usize,
    ) -> (out: Result<Vec<Record>, MemoryError>)
        ensures
            have_read(
                *old(self),
                *final(self),
                caller@,
                scope@,
                opt_view(*query),
                limit as nat,
                None,
                "managed_read"@,
                out,
            ),
    {
        self.read_scoped_with_reason(caller, scope, query, limit, "managed_read")
    }

    /// Reads a scope of a store without a full-text index, and says why.
    pub fn read_scoped_with_reason(
        &mut self,
        caller: &MemoryCaller,
        scope: &MemoryScope,
        query: &Option<String>,
        limit: usize,
        reason: &str,
    ) -> (out: Result<Vec<Record>, MemoryError>)
        ensures
            have_read(
                *old(self),
                *final(self),
                caller@,
                scope@,
                opt_view(*query),
                limit as nat,
                None,
                reason@,
                out,
            ),
    {
        self.read_scoped_indexed(caller, scope, query, limit, &None, reason)
    }

    /// Reads a scope, given what the full-text index answered where there is
    /// one, and says why.
    pub fn read_scoped_indexed(
        &mut self,
        caller: &MemoryCaller,
        scope: &MemoryScope,
        query: &Option<String>,
        limit: usize,
        index: &Option<Vec<String>>,
        reason: &str,
    ) -> (out: Result<Vec<Record>, MemoryError>)
        ensures
            have_read(
                *old(self),
                *final(self),
                caller@,
                scope@,
                opt_view(*query),
                limit as nat,
                index_view(*index),
                reason@,
                out,
            ),
    {
        let namespace = match open_scope(caller, scope, MemoryOperation::Read) {
            Ok(namespace) => namespace,
            Err(error) => {
                return Err(error);
            },
        };
        let records = match self.table.read(namespace.as_str(), query, limit, index) {
            Ok(records) => records,
            Err(error) => {
                return Err(error);
            },
        };
        let ids = record_ids(&records);
        let rows = log_operation(
            MemoryOperation::Read,
            &ids,
            namespace.as_str(),
            caller,
            &Some(reason.to_owned()),
        );
        assert(records_view(records@).len() == records@.len());
        self.append_log(rows);
        record_read_access(&mut self.counts, &ids);
        Ok(records)
    }

    /// Forgets what a selector takes in a scope.
    pub fn forget_scoped(
        &mut self,
        caller: &MemoryCaller,
        scope: &MemoryScope,
        selector: &Selector,
    ) -> (out: Result<usize, MemoryError>)
        ensures
            forgot(
                *old(self),
                *final(self),
                caller@,
                scope@,
                opt_view(selector.id),
                opt_view(selector.namespace),
                "managed_forget"@,
                out,
            ),
    {
        self.forget_scoped_with_reason(caller, scope, selector, "managed_forget")
    }

    /// Forgets what a selector takes in a scope, and says why.
    pub fn forget_scoped_with_reason(
        &mut self,
        caller: &MemoryCaller,
        scope: &MemoryScope,
        selector: &Selector,
        reason: &str,
    ) -> (out: Result<usize, MemoryError>)
        ensures
            forgot(
                *old(self),
                *final(self),
                caller@,
                scope@,
                opt_view(selector.id),
                opt_view(selector.namespace),
                reason@,
                out,
            ),
    {
        let namespace = match open_for_forgetting(caller, scope, selector) {
            Ok(namespace) => namespace,
            Err(error) => {
                return Err(error);
            },
        };
        let candidates = match self.table.standard_read(namespace.as_str(), &None, usize::MAX) {
            Ok(candidates) => candidates,
            Err(error) => {
                return Err(error);
            },
        };
        assert(records_view(candidates@).len() == candidates@.len());
        let ids = matching_ids(&candidates, selector);
        let removed: usize = self.table.forget(namespace.as_str(), selector);
        let rows = log_operation(
            MemoryOperation::Forget,
            &ids,
            namespace.as_str(),
            caller,
            &Some(reason.to_owned()),
        );
        assert(self.rows().len() == self.table.rows@.len());
        assert(old(self).rows().len() == old(self).table.rows@.len());
        self.append_log(rows);
        self.drop_counts();
        Ok(removed)
    }

    /// Records a finished run, when it is worth recording.
    pub fn record_episode(&mut self, episode: &EpisodeRecord) -> (out: Result<
        Option<String>,
        MemoryError,
    >)
        requires
            old(self).table.next_row < u64::MAX,
            ordered(entries_view(episode.metadata@)),
        ensures
            !episode.records() ==> out == Ok::<Option<String>, MemoryError>(None) && *final(self)
                == *old(self),
            episode.records() ==> exists|metadata: Seq<(Seq<char>, Value)>|
                #[trigger] is_episode_metadata(*episode, metadata) && wrote(
                    *old(self),
                    *final(self),
                    episode_caller(*episode),
                    episode_scope(*episode),
                    episode_body(*episode),
                    metadata,
                    "episode_record"@,
                    written_id(out),
                ) && (out matches Ok(id) ==> id is Some),
    {
        let write = match episode_write(episode) {
            Some(write) => write,
            None => {
                return Ok(None);
            },
        };
        let ghost metadata = entries_view(write.metadata@);
        let id = self.write_scoped_with_reason(
            &write.caller,
            &write.scope,
            write.body,
            write.metadata,
            write.reason.as_str(),
        );
        assert(is_episode_metadata(*episode, metadata));
        assert(wrote(
            *old(self),
            *self,
            episode_caller(*episode),
            episode_scope(*episode),
            episode_body(*episode),
            metadata,
            "episode_record"@,
            id,
        ));
        match id {
            Ok(id) => Ok(Some(id)),
            Err(error) => Err(error),
        }
    }

    fn scope_search(
        &mut self,
        caller: &MemoryCaller,
        scope: &MemoryScope,
        request: &HydrationRequest,
        limit: usize,
    ) -> (out: Result<Vec<Record>, MemoryError>)
        ensures
            final(self).table == old(self).table,
            out is Ok <==> search_failure(
                old(self).rows(),
                caller@,
                scope@,
                scope_query(request.strategy, request.query@),
                limit as nat,
            ) is None,
            out matches Ok(records) ==> {
                let read = found(
                    old(self).rows(),
                    scope@.namespace(),
                    scope_query(request.strategy, request.query@),
                    limit as nat,
                    old(self).rows().len() as int,
                );
                &&& records_view(records@) == scope_records(
                    old(self).rows(),
                    scope@.namespace(),
                    request.strategy,
                    request.query@,
                    limit as nat,
                )
                &&& final(self).logged() == old(self).logged() + operation_rows(
                    MemoryOperation::Read,
                    selected_ids(read, None, None, read.len() as int),
                    scope@.namespace(),
                    caller@,
                    Some("managed_read"@),
                )
                &&& final(self).read_counts() == counted(
                    old(self).read_counts(),
                    selected_ids(read, None, None, read.len() as int),
                )
            },
            out matches Err(error) ==> *final(self) == *old(self) && says(
                error,
                search_failure(
                    old(self).rows(),
                    caller@,
                    scope@,
                    scope_query(request.strategy, request.query@),
                    limit as nat,
                )->0,
            ),
    {
        let query = match request.strategy {
            RetrievalStrategy::Recency => None,
            _ => Some(request.query.clone()),
        };
        let read = match self.read_scoped(caller, scope, &query, limit) {
            Ok(read) => read,
            Err(error) => {
                return Err(error);
            },
        };
        if request.strategy == RetrievalStrategy::Hybrid {
            let ids = record_ids(&read);
            assert(records_view(read@).len() == read@.len());
            assert(texts(ids@).len() == ids@.len());
            Ok(pick_records(&ids, &read, limit))
        } else {
            Ok(read)
        }
    }

    /// Recalls what a request asks for.
    pub fn hydrate(&mut self, caller: &MemoryCaller, request: &HydrationRequest) -> (out: Result<
        Vec<MemoryFragment>,
        MemoryError,
    >)
        ensures
            final(self).table == old(self).table,
            ({
                let whole = whole_search(old(self).rows(), caller@, *request);
                &&& final(self).logged() == old(self).logged() + whole.rows
                &&& final(self).read_counts() == counted_each(old(self).read_counts(), whole.reads)
                &&& out is Ok <==> whole.failed is None
                &&& out matches Ok(fragments) ==> fragments_view(fragments@)
                    == whole.gathered.fragments
                &&& out matches Err(error) ==> says(error, whole.failed->0)
            }),
    {
        match self.hydrate_with_stats(caller, request) {
            Ok(result) => Ok(result.fragments),
            Err(error) => Err(error),
        }
    }

    /// Recalls what a request asks for, with what was looked at.
    pub fn hydrate_with_stats(&mut self, caller: &MemoryCaller, request: &HydrationRequest) -> (out:
        Result<HydrationResult, MemoryError>)
        ensures
            final(self).table == old(self).table,
            ({
                let whole = whole_search(old(self).rows(), caller@, *request);
                &&& final(self).logged() == old(self).logged() + whole.rows
                &&& final(self).read_counts() == counted_each(old(self).read_counts(), whole.reads)
                &&& out is Ok <==> whole.failed is None
                &&& out matches Ok(result) ==> {
                    &&& fragments_view(result.fragments@) == whole.gathered.fragments
                    &&& result.stats.candidate_count == whole.gathered.candidates
                    &&& result.stats.selected_count == whole.gathered.fragments.len()
                    &&& result.stats.namespace_count == whole.gathered.namespaces.len()
                }
                &&& out matches Err(error) ==> says(error, whole.failed->0)
            }),
    {
        let ghost rows = self.rows();
        let ghost start = self.logged();
        let ghost counts = self.read_counts();
        let ghost want = asked(*request);
        let scopes = hydration_scopes(caller, request);
        let ghost all = scopes_view(scopes@);
        let mut hydration = Hydration::start(request);
        let mut i: usize = 0;
        assert(self.logged() =~= start + Seq::<LogRow>::empty());
        while i < scopes.len()
            invariant
                i <= scopes@.len(),
                all == scopes_view(scopes@),
                want == asked(*request),
                self.table == old(self).table,
                rows == self.rows(),
                start == old(self).logged(),
                counts == old(self).read_counts(),
                self.read_counts() == counted_each(
                    counts,
                    search(rows, caller@, want, all, i as int).reads,
                ),
                hydration.max_fragments == request.max_fragments,
                hydration.max_tokens == request.max_tokens,
                hydration.so_far() == search(rows, caller@, want, all, i as int).gathered,
                self.logged() == start + search(rows, caller@, want, all, i as int).rows,
                search(rows, caller@, want, all, i as int).failed is None,
                all == stores_scopes(
                    caller@,
                    opt_view(request.domain),
                    searched_stores(request.stores@),
                ),
                rows == old(self).rows(),
            decreases scopes@.len() - i,
        {
            let ghost before = search(rows, caller@, want, all, i as int);
            assert(all[i as int] == scopes@[i as int]@);
            assert(hydration.so_far().fragments.len() == hydration.fragments@.len());
            match hydration.candidate_limit() {
                Some(limit) => {
                    let ghost logged = self.logged();
                    match self.scope_search(caller, &scopes[i], request, limit) {
                        Ok(records) => {
                            assert(records_view(records@).len() == records@.len());
                            hydration.take(&records);
                            proof {
                                let after = search(rows, caller@, want, all, i + 1);
                                assert(after.reads.drop_last() =~= before.reads);
                            }
                            assert(self.logged() =~= start + search(
                                rows,
                                caller@,
                                want,
                                all,
                                i + 1,
                            ).rows);
                        },
                        Err(error) => {
                            proof {
                                lemma_failed_stays(rows, caller@, want, all, i + 1, all.len() as int);
                            }
                            return Err(error);
                        },
                    }
                },
                None => {},
            }
            i = i + 1;
        }
        assert(all.len() == scopes@.len());
        assert(hydration.so_far().fragments.len() == hydration.fragments@.len());
        assert(hydration.so_far().namespaces.len() == hydration.namespaces@.len());
        Ok(hydration.finish())
    }
}

proof fn lemma_failed_stays(
    rows: Seq<RecordView>,
    caller: CallerView,
    asked: Asked,
    scopes: Seq<ScopeView>,
    i: int,
    n: int,
)
    requires
        0 <= i <= n,
        search(rows, caller, asked, scopes, i).failed is Some,
    ensures
        search(rows, caller, asked, scopes, n) == search(rows, caller, asked, scopes, i),
    decreases n - i,
{
    if i < n {
        lemma_failed_stays(rows, caller, asked, scopes, i, n - 1);
    }
}

/// The outcome of a write that was made.
pub open spec fn written_id(out: Result<Option<String>, MemoryError>) -> Result<String, MemoryError> {
    match out {
        Ok(id) => Ok(id->0),
        Err(error) => Err(error),
    }
}

/// Whether metadata is what an episode's record gets.
pub open spec fn is_episode_metadata(
    episode: EpisodeRecord,
    metadata: Seq<(Seq<char>, Value)>,
) -> bool {
    &&& ordered(metadata)
    &&& forall|key: Seq<char>| #[trigger]
        lookup(metadata, key) == overlaid(
            entries_view(episode.metadata@),
            episode_marks(episode),
            key,
        )
}

/// Whether a write did what it is for: a refused one changes nothing; any other
/// adds the record last, with metadata that names its owner. Where the id made
/// of the row's number is taken, the write fails and the record is there
/// without an id; else it is there under that id, not yet read, and there is
/// one row more in the log.
pub open spec fn wrote(
    before: MemoryManager,
    after: MemoryManager,
    caller: CallerView,
    scope: ScopeView,
    body: Value,
    metadata: Seq<(Seq<char>, Value)>,
    reason: Seq<char>,
    out: Result<String, MemoryError>,
) -> bool {
    let id = assigned_id(None, before.table.next_row as nat);
    match refusal(caller, scope, MemoryOperation::Write) {
        Some(why) => (out matches Err(error) && refused_with(error, why)) && after == before,
        None => {
            &&& after.rows().len() == before.rows().len() + 1
            &&& after.rows().drop_last() == before.rows()
            &&& after.rows().last().namespace == scope.namespace()
            &&& after.rows().last().body == body
            &&& is_managed(after.rows().last().metadata, metadata, caller, scope)
            &&& after.table.next_row == before.table.next_row + 1
            &&& if holds_id(before.rows(), id) {
                &&& out matches Err(error) && says(error, TAKEN_ID@)
                &&& after.rows().last().id is None
                &&& after.log == before.log
                &&& after.counts == before.counts
            } else {
                &&& out matches Ok(written) && written@ == id
                &&& after.rows().last().id == Some(id)
                &&& after.read_counts() == before.read_counts().push((id, 0u64))
                &&& after.logged() == before.logged().push(
                    log_row(
                        MemoryOperation::Write,
                        Some(id),
                        scope.namespace(),
                        caller,
                        Some(reason),
                    ),
                )
            }
        },
    }
}

/// Whether a read did what it is for: a refused one changes nothing, nor does
/// one that comes upon a row without an id and fails; any other
/// returns what the scope holds, leaves it as it is, counts one more read of
/// every record it returned, and logs each of them, or that there was none.
pub open spec fn have_read(
    before: MemoryManager,
    after: MemoryManager,
    caller: CallerView,
    scope: ScopeView,
    query: Option<Seq<char>>,
    limit: nat,
    index: Option<Seq<Seq<char>>>,
    reason: Seq<char>,
    out: Result<Vec<Record>, MemoryError>,
) -> bool {
    let read = answered(before.rows(), scope.namespace(), query, limit, index);
    let ids = selected_ids(read, None, None, read.len() as int);
    match refusal(caller, scope, MemoryOperation::Read) {
        Some(why) => (out matches Err(error) && refused_with(error, why)) && after == before,
        None => if read_fails(before.rows(), scope.namespace(), query, limit, index) {
            (out matches Err(error) && says(error, UNREADABLE_ID@)) && after == before
        } else {
            &&& out matches Ok(records) && records_view(records@) == read
            &&& after.table == before.table
            &&& after.logged() == before.logged() + operation_rows(
                MemoryOperation::Read,
                ids,
                scope.namespace(),
                caller,
                Some(reason),
            )
            &&& after.read_counts() == counted(before.read_counts(), ids)
        },
    }
}

/// Whether a forget did what it is for: a refused one changes nothing, nor does
/// one in a namespace that holds a row without an id, since what it takes is
/// listed first; any other removes what the selector takes in the scope, answers how many that
/// were, and logs every active record among them, or that there was none.
pub open spec fn forgot(
    before: MemoryManager,
    after: MemoryManager,
    caller: CallerView,
    scope: ScopeView,
    id: Option<Seq<char>>,
    selected: Option<Seq<char>>,
    reason: Seq<char>,
    out: Result<usize, MemoryError>,
) -> bool {
    let namespace = scope.namespace();
    let candidates = found(
        before.rows(),
        namespace,
        None,
        usize::MAX as nat,
        before.rows().len() as int,
    );
    match forget_refusal(caller, scope, selected) {
        Some(why) => (out matches Err(error) && refused_with(error, why)) && after == before,
        None => if meets_idless(
            before.rows(),
            namespace,
            None,
            usize::MAX as nat,
            before.rows().len() as int,
        ) {
            (out matches Err(error) && says(error, UNREADABLE_ID@)) && after == before
        } else {
            &&& out matches Ok(removed) && removed == before.rows().len() - after.rows().len()
            &&& after.rows() == remaining(
                before.rows(),
                namespace,
                id,
                selected,
                before.rows().len() as int,
            )
            &&& after.table.next_row == before.table.next_row
            &&& after.read_counts() == held_counts(
                before.read_counts(),
                after.rows(),
                before.read_counts().len() as int,
            )
            &&& after.logged() == before.logged() + operation_rows(
                MemoryOperation::Forget,
                selected_ids(candidates, id, selected, candidates.len() as int),
                namespace,
                caller,
                Some(reason),
            )
        },
    }
}

/// A record that was written under a scope is there to be read: an unlimited
/// read of the scope returns it last, as long as it is active and no row there
/// is without an id.
pub proof fn a_write_is_read_back(
    before: MemoryManager,
    after: MemoryManager,
    caller: CallerView,
    scope: ScopeView,
    body: Value,
    metadata: Seq<(Seq<char>, Value)>,
    reason: Seq<char>,
    out: Result<String, MemoryError>,
    limit: nat,
)
    requires
        wrote(before, after, caller, scope, body, metadata, reason, out),
        out is Ok,
        text_of(lookup(metadata, "status"@)) matches Some(status) ==> status == "active"@,
        forall|i: int|
            0 <= i < before.rows().len() && (#[trigger] before.rows()[i]).namespace
                == scope.namespace() ==> before.rows()[i].id is Some,
        limit > before.rows().len(),
    ensures
        !read_fails(after.rows(), scope.namespace(), None, limit, None),
        ({
            let read = found(
                after.rows(),
                scope.namespace(),
                None,
                limit,
                after.rows().len() as int,
            );
            &&& read.len() > 0
            &&& read.last().id == Some(out->Ok_0@)
            &&& read.last().body == body
            &&& is_managed(read.last().metadata, metadata, caller, scope)
        }),
{
    let written = after.rows().last();
    a_managed_record_names_its_owner(written.metadata, metadata, caller, scope);
    a_written_record_is_read_back(before.rows(), scope.namespace(), written, limit);
    assert(after.rows() =~= before.rows().push(written));
}

/// A recorded episode is there for a pass over all of memory: its record says
/// that it is an episode, and whose.
pub proof fn a_recorded_episode_names_its_conversation(
    before: MemoryManager,
    after: MemoryManager,
    episode: EpisodeRecord,
    metadata: Seq<(Seq<char>, Value)>,
    reason: Seq<char>,
    out: Result<String, MemoryError>,
)
    requires
        wrote(
            before,
            after,
            episode_caller(episode),
            episode_scope(episode),
            episode_body(episode),
            metadata,
            reason,
            out,
        ),
        out is Ok,
    ensures
        ({
            let filed = after.rows().last().metadata;
            &&& text_of(lookup(filed, "store"@)) == Some("episodic"@)
            &&& text_of(lookup(filed, "owner_kind"@)) == Some("conversation"@)
            &&& text_of(lookup(filed, "owner_id"@)) == Some(
                episode_caller(episode).own_conversation().name(),
            )
        }),
{
    a_managed_record_names_its_owner(
        after.rows().last().metadata,
        metadata,
        episode_caller(episode),
        episode_scope(episode),
    );
}

/// What one scope writes, a read of another never returns: a read of a scope
/// with a different namespace is the same before and after.
pub proof fn scopes_do_not_leak(
    before: MemoryManager,
    after: MemoryManager,
    caller: CallerView,
    scope: ScopeView,
    other: ScopeView,
    body: Value,
    metadata: Seq<(Seq<char>, Value)>,
    reason: Seq<char>,
    out: Result<String, MemoryError>,
    query: Option<Seq<char>>,
    limit: nat,
)
    requires
        wrote(before, after, caller, scope, body, metadata, reason, out),
        scope.namespace() != other.namespace(),
    ensures
        found(after.rows(), other.namespace(), query, limit, after.rows().len() as int) == found(
            before.rows(),
            other.namespace(),
            query,
            limit,
            before.rows().len() as int,
        ),
        read_fails(after.rows(), other.namespace(), query, limit, None) == read_fails(
            before.rows(),
            other.namespace(),
            query,
            limit,
            None,
        ),
{
    if refusal(caller, scope, MemoryOperation::Write) is None {
        let n = before.rows().len() as int;
        assert(after.rows().len() == n + 1);
        assert(after.rows()[n].namespace == scope.namespace());
        assert forall|i: int| 0 <= i < n implies before.rows()[i] == after.rows()[i] by {
            assert(after.rows().drop_last()[i] == after.rows()[i]);
        }
        lemma_found_prefix(before.rows(), after.rows(), other.namespace(), query, limit, n);
        let (a, b) = (before.rows(), after.rows());
        let ns = other.namespace();
        assert forall|i: int| 0 <= i < n implies a[i] == b[i] && found(a, ns, query, limit, i)
            == #[trigger] found(b, ns, query, limit, i) by {
            lemma_found_prefix(a, b, ns, query, limit, i);
        }
        if meets_idless(a, ns, query, limit, n) {
            let i = choose|i: int|
                0 <= i < n && (#[trigger] a[i]).namespace == ns && a[i].id is None && found(
                    a,
                    ns,
                    query,
                    limit,
                    i,
                ).len() < limit;
            assert(b[i].namespace == ns && found(b, ns, query, limit, i).len() < limit);
        }
    }
}

proof fn lemma_found_prefix(
    a: Seq<RecordView>,
    b: Seq<RecordView>,
    namespace: Seq<char>,
    query: Option<Seq<char>>,
    limit: nat,
    n: int,
)
    requires
        n <= a.len(),
        n <= b.len(),
        forall|i: int| 0 <= i < n ==> a[i] == b[i],
    ensures
        found(a, namespace, query, limit, n) == found(b, namespace, query, limit, n),
    decreases n,
{
    if n > 0 {
        lemma_found_prefix(a, b, namespace, query, limit, n - 1);
    }
}

/// Whether a fragment comes from a scope the caller may read.
pub open spec fn is_readable_source(
    fragment: FragmentView,
    caller: CallerView,
    scopes: Seq<ScopeView>,
    k: int,
) -> bool {
    &&& 0 <= k < scopes.len()
    &&& refusal(caller, scopes[k], MemoryOperation::Read) is None
    &&& fragment.namespace == scopes[k].namespace()
}

/// Nothing is recalled from where the caller may not read: every fragment a
/// search gathers comes from one of its scopes, and the caller may read that
/// scope.
pub proof fn recall_stays_within_what_may_be_read(
    rows: Seq<RecordView>,
    caller: CallerView,
    asked: Asked,
    scopes: Seq<ScopeView>,
    n: int,
    i: int,
)
    requires
        0 <= n <= scopes.len(),
        0 <= i < search(rows, caller, asked, scopes, n).gathered.fragments.len(),
    ensures
        exists|k: int|
            is_readable_source(
                search(rows, caller, asked, scopes, n).gathered.fragments[i],
                caller,
                scopes,
                k,
            ),
    decreases n,
{
    if n > 0 {
        let before = search(rows, caller, asked, scopes, n - 1);
        let after = search(rows, caller, asked, scopes, n);
        let scope = scopes[n - 1];
        if after.gathered == before.gathered {
            recall_stays_within_what_may_be_read(rows, caller, asked, scopes, n - 1, i);
            let k = choose|k: int|
                is_readable_source(before.gathered.fragments[i], caller, scopes, k);
            assert(is_readable_source(after.gathered.fragments[i], caller, scopes, k));
        } else {
            let limit = saturated(
                (4 * (asked.max_fragments - before.gathered.fragments.len())) as nat,
            );
            let taken = scope_records(
                rows,
                scope.namespace(),
                asked.strategy,
                asked.query,
                limit,
            );
            let m = taken.len() as int;
            lemma_gathered_keeps(
                before.gathered,
                asked.max_fragments,
                asked.max_tokens,
                taken,
                m,
            );
            if i < before.gathered.fragments.len() {
                recall_stays_within_what_may_be_read(rows, caller, asked, scopes, n - 1, i);
                let k = choose|k: int|
                    is_readable_source(before.gathered.fragments[i], caller, scopes, k);
                assert(is_readable_source(after.gathered.fragments[i], caller, scopes, k));
            } else {
                only_active_records_are_recalled(
                    before.gathered,
                    asked.max_fragments,
                    asked.max_tokens,
                    taken,
                    m,
                    i,
                );
                let k = choose|k: int|
                    0 <= k < m && is_active(#[trigger] taken[k])
                        && after.gathered.fragments[i] == fragment_of(taken[k]);
                lemma_scope_records(
                    rows,
                    scope.namespace(),
                    asked.strategy,
                    asked.query,
                    limit,
                    k,
                );
                assert(is_readable_source(after.gathered.fragments[i], caller, scopes, n - 1));
            }
        }
    }
}

proof fn lemma_gathered_keeps(
    so_far: Gathered,
    max_fragments: nat,
    max_tokens: nat,
    records: Seq<RecordView>,
    n: int,
)
    ensures
        gathered(so_far, max_fragments, max_tokens, records, n).fragments.len()
            >= so_far.fragments.len(),
        forall|i: int|
            0 <= i < so_far.fragments.len() ==> #[trigger] gathered(
                so_far,
                max_fragments,
                max_tokens,
                records,
                n,
            ).fragments[i] == so_far.fragments[i],
    decreases n,
{
    if n > 0 {
        lemma_gathered_keeps(so_far, max_fragments, max_tokens, records, n - 1);
    }
}

/// What a scope's search returns is filed under the scope's namespace.
proof fn lemma_scope_records(
    rows: Seq<RecordView>,
    namespace: Seq<char>,
    strategy: RetrievalStrategy,
    query: Seq<char>,
    limit: nat,
    k: int,
)
    requires
        0 <= k < scope_records(rows, namespace, strategy, query, limit).len(),
    ensures
        scope_records(rows, namespace, strategy, query, limit)[k].namespace == namespace,
{
    reads_stay_in_their_namespace(rows, namespace, None, limit);
    reads_stay_in_their_namespace(rows, namespace, Some(query), limit);
    if strategy == RetrievalStrategy::Hybrid {
        let lexical = found(rows, namespace, Some(query), limit, rows.len() as int);
        let ids = selected_ids(lexical, None, None, lexical.len() as int);
        lemma_picked_from(ids, lexical, ids.len() as int, k);
        let j = choose|j: int|
            0 <= j < lexical.len() && #[trigger] lexical[j] == picked(
                ids,
                lexical,
                ids.len() as int,
            )[k];
        assert(lexical[j].namespace == namespace);
    }
}

proof fn lemma_picked_from(ids: Seq<Seq<char>>, records: Seq<RecordView>, n: int, k: int)
    requires
        0 <= k < picked(ids, records, n).len(),
    ensures
        exists|j: int|
            0 <= j < records.len() && #[trigger] records[j] == picked(ids, records, n)[k],
    decreases n,
{
    if n > 0 {
        let before = picked(ids, records, n - 1);
        if k < before.len() {
            lemma_picked_from(ids, records, n - 1, k);
            let j = choose|j: int| 0 <= j < records.len() && #[trigger] records[j] == before[k];
            assert(records[j] == picked(ids, records, n)[k]);
        } else {
            lemma_last_from(records, ids[n - 1], records.len() as int);
        }
    }
}

proof fn lemma_last_from(records: Seq<RecordView>, id: Seq<char>, n: int)
    requires
        n <= records.len(),
    ensures
        last_with(records, id, n) matches Some(record) ==> exists|j: int|
            0 <= j < n && #[trigger] records[j] == record,
    decreases n,
{
    if n > 0 {
        if records[n - 1].id == Some(id) {
            assert(records[n - 1] == last_with(records, id, n)->0);
        } else {
            lemma_last_from(records, id, n - 1);
        }
    }
}

/// Recall never reaches into another conversation: nothing that a search of
/// the caller's own scopes gathers is filed under another conversation's
/// private memory.
pub proof fn recall_never_crosses_conversations(
    rows: Seq<RecordView>,
    caller: CallerView,
    asked: Asked,
    scopes: Seq<ScopeView>,
    i: int,
    other: ScopeView,
)
    requires
        0 <= i < search(
            rows,
            caller,
            asked,
            scopes,
            scopes.len() as int,
        ).gathered.fragments.len(),
        other.store != MemoryStore::Audit,
        other.owner matches OwnerView::Conversation(id) && id != caller.own_conversation(),
    ensures
        search(rows, caller, asked, scopes, scopes.len() as int).gathered.fragments[i].namespace
            != other.namespace(),
{
    let n = scopes.len() as int;
    recall_stays_within_what_may_be_read(rows, caller, asked, scopes, n, i);
    let fragment = search(rows, caller, asked, scopes, n).gathered.fragments[i];
    let k = choose|k: int| is_readable_source(fragment, caller, scopes, k);
    assert(is_readable_source(fragment, caller, scopes, k));
    namespaces_separate_scopes(scopes[k], other);
    if fragment.namespace == other.namespace() {
        conversations_are_isolated(caller, scopes[k], MemoryOperation::Read);
    }
}

/// A write that is refused changes nothing; one that is allowed files the
/// record last, whole, under its scope.
pub proof fn a_write_files_the_record(
    before: MemoryManager,
    after: MemoryManager,
    caller: CallerView,
    scope: ScopeView,
    body: Value,
    metadata: Seq<(Seq<char>, Value)>,
    reason: Seq<char>,
    out: Result<String, MemoryError>,
)
    requires
        wrote(before, after, caller, scope, body, metadata, reason, out),
    ensures
        refusal(caller, scope, MemoryOperation::Write) is Some ==> out is Err && after == before,
        refusal(caller, scope, MemoryOperation::Write) is None ==> {
            &&& after.rows().len() == before.rows().len() + 1
            &&& forall|i: int|
                0 <= i < before.rows().len() ==> #[trigger] after.rows()[i] == before.rows()[i]
            &&& after.rows()[before.rows().len() as int].body == body
            &&& after.rows()[before.rows().len() as int].namespace == scope.namespace()
        },
        out matches Ok(id) ==> {
            &&& after.rows()[before.rows().len() as int].id == Some(id@)
            &&& forall|i: int|
                0 <= i < before.rows().len() ==> (#[trigger] before.rows()[i]).id != Some(id@)
            &&& after.logged().len() == before.logged().len() + 1
            &&& after.logged().last().record_id == Some(id@)
            &&& after.logged().last().operation == MemoryOperation::Write
            &&& after.logged().last().namespace == scope.namespace()
            &&& after.logged().last().caller_agent_id == caller.agent_id
            &&& after.logged().last().reason == Some(reason)
        },
        out is Err ==> after.log == before.log && after.counts == before.counts,
{
    if refusal(caller, scope, MemoryOperation::Write) is None {
        assert forall|i: int| 0 <= i < before.rows().len() implies #[trigger] after.rows()[i]
            == before.rows()[i] by {
            assert(after.rows().drop_last()[i] == after.rows()[i]);
        }
        let id = assigned_id(None, before.table.next_row as nat);
        if !holds_id(before.rows(), id) {
            assert forall|i: int| 0 <= i < before.rows().len() implies (
            #[trigger] before.rows()[i]).id != Some(id) by {}
        }
    }
}

/// A read that is refused changes nothing; one that is allowed changes no
/// record, returns what answers, and leaves a trace.
pub proof fn a_read_changes_no_record(
    before: MemoryManager,
    after: MemoryManager,
    caller: CallerView,
    scope: ScopeView,
    query: Option<Seq<char>>,
    limit: nat,
    index: Option<Seq<Seq<char>>>,
    reason: Seq<char>,
    out: Result<Vec<Record>, MemoryError>,
)
    requires
        have_read(before, after, caller, scope, query, limit, index, reason, out),
    ensures
        after.table == before.table,
        refusal(caller, scope, MemoryOperation::Read) is Some ==> out is Err,
        out is Err ==> after == before,
        out matches Ok(records) ==> {
            &&& records_view(records@) == answered(
                before.rows(),
                scope.namespace(),
                query,
                limit,
                index,
            )
            &&& after.logged().len() > before.logged().len()
            &&& after.logged().take(before.logged().len() as int) == before.logged()
        },
        refusal(caller, scope, MemoryOperation::Read) is None && (forall|i: int|
            0 <= i < before.rows().len() ==> (#[trigger] before.rows()[i]).id is Some) ==> out is Ok,
{
    if out is Ok {
        assert(after.logged().take(before.logged().len() as int) =~= before.logged());
    }
}

/// Forgetting what is refused changes nothing; what is allowed takes rows of
/// the scope's own namespace alone, and says how many.
pub proof fn a_forget_stays_in_its_scope(
    before: MemoryManager,
    after: MemoryManager,
    caller: CallerView,
    scope: ScopeView,
    id: Option<Seq<char>>,
    selected: Option<Seq<char>>,
    reason: Seq<char>,
    out: Result<usize, MemoryError>,
    row: RecordView,
)
    requires
        forgot(before, after, caller, scope, id, selected, reason, out),
    ensures
        refusal(caller, scope, MemoryOperation::Forget) is Some || (selected is Some && selected
            != Some(scope.namespace())) ==> out is Err,
        out is Err ==> after == before,
        out matches Ok(removed) ==> {
            &&& removed == before.rows().len() - after.rows().len()
            &&& before.rows().contains(row) && row.namespace != scope.namespace()
                ==> after.rows().contains(row)
            &&& row.namespace == scope.namespace() && (id is None || row.id == id)
                ==> !after.rows().contains(row)
            &&& before.rows().contains(row) && id is Some && row.id != id
                ==> after.rows().contains(row)
        },
{
    if out is Ok {
        let rows = before.rows();
        forgetting_is_exact(
            rows,
            scope.namespace(),
            id,
            selected,
            rows.len() as int,
            row,
        );
        assert(rows.take(rows.len() as int) =~= rows);
    }
}

/// The ids a selector takes are those of the records it names, in order.
pub proof fn selected_ids_are_of_what_is_taken(
    records: Seq<RecordView>,
    id: Option<Seq<char>>,
    namespace: Option<Seq<char>>,
    n: int,
)
    requires
        0 <= n <= records.len(),
    ensures
        selected_ids(records, id, namespace, n) == records.take(n).filter(
            |r: RecordView| r.id is Some && selects(id, namespace, r),
        ).map_values(|r: RecordView| r.id->0),
    decreases n,
{
    reveal(Seq::filter);
    let takes = |r: RecordView| r.id is Some && selects(id, namespace, r);
    if n > 0 {
        selected_ids_are_of_what_is_taken(records, id, namespace, n - 1);
        assert(records.take(n).drop_last() =~= records.take(n - 1));
        assert(records.take(n).last() == records[n - 1]);
    } else {
        assert(records.take(0) =~= Seq::empty());
    }
    assert(selected_ids(records, id, namespace, n) =~= records.take(n).filter(takes).map_values(
        |r: RecordView| r.id->0,
    ));
}

/// The counts of records that are gone go with them, and no others.
pub proof fn counts_go_with_their_records(
    counts: Seq<(Seq<char>, u64)>,
    rows: Seq<RecordView>,
    n: int,
)
    requires
        0 <= n <= counts.len(),
    ensures
        held_counts(counts, rows, n) == counts.take(n).filter(
            |c: (Seq<char>, u64)| holds_id(rows, c.0),
        ),
    decreases n,
{
    reveal(Seq::filter);
    let stays = |c: (Seq<char>, u64)| holds_id(rows, c.0);
    if n > 0 {
        counts_go_with_their_records(counts, rows, n - 1);
        assert(counts.take(n).drop_last() =~= counts.take(n - 1));
        assert(counts.take(n).last() == counts[n - 1]);
    } else {
        assert(counts.take(0) =~= Seq::empty());
    }
    assert(held_counts(counts, rows, n) =~= counts.take(n).filter(stays));
}

proof fn lemma_search_keeps(
    rows: Seq<RecordView>,
    caller: CallerView,
    asked: Asked,
    scopes: Seq<ScopeView>,
    k: int,
    n: int,
)
    requires
        0 <= k <= n,
    ensures
        ({
            let had = search(rows, caller, asked, scopes, k).gathered.fragments;
            let has = search(rows, caller, asked, scopes, n).gathered.fragments;
            had.len() <= has.len() && has.take(had.len() as int) == had
        }),
    decreases n - k,
{
    let had = search(rows, caller, asked, scopes, k).gathered.fragments;
    let has = search(rows, caller, asked, scopes, n).gathered.fragments;
    if k < n {
        lemma_search_keeps(rows, caller, asked, scopes, k, n - 1);
        let mid = search(rows, caller, asked, scopes, n - 1);
        let scope = scopes[n - 1];
        let limit = saturated((4 * (asked.max_fragments - mid.gathered.fragments.len())) as nat);
        let taken = scope_records(
            rows,
            scope.namespace(),
            asked.strategy,
            asked.query,
            limit,
        );
        recall_only_grows(
            mid.gathered,
            asked.max_fragments,
            asked.max_tokens,
            taken,
            0,
            taken.len() as int,
        );
        assert(has.take(had.len() as int) =~= mid.gathered.fragments.take(had.len() as int));
    } else {
        assert(has.take(had.len() as int) =~= had);
    }
}

/// Recall reaches every scope it comes to: whatever the scopes before it gave,
/// a record a scope's search returns is recalled when it is active, there is
/// still room, and its tokens fit what is left.
pub proof fn recall_reaches_every_scope(
    rows: Seq<RecordView>,
    caller: CallerView,
    asked: Asked,
    scopes: Seq<ScopeView>,
    n: int,
    k: int,
    j: int,
)
    requires
        0 <= k < n <= scopes.len(),
        asked.strategy != RetrievalStrategy::Hybrid,
        asked.max_tokens <= usize::MAX,
        search(rows, caller, asked, scopes, k).failed is None,
        refusal(caller, scopes[k], MemoryOperation::Read) is None,
        forall|i: int| 0 <= i < rows.len() ==> (#[trigger] rows[i]).id is Some,
        ({
            let so_far = search(rows, caller, asked, scopes, k).gathered;
            let limit = saturated((4 * (asked.max_fragments - so_far.fragments.len())) as nat);
            let query = if asked.strategy == RetrievalStrategy::Recency {
                None
            } else {
                Some(asked.query)
            };
            let read = found(rows, scopes[k].namespace(), query, limit, rows.len() as int);
            let then = gathered(
                so_far,
                asked.max_fragments,
                asked.max_tokens,
                read,
                j,
            );
            &&& so_far.fragments.len() < asked.max_fragments
            &&& 0 <= j < read.len()
            &&& is_active(read[j])
            &&& then.fragments.len() < asked.max_fragments
            &&& asked.max_tokens == 0 || then.estimated_tokens + fragment_tokens(
                fragment_of(read[j]),
            ) <= asked.max_tokens
        }),
    ensures
        ({
            let so_far = search(rows, caller, asked, scopes, k).gathered;
            let limit = saturated((4 * (asked.max_fragments - so_far.fragments.len())) as nat);
            let query = if asked.strategy == RetrievalStrategy::Recency {
                None
            } else {
                Some(asked.query)
            };
            let read = found(rows, scopes[k].namespace(), query, limit, rows.len() as int);
            let has = search(rows, caller, asked, scopes, n).gathered.fragments;
            exists|p: int|
                so_far.fragments.len() <= p < has.len() && (#[trigger] has[p]).id == read[j].id
                    && has[p].namespace == scopes[k].namespace() && has[p].body == read[j].body
        }),
{
    let so_far = search(rows, caller, asked, scopes, k).gathered;
    let limit = saturated((4 * (asked.max_fragments - so_far.fragments.len())) as nat);
    let query = scope_query(asked.strategy, asked.query);
    let read = found(rows, scopes[k].namespace(), query, limit, rows.len() as int);
    assert(!read_fails(rows, scopes[k].namespace(), query, limit, None));
    reads_stay_in_their_namespace(
        rows,
        scopes[k].namespace(),
        query,
        limit,
    );
    what_fits_is_recalled(
        so_far,
        asked.max_fragments,
        asked.max_tokens,
        read,
        read.len() as int,
        j,
    );
    recall_only_grows(
        so_far,
        asked.max_fragments,
        asked.max_tokens,
        read,
        0,
        j,
    );
    let p = gathered(
        so_far,
        asked.max_fragments,
        asked.max_tokens,
        read,
        j,
    ).fragments.len() as int;
    let next = search(rows, caller, asked, scopes, k + 1).gathered.fragments;
    lemma_search_keeps(rows, caller, asked, scopes, k + 1, n);
    let has = search(rows, caller, asked, scopes, n).gathered.fragments;
    assert(has.take(next.len() as int)[p] == next[p]);
    assert(has[p].id == read[j].id);
}

/// An episode is filed as what it is: who ran it, for which conversation and
/// task, how it ended, what it used and what it came to.
pub proof fn an_episode_says_what_happened(episode: EpisodeRecord)
    ensures
        ({
            let body = episode_body(episode);
            &&& member(body, "kind"@) == Some(Value::Text("run_episode"@))
            &&& member(body, "summary"@) == Some(Value::Text(episode.summary@))
            &&& member(body, "outcome"@) == Some(
                Value::Text(outcome_name(episode.outcome)),
            )
            &&& member(body, "run_id"@) == Some(Value::Text(episode.run_id@))
            &&& member(body, "task_id"@) == Some(Value::Text(episode.task_id@))
            &&& member(body, "conversation_id"@) == Some(
                Value::Text(episode.conversation_id@),
            )
            &&& member(body, "active_agent"@) == Some(
                Value::Text(episode.active_agent@),
            )
            &&& member(body, "tools_used"@) == Some(
                text_list(texts(episode.tools_used@)),
            )
            &&& member(body, "subagents_used"@) == Some(
                text_list(texts(episode.subagents_used@)),
            )
        }),
{
    reveal_strlit("active_agent");
    reveal_strlit("conversation_id");
    reveal_strlit("kind");
    reveal_strlit("outcome");
    reveal_strlit("run_id");
    reveal_strlit("subagents_used");
    reveal_strlit("summary");
    reveal_strlit("task_id");
    reveal_strlit("tools_used");
    assert("active_agent"@[0] == 'a' && "conversation_id"@[0] == 'c' && "kind"@[0] == 'k'
        && "outcome"@[0] == 'o' && "run_id"@[0] == 'r' && "subagents_used"@[2] == 'b'
        && "summary"@[2] == 'm' && "task_id"@[1] == 'a' && "tools_used"@[1] == 'o'
        && "subagents_used"@[0] == 's' && "summary"@[0] == 's' && "task_id"@[0] == 't'
        && "tools_used"@[0] == 't');
    let entries = episode_body(episode)->Object_0;
    assert(entries[0].0 == "active_agent"@ && entries[1].0 == "conversation_id"@ && entries[2].0
        == "kind"@ && entries[3].0 == "outcome"@ && entries[4].0 == "run_id"@ && entries[5].0
        == "subagents_used"@ && entries[6].0 == "summary"@ && entries[7].0 == "task_id"@
        && entries[8].0 == "tools_used"@);
    the_first_entry_counts(entries, "kind"@);
    the_first_entry_counts(entries, "summary"@);
    the_first_entry_counts(entries, "outcome"@);
    the_first_entry_counts(entries, "run_id"@);
    the_first_entry_counts(entries, "task_id"@);
    the_first_entry_counts(entries, "conversation_id"@);
    the_first_entry_counts(entries, "active_agent"@);
    the_first_entry_counts(entries, "tools_used"@);
    the_first_entry_counts(entries, "subagents_used"@);
}

} // verus!
