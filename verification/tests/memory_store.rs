use agentos_core::identity::{decode_component, encode_component, Principal};
use agentos_core::json::Json;
use agentos_core::memory::accounting::{
    access_log_for_records, log_operation, managed_metadata, record_read_access, AccessCount,
    MemoryError, MemoryOperation,
};
use agentos_core::memory::authorize::{authorize_scope, hydration_scopes};
use agentos_core::memory::context::{memory_caller_from_context, SystemContext};
use agentos_core::memory::hybrid::{
    embedding_counts, hybrid_records, missing_ids, pick_records, rank_table,
    reciprocal_rank_fusion, searchable_record_text, semantic_ids, stable_hash_u64,
    supplied_embedding, SemanticSearchHit,
};
use agentos_core::memory::lease::{
    lease_holder_id, LeaseTable, DEFAULT_LEASE_TTL, REFLECTION_LEASE,
};
use agentos_core::memory::manager::MemoryManager;
use agentos_core::memory::pool::{
    is_wal, pool_size, retries_wal, ConnectionPool, MAX_MAX_CONNECTIONS,
};
use agentos_core::memory::query::{record_matches_query, Record, Selector};
use agentos_core::memory::reflection::{
    maintenance_caller, mark_status, plan_reflection, procedural_candidate, semantic_fact,
    stale_semantic_records, ReflectionParams, ReflectionReport, ReflectionRequest,
};
use agentos_core::memory::reflection_run::{ReflectionAction, ReflectionRun};
use agentos_core::memory::retention::{
    age_in_days, apply_retention_budgets, days_between, ArchiveReason, RetentionCandidate,
    RetentionRequest, StoreRetentionBudget,
};
use agentos_core::memory::scope::{
    EpisodeOutcome, EpisodeRecord, HydrationRequest, MemoryCaller, MemoryOwner, MemoryScope,
    MemoryStore, MemoryVisibility, RetrievalStrategy, SharedDomainGrants,
};
use agentos_core::memory::session_store::{
    idle_conversations, ConversationAge, ConversationLog, Epoch, SessionError, SessionStore,
};
use agentos_core::memory::sqlite::{
    fts_match_query, plan_read, record_columns, ReadPlan, RecordTable,
};
use agentos_core::memory::sqlite_vec::{
    is_searchable, validate_table_name, vector_row_id, SqliteVecConfig,
};
use agentos_core::message::{Item, Message, MessageRole, Transcript};

fn text(value: &str) -> Json {
    Json::Text(value.to_owned())
}

fn object(entries: Vec<(&str, Json)>) -> Json {
    Json::Object(
        entries
            .into_iter()
            .map(|(key, value)| (key.to_owned(), value))
            .collect(),
    )
}

fn texts(values: &[&str]) -> Vec<String> {
    values.iter().map(|value| (*value).to_owned()).collect()
}

fn caller() -> MemoryCaller {
    MemoryCaller {
        agent_id: "alice".to_owned(),
        task_id: "t1".to_owned(),
        channel_id: "telegram".to_owned(),
        conversation_id: "c1".to_owned(),
        user_id: None,
        allowed_shared_domains: Vec::new(),
        writable_shared_domains: Vec::new(),
        audit_read_access: false,
    }
}

fn own_scope(store: MemoryStore) -> MemoryScope {
    MemoryScope::new(
        store,
        MemoryOwner::Conversation(caller().conversation_principal()),
        MemoryVisibility::Private,
        None,
    )
}

fn backend(error: MemoryError) -> String {
    let MemoryError::Backend(text) = error;
    text
}

// Leases.

#[test]
fn exactly_one_of_two_contenders_takes_the_lease() {
    let mut store = LeaseTable::new();
    let first = store.acquire_lease_at(REFLECTION_LEASE, "1:telegram", DEFAULT_LEASE_TTL, 1_000);
    let second = store.acquire_lease_at(REFLECTION_LEASE, "1:feishu", DEFAULT_LEASE_TTL, 1_000);
    assert!(first.is_some(), "the first contender must win");
    assert!(
        second.is_none(),
        "a second sweep over one database is the defect this exists to stop"
    );
}

#[test]
fn the_holder_renews_rather_than_losing_its_own_lease() {
    let mut store = LeaseTable::new();
    store
        .acquire_lease_at(REFLECTION_LEASE, "1:telegram", DEFAULT_LEASE_TTL, 1_000)
        .expect("the first acquisition wins");
    let renewed = store
        .acquire_lease_at(REFLECTION_LEASE, "1:telegram", DEFAULT_LEASE_TTL, 1_060)
        .expect("a holder renews");
    assert_eq!(renewed.expires_at, 1_060 + DEFAULT_LEASE_TTL);
}

#[test]
fn an_expired_lease_is_taken_by_the_next_contender() {
    let mut store = LeaseTable::new();
    store
        .acquire_lease_at(REFLECTION_LEASE, "1:crashed", 60, 1_000)
        .expect("the first acquisition wins");
    assert!(
        store
            .acquire_lease_at(REFLECTION_LEASE, "2:live", DEFAULT_LEASE_TTL, 1_059)
            .is_none(),
        "the lease has not expired yet"
    );
    let taken = store
        .acquire_lease_at(REFLECTION_LEASE, "2:live", DEFAULT_LEASE_TTL, 1_060)
        .expect("an expired lease is available");
    assert_eq!(taken.holder, "2:live");
}

#[test]
fn releasing_hands_it_straight_over() {
    let mut store = LeaseTable::new();
    store
        .acquire_lease_at(REFLECTION_LEASE, "1:telegram", DEFAULT_LEASE_TTL, 1_000)
        .expect("the first acquisition wins");
    assert!(!store.release_lease(REFLECTION_LEASE, "1:feishu"));
    assert!(store.release_lease(REFLECTION_LEASE, "1:telegram"));
    assert!(store
        .acquire_lease_at(REFLECTION_LEASE, "1:feishu", DEFAULT_LEASE_TTL, 1_001)
        .is_some());
}

#[test]
fn a_holder_id_names_the_process_and_the_role() {
    let id = lease_holder_id(4812, "telegram");
    assert!(id.starts_with("4812:"));
    assert!(id.ends_with(":telegram"));
    assert_ne!(id, lease_holder_id(4812, "feishu"));
}

#[test]
fn a_lease_is_read_back_as_it_was_taken() {
    let mut store = LeaseTable::new();
    assert!(store.lease(REFLECTION_LEASE).is_none());
    store.acquire_lease_at(REFLECTION_LEASE, "1:telegram", 60, 1_000);
    let lease = store.lease(REFLECTION_LEASE).expect("the lease stands");
    assert_eq!(lease.holder, "1:telegram");
    assert_eq!(lease.expires_at, 1_060);
}

// Connections.

#[test]
fn the_pool_hands_out_at_most_its_size_at_once() {
    let mut pool = ConnectionPool::build(vec!["one", "two"]);
    let first = pool.take().expect("one is idle");
    let second = pool.take().expect("another is idle");
    assert!(pool.idle.is_empty());
    assert!(pool.take().is_none());
    pool.give(first);
    pool.give(second);
    assert_eq!(pool.idle.len(), 2);
}

#[test]
fn a_size_of_zero_is_raised_to_one_rather_than_deadlocking() {
    assert_eq!(pool_size(0), 1);
}

#[test]
fn an_absurd_size_is_clamped() {
    assert_eq!(pool_size(10_000), MAX_MAX_CONNECTIONS);
    assert_eq!(pool_size(4), 4);
}

#[test]
fn write_ahead_logging_is_asked_for_again_only_while_it_can_help() {
    assert!(retries_wal(true, 4_999, 5_000));
    assert!(!retries_wal(true, 5_000, 5_000));
    assert!(!retries_wal(false, 0, 5_000));
    assert!(is_wal("WAL"));
    assert!(!is_wal("delete"));
}

// Retention.

#[test]
fn a_timestamp_sqlite_wrote_parses_and_a_future_one_does_not_wrap() {
    // Late in 2026.
    let now = (1_795_000_000i64, 0u32);
    assert!(age_in_days("2000-01-01 00:00:00", now).expect("parses") > 8000);
    // RFC 3339 too, for a row a future writer might produce.
    assert!(age_in_days("2000-01-01T00:00:00Z", now).expect("parses") > 8000);
    // Anything else is unknown rather than zero.
    assert_eq!(age_in_days("not a timestamp", now), None);
    assert_eq!(age_in_days("", now), None);
    // A clock-skewed future timestamp is not wrapped into a huge age.
    assert_eq!(age_in_days("2999-01-01 00:00:00", now), None);
}

#[test]
fn an_age_is_whole_days() {
    let day = 86_400i64;
    assert_eq!(days_between((0, 0), (3 * day - 1, 0)), Some(2));
    assert_eq!(days_between((0, 0), (3 * day, 0)), Some(3));
    assert_eq!(days_between((0, 500), (3 * day, 499)), Some(2));
    assert_eq!(
        age_in_days("2000-01-01 00:00:00", (946_684_800 + 10 * day, 0)),
        Some(10)
    );
}

#[test]
fn a_leap_second_is_a_second_of_its_own() {
    // Written in the sixty-first second of a minute, and read the day before
    // at a later second of the minute: less than a day apart.
    assert_eq!(age_in_days("1970-01-02 00:00:60", (60, 0)), Some(0));
    assert_eq!(age_in_days("1970-01-02 00:01:00", (60, 0)), None);
    // Read in one: the second it is does not count towards a whole day.
    let day = 86_400i64;
    assert_eq!(days_between((60, 0), (day + 59, 1_000_000_000)), Some(0));
    assert_eq!(days_between((60, 0), (day + 60, 0)), Some(1));
    // At the same second of the minute its nanoseconds count as they are.
    assert_eq!(days_between((59, 1_000_000_000), (day + 59, 0)), Some(0));
    assert_eq!(days_between((59, 0), (day + 59, 1_000_000_000)), Some(1));
}

#[test]
fn what_is_less_than_a_day_ahead_is_new() {
    let day = 86_400i64;
    assert_eq!(days_between((day - 1, 0), (0, 0)), Some(0));
    assert_eq!(days_between((day, 0), (0, 0)), None);
}

fn candidate(row_id: i64, store: MemoryStore, rank: u64, age: Option<u64>) -> RetentionCandidate {
    RetentionCandidate {
        row_id,
        store: Some(store),
        importance_rank: rank,
        access_count: 0,
        bytes: 100,
        age_days: age,
    }
}

#[test]
fn the_age_budget_archives_only_what_is_older_than_the_ceiling() {
    let records = vec![
        candidate(1, MemoryStore::Semantic, 5, Some(9_000)),
        candidate(2, MemoryStore::Semantic, 5, Some(0)),
    ];
    let report = apply_retention_budgets(
        &RetentionRequest {
            max_age_days: Some(30),
            ..RetentionRequest::default()
        },
        &records,
    );
    assert_eq!(report.archived.len(), 1);
    assert_eq!(report.archived[0].position, 0);
    assert_eq!(report.archived[0].reason, ArchiveReason::Age);
    assert_eq!(report.archived[0].reason.as_str(), "retention_age");
}

#[test]
fn a_store_budget_archives_the_least_important_first() {
    let records = vec![
        candidate(1, MemoryStore::Semantic, 9, None),
        candidate(2, MemoryStore::Semantic, 1, None),
        candidate(3, MemoryStore::Episodic, 0, None),
        candidate(4, MemoryStore::Semantic, 5, None),
    ];
    let report = apply_retention_budgets(
        &RetentionRequest {
            store_budgets: vec![StoreRetentionBudget {
                store: MemoryStore::Semantic,
                max_active_records: 1,
            }],
            ..RetentionRequest::default()
        },
        &records,
    );
    let gone: Vec<usize> = report.archived.iter().map(|a| a.position).collect();
    assert_eq!(gone, vec![1, 3]);
    // Nothing is deleted outright.
    assert!(report.pruned_records.is_empty());
}

#[test]
fn record_and_byte_ceilings_hold_afterwards() {
    let records: Vec<RetentionCandidate> = (0..5)
        .map(|n| candidate(n, MemoryStore::Semantic, n as u64, None))
        .collect();
    let report = apply_retention_budgets(
        &RetentionRequest {
            max_records: Some(3),
            max_bytes: Some(250),
            ..RetentionRequest::default()
        },
        &records,
    );
    let reasons: Vec<ArchiveReason> = report.archived.iter().map(|a| a.reason).collect();
    assert_eq!(
        reasons,
        vec![
            ArchiveReason::Records,
            ArchiveReason::Records,
            ArchiveReason::Bytes
        ]
    );
    assert!(RetentionRequest::default().is_empty());
}

// Accounting.

fn count_of(counts: &[AccessCount], id: &str) -> u64 {
    counts
        .iter()
        .find(|count| count.record_id == id)
        .expect("the record is counted")
        .count
}

fn fresh_counts(ids: &[&str]) -> Vec<AccessCount> {
    ids.iter()
        .map(|id| AccessCount {
            record_id: (*id).to_owned(),
            count: 0,
        })
        .collect()
}

#[test]
fn record_read_access_increments_each_record_in_one_statement() {
    let mut counts = fresh_counts(&["a", "b", "c"]);
    let ids = texts(&["a", "b", "c"]);
    record_read_access(&mut counts, &ids);
    for id in ["a", "b", "c"] {
        assert_eq!(count_of(&counts, id), 1, "first access counted for {id}");
    }

    record_read_access(&mut counts, &ids);
    for id in ["a", "b", "c"] {
        assert_eq!(count_of(&counts, id), 2, "second access counted for {id}");
    }
}

#[test]
fn record_read_access_is_a_noop_for_empty_input() {
    let mut counts = fresh_counts(&["a"]);
    record_read_access(&mut counts, &Vec::new());
    assert_eq!(count_of(&counts, "a"), 0);
}

#[test]
fn append_access_log_for_records_writes_one_row_per_id() {
    let ids = texts(&["a", "b", "c", "d"]);
    let rows = access_log_for_records(
        MemoryOperation::Read,
        &ids,
        "memory:test",
        &caller(),
        &Some("hydrate".to_owned()),
    );
    assert_eq!(
        rows.iter()
            .filter(|row| row.operation.as_str() == "read")
            .count(),
        4
    );
    assert_eq!(rows[3].record_id.as_deref(), Some("d"));
    assert_eq!(rows[0].caller_agent_id, "alice");
}

#[test]
fn append_access_log_for_records_is_a_noop_for_empty_input() {
    let rows = access_log_for_records(
        MemoryOperation::Read,
        &Vec::new(),
        "memory:test",
        &caller(),
        &None,
    );
    assert_eq!(rows.len(), 0);
}

#[test]
fn an_operation_that_touched_nothing_is_logged_once() {
    let rows = log_operation(
        MemoryOperation::Forget,
        &Vec::new(),
        "memory:test",
        &caller(),
        &Some("managed_forget".to_owned()),
    );
    assert_eq!(rows.len(), 1);
    assert_eq!(rows[0].record_id, None);
}

// Scopes and who may use them.

#[test]
fn names_that_used_to_collide_stay_apart() {
    assert_eq!(encode_component("a_b"), "a_b");
    assert_eq!(encode_component("a/b"), "~YS9i");
    assert_eq!(decode_component("~YS9i").as_deref(), Some("a/b"));
    assert_eq!(decode_component("~!!"), None);
    // Well-formed digits of bytes that are not UTF-8.
    assert_eq!(decode_component("~_w"), None);
    assert_eq!(encode_component(""), "~");
}

#[test]
fn a_principal_is_read_back_from_its_name() {
    let principal = Principal {
        agent: "main".to_owned(),
        channel: "telegram".to_owned(),
        conversation: "a/b".to_owned(),
        sender: Some("alice".to_owned()),
    };
    let name = principal.storage_name();
    let read = Principal::from_storage_name(&name).expect("the name decodes");
    assert!(read.same_as(&principal));
    assert_eq!(principal.conversation_name(), "v1.main.telegram.~YS9i.n");
    assert!(Principal::from_storage_name("telegram:42").is_none());
}

#[test]
fn a_caller_reaches_its_own_conversation_and_no_other() {
    let own = own_scope(MemoryStore::Semantic);
    assert_eq!(
        own.namespace(),
        "private/conversation/v1.alice.telegram.c1.n/semantic/general"
    );
    for operation in [
        MemoryOperation::Read,
        MemoryOperation::Write,
        MemoryOperation::Forget,
    ] {
        assert!(authorize_scope(&caller(), &own, operation).is_ok());
    }
    let other = MemoryScope::new(
        MemoryStore::Semantic,
        MemoryOwner::Conversation(Principal::conversation("alice", "telegram", "c2")),
        MemoryVisibility::Private,
        None,
    );
    let error = authorize_scope(&caller(), &other, MemoryOperation::Read).expect_err("not theirs");
    assert!(backend(error).starts_with("memory scope unauthorized: "));
}

#[test]
fn the_audit_store_is_never_written() {
    let mut auditor = caller();
    auditor.audit_read_access = true;
    let scope = own_scope(MemoryStore::Audit);
    assert!(authorize_scope(&auditor, &scope, MemoryOperation::Read).is_ok());
    assert!(authorize_scope(&auditor, &scope, MemoryOperation::Write).is_err());
    assert!(authorize_scope(&caller(), &scope, MemoryOperation::Read).is_err());
}

#[test]
fn a_shared_domain_is_read_before_it_is_written() {
    let mut reader = caller();
    reader.allowed_shared_domains = texts(&["ops"]);
    let scope = MemoryScope::new(
        MemoryStore::Semantic,
        MemoryOwner::Shared,
        MemoryVisibility::Shared,
        Some("ops".to_owned()),
    );
    assert!(authorize_scope(&reader, &scope, MemoryOperation::Read).is_ok());
    assert!(authorize_scope(&reader, &scope, MemoryOperation::Write).is_err());
    reader.writable_shared_domains = texts(&["ops"]);
    assert!(authorize_scope(&reader, &scope, MemoryOperation::Write).is_ok());
    let grants = SharedDomainGrants::read_only(texts(&["ops"]));
    assert!(!grants.permits_write("ops"));
}

fn request(strategy: RetrievalStrategy, max_fragments: usize, max_tokens: usize) -> HydrationRequest {
    HydrationRequest {
        query: "keys".to_owned(),
        domain: None,
        max_fragments,
        max_tokens,
        stores: vec![MemoryStore::Semantic],
        strategy,
    }
}

#[test]
fn a_request_searches_the_callers_own_scopes_then_the_shared_ones() {
    let mut asker = caller();
    asker.user_id = Some("bob".to_owned());
    asker.allowed_shared_domains = texts(&["ops"]);
    let scopes = hydration_scopes(&asker, &request(RetrievalStrategy::Recency, 5, 0));
    let kinds: Vec<&str> = scopes.iter().map(|scope| scope.owner.kind()).collect();
    assert_eq!(kinds, vec!["user", "conversation", "agent", "task", "shared"]);
}

#[test]
fn every_scope_a_request_searches_may_be_read() {
    let mut asker = caller();
    asker.user_id = Some("bob".to_owned());
    asker.allowed_shared_domains = texts(&["ops"]);
    asker.audit_read_access = true;
    let mut wanted = request(RetrievalStrategy::Recency, 5, 0);
    wanted.stores = vec![MemoryStore::Semantic, MemoryStore::Audit];
    let scopes = hydration_scopes(&asker, &wanted);
    assert_eq!(scopes.len(), 10);
    for scope in &scopes {
        assert!(authorize_scope(&asker, scope, MemoryOperation::Read).is_ok());
    }
}

#[test]
fn a_caller_is_resolved_from_the_newest_turn_that_names_one() {
    let transcript = Transcript {
        items: vec![Item {
            message: Message::text(MessageRole::User, "hello"),
            metadata: vec![
                ("channel_id".to_owned(), text("telegram")),
                ("conversation_id".to_owned(), text("42")),
                ("sender".to_owned(), text("  bob ")),
            ],
        }],
    };
    let system = SystemContext {
        run_id: "run-1".to_owned(),
        active_agent: "main".to_owned(),
        task_id: "task-1".to_owned(),
        metadata: Vec::new(),
    };
    let grants = SharedDomainGrants::read_only(Vec::new());
    let caller = memory_caller_from_context(&transcript, &system, &grants);
    assert_eq!(caller.conversation_id, "42");
    assert_eq!(caller.user_id.as_deref(), Some("bob"));
    assert_eq!(caller.agent_id, "main");
}

// The manager.

fn fact(value: &str) -> Json {
    object(vec![("fact", text(value))])
}

#[test]
fn what_is_written_is_read_back_and_logged() {
    let mut manager = MemoryManager::new();
    let scope = own_scope(MemoryStore::Semantic);
    let id = manager
        .write_scoped(&caller(), &scope, fact("keys rotate"), Vec::new())
        .expect("the write is allowed");
    assert_eq!(id, "record-1");
    let records = manager
        .read_scoped(&caller(), &scope, &None, 10)
        .expect("the read is allowed");
    assert_eq!(records.len(), 1);
    assert_eq!(records[0].id.as_deref(), Some("record-1"));
    let reasons: Vec<&str> = manager
        .log
        .iter()
        .filter_map(|row| row.reason.as_deref())
        .collect();
    assert_eq!(reasons, vec!["managed_write", "managed_read"]);
}

#[test]
fn a_refused_operation_leaves_no_trace() {
    let mut manager = MemoryManager::new();
    let scope = own_scope(MemoryStore::Audit);
    assert!(manager
        .write_scoped(&caller(), &scope, fact("x"), Vec::new())
        .is_err());
    assert!(manager.read_scoped(&caller(), &scope, &None, 1).is_err());
    assert!(manager.log.is_empty());
    assert!(manager.table.rows.is_empty());
}

#[test]
fn forgetting_removes_what_was_selected_and_nothing_else() {
    let mut manager = MemoryManager::new();
    let scope = own_scope(MemoryStore::Semantic);
    for value in ["one", "two"] {
        manager
            .write_scoped(&caller(), &scope, fact(value), Vec::new())
            .expect("the write is allowed");
    }
    let removed = manager
        .forget_scoped(
            &caller(),
            &scope,
            &Selector {
                id: Some("record-1".to_owned()),
                namespace: None,
            },
        )
        .expect("forgetting is allowed");
    assert_eq!(removed, 1);
    assert_eq!(manager.table.rows.len(), 1);
    let error = manager
        .forget_scoped(
            &caller(),
            &scope,
            &Selector {
                id: None,
                namespace: Some("elsewhere".to_owned()),
            },
        )
        .expect_err("a namespace outside the scope");
    assert_eq!(
        backend(error),
        "memory scope unauthorized: selector namespace is outside the requested scope"
    );
}

#[test]
fn hydration_keeps_within_its_budgets() {
    let mut manager = MemoryManager::new();
    let scope = own_scope(MemoryStore::Semantic);
    for value in ["keys one", "keys two", "keys three"] {
        manager
            .write_scoped(&caller(), &scope, fact(value), Vec::new())
            .expect("the write is allowed");
    }
    manager
        .write_scoped(
            &caller(),
            &scope,
            fact("keys archived"),
            vec![("status".to_owned(), text("archived"))],
        )
        .expect("the write is allowed");
    for strategy in [
        RetrievalStrategy::Recency,
        RetrievalStrategy::Lexical,
        RetrievalStrategy::Hybrid,
    ] {
        let two = manager
            .hydrate_with_stats(&caller(), &request(strategy, 2, 0))
            .expect("the scopes are readable");
        assert_eq!(two.fragments.len(), 2);
        assert_eq!(two.stats.selected_count, 2);
        assert_eq!(two.stats.namespace_count, 1);
        let all = manager
            .hydrate(&caller(), &request(strategy, 10, 0))
            .expect("the scopes are readable");
        assert_eq!(all.len(), 3, "an archived record is not recalled");
    }
    // One fragment costs its text and its metadata, four characters a token.
    let tight = manager
        .hydrate_with_stats(&caller(), &request(RetrievalStrategy::Recency, 10, 55))
        .expect("the scopes are readable");
    assert_eq!(tight.fragments.len(), 1);
    assert_eq!(tight.stats.candidate_count, 3);
}

fn episode(outcome: EpisodeOutcome, tools: &[&str]) -> EpisodeRecord {
    EpisodeRecord {
        run_id: "run-1".to_owned(),
        task_id: "t1".to_owned(),
        active_agent: "alice".to_owned(),
        channel_id: "telegram".to_owned(),
        conversation_id: "c1".to_owned(),
        user_id: None,
        outcome,
        tools_used: texts(tools),
        subagents_used: Vec::new(),
        summary: "rotated the keys".to_owned(),
        turn_count: 1,
        metadata: Vec::new(),
    }
}

#[test]
fn recall_never_reaches_into_another_conversation() {
    let mut manager = MemoryManager::new();
    let mut stranger = caller();
    stranger.conversation_id = "c2".to_owned();
    let theirs = MemoryScope::new(
        MemoryStore::Semantic,
        MemoryOwner::Conversation(stranger.conversation_principal()),
        MemoryVisibility::Private,
        None,
    );
    manager
        .write_scoped(&stranger, &theirs, fact("keys of another"), Vec::new())
        .expect("the write is allowed");
    for strategy in [RetrievalStrategy::Recency, RetrievalStrategy::Hybrid] {
        let fragments = manager
            .hydrate(&caller(), &request(strategy, 10, 0))
            .expect("the scopes are readable");
        assert!(fragments.is_empty());
    }
    // Asking for the audit store without the right to read it ends the search.
    let mut audit = request(RetrievalStrategy::Recency, 10, 0);
    audit.stores = vec![MemoryStore::Audit];
    assert!(manager.hydrate(&caller(), &audit).is_err());
}

#[test]
fn a_trivial_run_is_not_recorded() {
    let mut manager = MemoryManager::new();
    let id = manager
        .record_episode(&episode(EpisodeOutcome::Succeeded, &[]))
        .expect("nothing to refuse");
    assert_eq!(id, None);
    assert!(manager.table.rows.is_empty());
}

#[test]
fn an_episode_is_filed_under_its_conversation() {
    let mut manager = MemoryManager::new();
    let id = manager
        .record_episode(&episode(EpisodeOutcome::Succeeded, &["shell"]))
        .expect("the write is allowed");
    assert_eq!(id.as_deref(), Some("record-1"));
    let row = &manager.table.rows[0];
    assert_eq!(
        row.namespace,
        "private/conversation/v1.alice.telegram.c1.n/episodic/general"
    );
    assert_eq!(
        row.body.to_text(),
        r#"{"active_agent":"alice","conversation_id":"c1","kind":"run_episode","outcome":"succeeded","run_id":"run-1","subagents_used":[],"summary":"rotated the keys","task_id":"t1","tools_used":["shell"]}"#
    );
    let keys: Vec<&str> = row.metadata.iter().map(|(key, _)| key.as_str()).collect();
    assert_eq!(
        keys,
        vec![
            "conversation_id",
            "domain",
            "outcome",
            "owner_id",
            "owner_kind",
            "source_agent_id",
            "source_run_id",
            "source_task_id",
            "store",
            "subagents_count",
            "tools_count",
            "turn_count",
            "visibility"
        ]
    );
    // What a pass over every conversation groups episodes by.
    let columns = record_columns(&row.metadata);
    assert_eq!(columns.store.as_deref(), Some("episodic"));
    assert_eq!(columns.owner_kind.as_deref(), Some("conversation"));
    assert_eq!(columns.owner_id.as_deref(), Some("v1.alice.telegram.c1.n"));
    assert_eq!(columns.visibility.as_deref(), Some("private"));
    assert_eq!(columns.domain.as_deref(), Some("general"));
}

#[test]
fn managed_metadata_overrides_what_a_caller_claims() {
    let metadata = managed_metadata(
        &caller(),
        &own_scope(MemoryStore::Semantic),
        vec![
            ("owner_id".to_owned(), text("someone else")),
            ("status".to_owned(), text("active")),
        ],
    );
    let shown: Vec<String> = metadata
        .iter()
        .map(|(key, value)| format!("{key}={}", value.to_text()))
        .collect();
    assert_eq!(
        shown,
        vec![
            r#"conversation_id="c1""#,
            r#"domain="general""#,
            r#"owner_id="v1.alice.telegram.c1.n""#,
            r#"owner_kind="conversation""#,
            r#"source_agent_id="alice""#,
            r#"source_task_id="t1""#,
            r#"status="active""#,
            r#"store="semantic""#,
            r#"visibility="private""#,
        ]
    );
}

#[test]
fn a_managed_read_counts_every_record_it_hands_out() {
    let mut manager = MemoryManager::new();
    let scope = own_scope(MemoryStore::Semantic);
    for value in ["keys one", "keys two"] {
        manager
            .write_scoped(&caller(), &scope, fact(value), Vec::new())
            .expect("the write is allowed");
    }
    assert_eq!(count_of(&manager.counts, "record-1"), 0);
    manager
        .read_scoped(&caller(), &scope, &Some("two".to_owned()), 10)
        .expect("the read is allowed");
    assert_eq!(count_of(&manager.counts, "record-1"), 0);
    assert_eq!(count_of(&manager.counts, "record-2"), 1);
    manager
        .hydrate(&caller(), &request(RetrievalStrategy::Recency, 10, 0))
        .expect("the scopes are readable");
    assert_eq!(count_of(&manager.counts, "record-1"), 1);
    assert_eq!(count_of(&manager.counts, "record-2"), 2);
    manager
        .forget_scoped(
            &caller(),
            &scope,
            &Selector {
                id: Some("record-1".to_owned()),
                namespace: None,
            },
        )
        .expect("forgetting is allowed");
    assert_eq!(manager.counts.len(), 1);
}

#[test]
fn an_index_decides_the_order_of_a_read() {
    let mut table = RecordTable::new();
    for value in ["keys one", "keys two"] {
        table
            .write(
                "ns",
                Record {
                    id: None,
                    namespace: String::new(),
                    body: fact(value),
                    metadata: Vec::new(),
                },
            )
            .expect("a new id");
    }
    let ids = |records: Result<Vec<Record>, MemoryError>| -> Vec<String> {
        let records = records.unwrap_or_else(|error| panic!("{}", backend(error)));
        records.into_iter().filter_map(|record| record.id).collect()
    };
    let index = Some(texts(&["record-2", "gone", "record-1"]));
    let query = Some("keys".to_owned());
    assert_eq!(
        ids(table.read("ns", &query, 10, &index)),
        vec!["record-2", "record-1"]
    );
    assert_eq!(ids(table.read("ns", &query, 1, &index)), vec!["record-2"]);
    // Nothing of another namespace is reached through the index.
    assert!(ids(table.read("elsewhere", &query, 10, &index)).is_empty());
    assert_eq!(
        ids(table.standard_read("ns", &Some("one".to_owned()), 10)),
        vec!["record-1"]
    );
}

#[test]
fn a_clash_leaves_a_row_without_an_id() {
    let mut table = RecordTable::new();
    let record = |id: Option<&str>| Record {
        id: id.map(str::to_owned),
        namespace: String::new(),
        body: Json::Null,
        metadata: Vec::new(),
    };
    assert!(table.write("ns", record(Some("record-2"))).is_ok());
    // The second row would be `record-2`, which is taken.
    let error = table.write("ns", record(None)).expect_err("taken");
    assert_eq!(
        backend(error),
        "UNIQUE constraint failed: memory_records.id"
    );
    assert_eq!(table.rows.len(), 2);
    assert_eq!(table.rows[1].id, None);
    assert_eq!(table.write("ns", record(None)).expect("a new id"), "record-3");

    // A read that comes to the row fails, one that ends before it does not.
    let read = |limit: usize| table.standard_read("ns", &None, limit);
    assert_eq!(read(1).expect("only the first row").len(), 1);
    assert_eq!(
        backend(read(2).err().expect("the second row has no id")),
        "Invalid column type Null at index: 0, name: id"
    );
    assert!(table.standard_read("elsewhere", &None, 10).is_ok());
    // The index never lists the row.
    let index = Some(texts(&["record-3", "record-2"]));
    let query = Some("null".to_owned());
    assert_eq!(
        table
            .read("ns", &query, 10, &index)
            .expect("every listed row has an id")
            .len(),
        2
    );
}

#[test]
fn a_manager_stops_at_a_row_without_an_id() {
    let mut manager = MemoryManager::new();
    let scope = own_scope(MemoryStore::Semantic);
    let elsewhere = own_scope(MemoryStore::Working);
    assert!(manager
        .table
        .write(
            "elsewhere",
            Record {
                id: Some("record-2".to_owned()),
                namespace: String::new(),
                body: Json::Null,
                metadata: Vec::new(),
            },
        )
        .is_ok());
    let error = manager
        .write_scoped(&caller(), &scope, fact("keys rotate"), Vec::new())
        .expect_err("the automatic id is taken");
    assert_eq!(
        backend(error),
        "UNIQUE constraint failed: memory_records.id"
    );
    assert_eq!(manager.table.rows.len(), 2);
    assert!(manager.log.is_empty());

    let unreadable = "Invalid column type Null at index: 0, name: id";
    let error = manager
        .read_scoped(&caller(), &scope, &None, 10)
        .err()
        .expect("the row has no id");
    assert_eq!(backend(error), unreadable);
    let all = Selector {
        id: None,
        namespace: None,
    };
    let error = manager
        .forget_scoped(&caller(), &scope, &all)
        .expect_err("the row has no id");
    assert_eq!(backend(error), unreadable);
    assert_eq!(manager.table.rows.len(), 2);
    assert!(manager.log.is_empty());
    assert!(manager
        .read_scoped(&caller(), &elsewhere, &None, 10)
        .is_ok());
}

#[test]
fn an_id_is_written_once() {
    let mut table = RecordTable::new();
    let record = |id: Option<&str>| Record {
        id: id.map(str::to_owned),
        namespace: String::new(),
        body: Json::Null,
        metadata: Vec::new(),
    };
    assert!(table.write("ns", record(Some("a"))).is_ok());
    let error = table.write("ns", record(Some("a"))).expect_err("taken");
    assert_eq!(
        backend(error),
        "UNIQUE constraint failed: memory_records.id"
    );
    assert_eq!(table.write("ns", record(None)).expect("a new id"), "record-2");
}

#[test]
fn a_lexical_query_is_a_substring_search_over_active_records() {
    let mut record = Record {
        id: None,
        namespace: "ns".to_owned(),
        body: fact("Keys Rotate"),
        metadata: Vec::new(),
    };
    assert!(record_matches_query(&record, &Some("  keys rot ".to_owned())));
    assert!(!record_matches_query(&record, &Some("locks".to_owned())));
    assert!(record_matches_query(&record, &Some("   ".to_owned())));
    record.metadata = vec![("status".to_owned(), text("superseded"))];
    assert!(!record_matches_query(&record, &None));
}

#[test]
fn a_search_becomes_quoted_terms() {
    assert_eq!(
        fts_match_query("rotate the \"keys\"").as_deref(),
        Some(r#""rotate" AND "the" AND "keys""#)
    );
    assert_eq!(fts_match_query("密钥 轮换").as_deref(), Some(r#""密钥" AND "轮换""#));
    assert_eq!(fts_match_query(" -- "), None);
    assert!(matches!(plan_read(&None, 0), ReadPlan::Nothing));
    assert!(matches!(plan_read(&Some(" ".to_owned()), 5), ReadPlan::Scan));
    assert!(matches!(
        plan_read(&Some(" keys ".to_owned()), 5),
        ReadPlan::FullText(query) if query == r#""keys""#
    ));
}

#[test]
fn columns_are_read_out_of_metadata() {
    let columns = record_columns(&vec![
        ("owner_id".to_owned(), text("c1")),
        ("store".to_owned(), Json::Unsigned(7)),
    ]);
    assert_eq!(columns.status, "active");
    assert_eq!(columns.owner_id.as_deref(), Some("c1"));
    assert_eq!(columns.store, None);
}

// Hybrid search.

#[test]
fn fusion_ranks_what_both_lists_agree_on_first() {
    let lists = vec![texts(&["a", "b", "c"]), texts(&["c", "d"])];
    let table = rank_table(&lists);
    let ids: Vec<&str> = table.iter().map(|entry| entry.id.as_str()).collect();
    assert_eq!(ids, vec!["a", "b", "c", "d"]);
    assert_eq!(table[2].ranks, vec![2, 0]);
    // Summed reciprocal ranks, as order-preserving bits.
    let scores: Vec<u64> = table
        .iter()
        .map(|entry| {
            let score: f64 = entry
                .ranks
                .iter()
                .map(|rank| 1.0 / (60.0 + *rank as f64 + 1.0))
                .sum();
            score.to_bits()
        })
        .collect();
    assert_eq!(
        reciprocal_rank_fusion(&table, &scores, 3),
        vec!["c", "a", "b"]
    );
    assert!(reciprocal_rank_fusion(&table, &scores, 0).is_empty());
}

fn record_with_id(id: &str, value: &str) -> Record {
    Record {
        id: Some(id.to_owned()),
        namespace: "ns".to_owned(),
        body: fact(value),
        metadata: Vec::new(),
    }
}

#[test]
fn records_are_picked_in_the_order_of_their_ids() {
    let records = vec![record_with_id("a", "1"), record_with_id("b", "2")];
    let picked = pick_records(&texts(&["b", "x", "a", "b"]), &records, 5);
    let ids: Vec<&str> = picked.iter().filter_map(|r| r.id.as_deref()).collect();
    assert_eq!(ids, vec!["b", "a"]);
    assert_eq!(
        missing_ids(&texts(&["b", "x", "y", "x"]), &records),
        vec!["x", "y"]
    );
}

#[test]
fn semantic_hits_are_listed_by_score_and_then_by_id() {
    let hit = |id: &str, score_key: u64| SemanticSearchHit {
        record_id: id.to_owned(),
        score_key,
    };
    let hits = vec![hit("b", 5), hit("z", 9), hit("a", 5)];
    assert_eq!(semantic_ids(&hits), vec!["z", "a", "b"]);
}

#[test]
fn a_hybrid_search_fetches_what_only_the_index_found() {
    let lexical = vec![record_with_id("a", "1")];
    let rows = vec![
        record_with_id("a", "as it is now"),
        record_with_id("b", "2"),
        record_with_id("c", "3"),
    ];
    let found = hybrid_records(
        &lexical,
        &texts(&["b", "a"]),
        &rows,
        &texts(&["b", "a", "c"]),
    );
    let bodies: Vec<String> = found.iter().map(|record| record.body.to_text()).collect();
    // `c` was neither a lexical nor a semantic hit.
    assert_eq!(bodies, vec![r#"{"fact":"2"}"#, r#"{"fact":"1"}"#]);
}

#[test]
fn hashes_are_the_same_in_every_process() {
    // Published FNV-1a vectors.
    assert_eq!(stable_hash_u64(""), 0xcbf29ce484222325);
    assert_eq!(stable_hash_u64("a"), 0xaf63dc4c8601ec8c);
    assert_eq!(stable_hash_u64("foobar"), 0x85944171f73967e8);
}

#[test]
fn an_embedding_counts_words_whatever_their_case() {
    let once = embedding_counts("Rotate keys", 16);
    assert_eq!(once.len(), 16);
    assert_eq!(once, embedding_counts("rotate KEYS!", 16));
    let hash = stable_hash_u64("keys");
    let single = embedding_counts("keys", 16);
    assert_eq!(single[(hash % 16) as usize], if hash % 2 == 0 { 1 } else { -1 });
    assert_eq!(single.iter().filter(|count| **count != 0).count(), 1);
    assert_eq!(embedding_counts("keys", 0).len(), 1);
}

#[test]
fn a_record_may_bring_its_own_embedding() {
    let mut record = record_with_id("a", "1");
    assert!(supplied_embedding(&record).is_none());
    record.metadata = vec![(
        "embedding".to_owned(),
        Json::List(vec![Json::Real("0.5".to_owned()), text("x"), Json::Unsigned(1)]),
    )];
    assert_eq!(supplied_embedding(&record).map(|items| items.len()), Some(2));
    assert_eq!(
        searchable_record_text(&record_with_id("a", "1")),
        r#"{"fact":"1"} {}"#
    );
}

#[test]
fn a_vector_table_has_an_ordinary_name() {
    let config = SqliteVecConfig::default();
    assert!(config.check().is_ok());
    assert_eq!(
        config.schema_statement(),
        "CREATE VIRTUAL TABLE IF NOT EXISTS memory_records_vec USING vec0(record_id TEXT, namespace TEXT partition key, embedding float[384]);"
    );
    for name in ["", "1st", "a-b", "a b"] {
        assert!(validate_table_name(name).is_err(), "{name:?}");
    }
    let flat = SqliteVecConfig {
        table: "t".to_owned(),
        vector_dimensions: 0,
    };
    assert_eq!(
        backend(flat.check().expect_err("no dimensions")),
        "sqlite_vec vector_dimensions must be greater than 0"
    );
    assert!(vector_row_id("record-1") > 0);
    assert_eq!(
        vector_row_id("a") as u64,
        0xaf63dc4c8601ec8c & 0x7fff_ffff_ffff_ffff
    );
    assert!(is_searchable("keys", 1));
    assert!(!is_searchable("  ", 1));
}

// Reflection.

fn episode_row(id: &str, summary: &str, outcome: &str, tools: &[&str]) -> Record {
    Record {
        id: Some(id.to_owned()),
        namespace: "ns".to_owned(),
        body: object(vec![
            ("kind", text("run_episode")),
            ("outcome", text(outcome)),
            ("summary", text(summary)),
            (
                "tools_used",
                Json::List(tools.iter().map(|tool| text(tool)).collect()),
            ),
        ]),
        metadata: Vec::new(),
    }
}

#[test]
fn repeated_episodes_are_promoted_and_single_ones_are_not() {
    let records = vec![
        episode_row("1", "rotate keys", "succeeded", &["shell"]),
        episode_row("2", " rotate keys ", "succeeded", &[]),
        episode_row("3", "asked once", "succeeded", &[]),
        episode_row("4", "backup", "failed", &["shell"]),
        episode_row("5", "backup", "succeeded", &["shell"]),
    ];
    let plan = plan_reflection(&records, 2);
    assert_eq!(plan.episode_candidates, 5);
    let promoted: Vec<(&str, bool)> = plan
        .promotions
        .iter()
        .map(|p| (p.summary.as_str(), p.procedural))
        .collect();
    assert_eq!(promoted, vec![("backup", false), ("rotate keys", true)]);
    assert_eq!(plan.promotions[1].source_record_ids, vec!["1", "2"]);
    // Asking for one repetition still means two.
    assert_eq!(plan_reflection(&records, 1).promotions.len(), 2);
    assert!(plan_reflection(&records, 3).promotions.is_empty());
}

#[test]
fn a_reflection_is_carried_out_step_by_step() {
    let records = vec![
        episode_row("1", "rotate keys", "succeeded", &["shell"]),
        episode_row("2", "rotate keys", "succeeded", &[]),
        episode_row("3", "backup", "failed", &[]),
        episode_row("4", "backup", "failed", &[]),
    ];
    let mut run = ReflectionRun::start(plan_reflection(&records, 2));
    let mut log: Vec<String> = Vec::new();
    let mut written = 0;
    loop {
        match run.action() {
            ReflectionAction::WriteFact(record) => {
                assert_eq!(record.reason, "reflection_semantic_promotion");
                assert_eq!(
                    Json::Object(record.metadata).to_text(),
                    r#"{"evidence_count":2,"importance":0.7,"reflection_generated":true,"source_store":"episodic"}"#
                );
                written += 1;
                log.push(format!("fact {written}"));
                run.written(&format!("w{written}"));
            }
            ReflectionAction::WriteProcedure(record) => {
                assert_eq!(
                    Json::Object(record.metadata).to_text(),
                    r#"{"evidence_count":2,"importance":0.6,"reflection_generated":true}"#
                );
                written += 1;
                log.push(format!("procedure {written}"));
                run.written(&format!("w{written}"));
            }
            ReflectionAction::Link {
                sources,
                target,
                relation,
            } => {
                log.push(format!("{} {relation} {target}", sources.join("+")));
                run.done();
            }
            ReflectionAction::Scan { summary } => {
                let old = Record {
                    id: Some(format!("old {summary}")),
                    namespace: "ns".to_owned(),
                    body: semantic_fact(&summary, 2).body,
                    metadata: Vec::new(),
                };
                run.scanned(&vec![old]);
            }
            ReflectionAction::Supersede {
                records,
                replacement,
            } => {
                log.push(format!("{} superseded_by {replacement}", records.join("+")));
                run.done();
            }
            ReflectionAction::Finish => break,
        }
    }
    assert_eq!(
        log,
        vec![
            "fact 1",
            "3+4 promoted_to w1",
            "old backup superseded_by w1",
            "fact 2",
            "1+2 promoted_to w2",
            "old rotate keys superseded_by w2",
            "procedure 3",
            "1+2 candidate_for w3",
        ]
    );
    let report = run.report();
    assert_eq!(report.episode_candidates, 4);
    assert_eq!(report.promoted_records.len(), 2);
    assert_eq!(report.procedural_candidates[0].record_id, "w3");
    assert_eq!(
        report.superseded_records,
        vec!["old backup", "old rotate keys"]
    );
}

#[test]
fn a_promotion_says_what_it_rests_on() {
    let fact = semantic_fact("rotate keys", 2);
    assert_eq!(
        fact.body.to_text(),
        r#"{"evidence_count":2,"kind":"semantic_fact","source_summary":"rotate keys","summary":"Repeated episode: rotate keys"}"#
    );
    let procedure = procedural_candidate("rotate keys", 2);
    assert_eq!(
        procedure.body.to_text(),
        r#"{"evidence_count":2,"kind":"procedural_candidate","source_summary":"rotate keys","summary":"Repeated successful trajectory: rotate keys"}"#
    );
    assert_eq!(procedure.reason, "reflection_procedural_candidate");
}

#[test]
fn a_new_fact_supersedes_older_ones_but_not_itself() {
    let fact_row = |id: &str, summary: &str| Record {
        id: Some(id.to_owned()),
        namespace: "ns".to_owned(),
        body: semantic_fact(summary, 2).body,
        metadata: Vec::new(),
    };
    let records = vec![
        fact_row("old", "rotate keys"),
        fact_row("other", "backup"),
        fact_row("new", "rotate keys"),
    ];
    assert_eq!(
        stale_semantic_records(&records, "rotate keys", "new"),
        vec!["old"]
    );
    let mut metadata = vec![("status".to_owned(), text("active"))];
    mark_status(&mut metadata, "superseded", "reflection_superseded");
    assert_eq!(metadata.len(), 2);
    assert!(matches!(&metadata[0].1, Json::Text(status) if status == "superseded"));
}

#[test]
fn a_pass_acts_as_the_conversation_it_tidies() {
    let caller = maintenance_caller("v1.main.telegram.42.n").expect("a principal");
    assert_eq!(caller.conversation_id, "42");
    assert_eq!(caller.task_id, "memory-maintenance");
    let params = ReflectionParams {
        min_episode_repetitions: 3,
        ..ReflectionParams::default()
    };
    // The budgets and the index are the pass's own, not each conversation's.
    let request = ReflectionRequest::for_maintenance(&caller, &params);
    assert_eq!(request.min_episode_repetitions, 3);
    assert!(!request.rebuild_lexical_index);
    assert!(request.retention.is_empty());
    assert_eq!(
        request.semantic_scope.namespace(),
        "private/conversation/v1.main.telegram.42.n/semantic/general"
    );
    assert!(maintenance_caller("42").is_none());
    let request = ReflectionRequest::for_conversation(&caller);
    assert_eq!(
        request.semantic_scope.namespace(),
        "private/conversation/v1.main.telegram.42.n/semantic/general"
    );
    let params = ReflectionParams::default();
    assert_eq!(params.min_episode_repetitions, 2);
    assert!(params.rebuild_lexical_index);
    let mut total = ReflectionReport::default();
    let mut one = ReflectionReport::default();
    one.episode_candidates = 3;
    one.superseded_records = texts(&["old"]);
    total.absorb(one);
    assert_eq!(total.episode_candidates, 3);
    assert_eq!(total.superseded_records, vec!["old"]);
}

// Sessions.

fn said(content: &str) -> Item {
    Item {
        message: Message::text(MessageRole::User, content),
        metadata: Vec::new(),
    }
}

fn person(sender: Option<&str>) -> Principal {
    Principal {
        agent: "main".to_owned(),
        channel: "telegram".to_owned(),
        conversation: "42".to_owned(),
        sender: sender.map(str::to_owned),
    }
}

fn shown(store: &SessionStore, principal: &Principal) -> Vec<String> {
    store
        .load(principal)
        .items
        .iter()
        .map(|item| item.message.content.clone())
        .collect()
}

#[test]
fn clearing_hides_for_one_participant_and_deletes_for_none() {
    let mut store = SessionStore::new();
    let (alice, bob) = (person(Some("alice")), person(Some("bob")));
    store.append(&alice, vec![said("one"), said("two")]);
    assert_eq!(store.clear_session(&alice), 2);
    store.append(&bob, vec![said("three")]);
    assert_eq!(shown(&store, &alice), vec!["three"]);
    assert_eq!(shown(&store, &bob), vec!["one", "two", "three"]);
    assert_eq!(store.session_log(&alice).len(), 3);
    // A clear with nobody named hides for everyone.
    store.clear_session(&person(None));
    assert!(shown(&store, &bob).is_empty());
}

#[test]
fn a_marker_past_the_end_hides_everything_up_to_it() {
    let principal = person(None);
    let mut store = SessionStore::new();
    store.logs.push(ConversationLog {
        key: principal.conversation_name(),
        start: 0,
        items: vec![said("one")],
        epochs: vec![Epoch {
            principal: principal.storage_name(),
            ordinal: 3,
        }],
    });
    assert!(shown(&store, &principal).is_empty());
    assert_eq!(store.clear_session(&principal), 0);
    store.append(&principal, vec![said("two"), said("three"), said("four")]);
    assert_eq!(shown(&store, &principal), vec!["four"]);
    assert_eq!(store.session_log(&principal).len(), 4);
}

#[test]
fn a_fork_starts_with_the_visible_prefix() {
    let mut store = SessionStore::new();
    let source = person(None);
    let child = Principal::conversation("main", "telegram", "43");
    store.append(&source, vec![said("one"), said("two"), said("three")]);
    assert!(matches!(store.fork(&source, 2, &child), Ok(2)));
    assert_eq!(shown(&store, &child), vec!["one", "two"]);
    assert!(store.fork(&source, 1, &source).is_err());
    assert!(store.fork(&source, 1, &child).is_err());
}

#[test]
fn a_purge_needs_the_count_it_was_shown() {
    let mut store = SessionStore::new();
    let principal = person(None);
    store.append(&principal, vec![said("one"), said("two")]);
    let Err(SessionError::Backend(error)) = store.purge_session(&principal, 3, "operator") else {
        panic!("a stale count is refused");
    };
    assert_eq!(
        error,
        "session purge confirmation is stale: expected 3 item(s), found 2"
    );
    assert!(matches!(
        store.purge_session(&principal, 2, "operator"),
        Ok(2)
    ));
    assert!(shown(&store, &principal).is_empty());
    assert_eq!(
        store.purges[0].detail,
        "2 session items deleted by operator"
    );
}

#[test]
fn idle_conversations_are_listed_longest_idle_first() {
    let row = |conversation: &str, items: usize, newest: u64| ConversationAge {
        key: Principal::conversation("main", "telegram", conversation).storage_name(),
        items,
        newest,
    };
    let rows = vec![row("a", 1, 50), row("b", 2, 10), row("c", 3, 100)];
    let idle = match idle_conversations(&rows, 100) {
        Ok(idle) => idle,
        Err(SessionError::Backend(error)) => panic!("{error}"),
    };
    let listed: Vec<(&str, usize)> = idle
        .iter()
        .map(|(principal, items)| (principal.conversation.as_str(), *items))
        .collect();
    assert_eq!(listed, vec![("b", 2), ("a", 1)]);

    let legacy = vec![ConversationAge {
        key: "42".to_owned(),
        items: 1,
        newest: 0,
    }];
    let Err(SessionError::Backend(error)) = idle_conversations(&legacy, 100) else {
        panic!("a key that is no principal is reported");
    };
    assert_eq!(
        error,
        "session key '42' is not a principal name; run `agentos-gateway migrate`"
    );
}
