use agentos_core::identity::Principal;
use agentos_core::json::Json;
use agentos_core::memory::accounting::MemoryError;
use agentos_core::memory::migrate::{
    apply, legacy_originals, plan, schema_version, BlockedReason, MemoryRows, MigrationPlan,
    MigrationSettings, IDENTITY_SCHEMA_VERSION, PRE_PRINCIPAL_SCHEMA_VERSION,
};
use agentos_core::memory::migrate_child_sessions as children;
use agentos_core::memory::migrate_child_sessions::{
    ChildIdentitySource, ChildKey, ChildSessionPlan, ChildSessionRewrite, SourceRow, StoredItem,
};
use agentos_core::memory::migrate_sessions as sessions;
use agentos_core::memory::migrate_sessions::{
    schema_of, EpochRow, SessionRow, SessionSchema, SessionTables,
};
use agentos_core::memory::migration::{
    backup_step, check_version, migrate_memory_row, rebuild_sessions, require_current_schema,
    BackupStep, LegacyRow, MemoryChange, MemoryFacts, MemoryVerdict, VersionCheck,
};
use agentos_core::memory::migration_report::{analyze, MigrationError};
use agentos_core::memory::scope::{MemoryStore, MemoryVisibility};
use agentos_core::memory::settled::{namespace_is_v1, SettledOwner, SettledScope};
use agentos_core::message::{Item, Message, MessageRole};

fn settings() -> MigrationSettings {
    MigrationSettings {
        agent: "main-agent".to_owned(),
        channel: "telegram".to_owned(),
        assume_literal_underscores: false,
    }
}

fn rows_with(namespaces: &[(&str, usize)]) -> MemoryRows {
    let mut rows = MemoryRows {
        namespaces: Vec::new(),
        full_text: Vec::new(),
        access_log: Vec::new(),
        schema_version: PRE_PRINCIPAL_SCHEMA_VERSION,
    };
    for (namespace, count) in namespaces {
        for _ in 0..*count {
            rows.namespaces.push((*namespace).to_owned());
        }
    }
    rows
}

fn plan_again(rows: &MemoryRows) -> MigrationPlan {
    plan(rows, &settings())
}

#[test]
fn the_index_and_the_access_log_follow_their_records() {
    let legacy = "private/conversation/42/semantic/general";
    let blocked = "private/user/a_b/semantic/general";
    let target = "private/conversation/v1.main-agent.telegram.42.n/semantic/general";
    let mut rows = rows_with(&[(legacy, 2), (blocked, 1)]);
    rows.full_text = vec![blocked.to_owned(), legacy.to_owned()];
    rows.access_log = vec![legacy.to_owned(), "elsewhere".to_owned(), legacy.to_owned()];

    let plan = plan_again(&rows);
    assert_eq!(plan.blocked.len(), 1);
    assert_eq!(plan.records_to_move(), 2);
    assert!(matches!(apply(&mut rows, &plan), Ok(2)));
    assert_eq!(rows.namespaces, vec![target, target, blocked]);
    assert_eq!(rows.full_text, vec![blocked, target]);
    assert_eq!(rows.access_log, vec![target, "elsewhere", target]);
    assert_eq!(rows.schema_version, PRE_PRINCIPAL_SCHEMA_VERSION);
}

#[test]
fn a_refused_apply_leaves_every_table_alone() {
    let legacy = "private/conversation/42/semantic/general";
    let target = "private/conversation/v1.main-agent.telegram.42.n/semantic/general";
    let mut rows = rows_with(&[(legacy, 1)]);
    rows.full_text = vec![legacy.to_owned()];
    rows.access_log = vec![legacy.to_owned()];
    let plan = plan_again(&rows);
    rows.namespaces.push(target.to_owned());

    assert!(apply(&mut rows, &plan).is_err());
    assert_eq!(rows.namespaces, vec![legacy, target]);
    assert_eq!(rows.full_text, vec![legacy]);
    assert_eq!(rows.access_log, vec![legacy]);
}

#[test]
fn a_fresh_database_reports_the_pre_principal_version() {
    assert_eq!(
        schema_version(&rows_with(&[])),
        PRE_PRINCIPAL_SCHEMA_VERSION
    );
}

#[test]
fn a_legacy_conversation_namespace_gains_its_principal() {
    let mut rows = rows_with(&[("private/conversation/42/semantic/general", 3)]);
    let plan = plan(&rows, &settings());

    assert!(plan.blocked.is_empty());
    assert_eq!(plan.rewrites.len(), 1);
    assert_eq!(
        plan.rewrites[0].from,
        "private/conversation/42/semantic/general"
    );
    assert_eq!(
        plan.rewrites[0].to,
        "private/conversation/v1.main-agent.telegram.42.n/semantic/general"
    );
    assert_eq!(plan.rewrites[0].records, 3);

    assert!(matches!(apply(&mut rows, &plan), Ok(3)));
    assert_eq!(schema_version(&rows), IDENTITY_SCHEMA_VERSION);
    // Re-planning after a clean run finds nothing left to do.
    let second = plan_again(&rows);
    assert!(second.rewrites.is_empty() && second.blocked.is_empty());
    assert_eq!(second.already_migrated, 1);
}

#[test]
fn an_ambiguous_owner_id_is_reported_not_guessed() {
    let mut rows = rows_with(&[("private/user/a_b/semantic/general", 2)]);
    let plan = plan(&rows, &settings());

    assert!(plan.rewrites.is_empty(), "nothing may be rewritten blindly");
    assert_eq!(plan.blocked.len(), 1);
    let blocked = &plan.blocked[0];
    assert_eq!(blocked.records, 2);
    let BlockedReason::AmbiguousSeparator { candidates } = &blocked.reason else {
        panic!("expected an ambiguity");
    };
    assert!(candidates.contains(&"a_b".to_owned()));
    assert!(candidates.contains(&"a/b".to_owned()));

    // Nothing is touched, and the version is not advanced.
    assert!(matches!(apply(&mut rows, &plan), Ok(0)));
    assert_eq!(schema_version(&rows), PRE_PRINCIPAL_SCHEMA_VERSION);
}

#[test]
fn the_operator_can_accept_the_literal_reading() {
    let rows = rows_with(&[("private/user/a_b/semantic/general", 2)]);
    let settings = MigrationSettings {
        assume_literal_underscores: true,
        ..settings()
    };
    let plan = plan(&rows, &settings);

    assert!(plan.blocked.is_empty());
    assert_eq!(plan.already_migrated, 1);
}

#[test]
fn a_rewrite_onto_an_occupied_namespace_is_refused() {
    let rows = rows_with(&[
        ("private/conversation/42/semantic/general", 2),
        (
            "private/conversation/v1.main-agent.telegram.42.n/semantic/general",
            1,
        ),
    ]);
    let plan = plan(&rows, &settings());

    assert!(plan.rewrites.is_empty());
    assert_eq!(plan.blocked.len(), 1);
    assert!(matches!(
        &plan.blocked[0].reason,
        BlockedReason::TargetOccupied { target } if target.contains("v1.main-agent.telegram.42.n")
    ));
    assert!(plan.blocked[0]
        .reason
        .message()
        .contains("v1.main-agent.telegram.42.n"));
}

#[test]
fn apply_rechecks_the_target_inside_the_transaction() {
    let mut rows = rows_with(&[("private/conversation/42/semantic/general", 2)]);
    let plan = plan(&rows, &settings());
    assert_eq!(plan.rewrites.len(), 1);

    rows.namespaces.push(plan.rewrites[0].to.clone());

    let Err(MemoryError::Backend(error)) = apply(&mut rows, &plan) else {
        panic!("the stale plan must be refused");
    };
    assert!(error.contains("gained records since the plan"), "{error}");
    // Nothing moved, so the original rows are still there.
    let remaining = plan_again(&rows);
    assert_eq!(remaining.blocked.len(), 1);
}

#[test]
fn two_legacy_namespaces_cannot_land_on_one_target() {
    let rows = rows_with(&[
        ("private/user/a.b/semantic/general", 1),
        ("private/user/~YS5i/semantic/general", 1),
    ]);
    let plan = plan(&rows, &settings());

    assert!(
        plan.blocked.iter().any(|blocked| matches!(
            blocked.reason,
            BlockedReason::TargetContested { .. } | BlockedReason::TargetOccupied { .. }
        )),
        "a contested target must block"
    );
    assert!(plan.rewrites.len() <= 1, "at most one may claim the target");
}

#[test]
fn a_namespace_of_the_wrong_shape_is_reported_rather_than_mangled() {
    let rows = rows_with(&[("not/a/namespace", 1)]);
    let plan = plan(&rows, &settings());
    assert_eq!(plan.blocked.len(), 1);
    assert!(matches!(plan.blocked[0].reason, BlockedReason::Unrecognised));
}

#[test]
fn the_report_leads_with_what_needs_a_decision() {
    let rows = rows_with(&[
        ("private/conversation/42/semantic/general", 1),
        ("private/user/a_b/semantic/general", 1),
    ]);
    let report = plan(&rows, &settings()).report();
    let blocked_at = report
        .find("will NOT be migrated")
        .expect("blocked section");
    let rewrite_at = report.find("will be rewritten").expect("rewrite section");
    assert!(
        blocked_at < rewrite_at,
        "blocked entries come first:\n{report}"
    );
}

#[test]
fn legacy_originals_enumerates_every_reading() {
    assert_eq!(legacy_originals("ab"), vec!["ab".to_owned()]);
    let two = legacy_originals("a_b");
    assert_eq!(two.len(), 2);
    assert!(two.contains(&"a_b".to_owned()) && two.contains(&"a/b".to_owned()));
    assert_eq!(legacy_originals("a_b_c").len(), 4);
    // Capped rather than exploding on a pathological id.
    assert!(legacy_originals("a_b_c_d_e_f_g_h_i_j").len() <= 8);
}

#[test]
fn readings_double_with_every_underscore_up_to_the_cap() {
    for (stored, count) in [("a", 1), ("_", 2), ("a__b", 4), ("_a_b_", 8), ("a_b_c_d_e", 8)] {
        let mut readings = legacy_originals(stored);
        assert_eq!(readings[0], stored);
        readings.sort();
        readings.dedup();
        assert_eq!(readings.len(), count, "{stored}");
    }
}

#[test]
fn every_namespace_is_listed_once_or_already_migrated() {
    let done = "private/conversation/v1.main-agent.telegram.41.n/semantic/general";
    let legacy = "private/conversation/42/semantic/general";
    let ambiguous = "private/user/a_b/semantic/general";
    let plan = plan_again(&rows_with(&[(legacy, 3), (done, 1), (ambiguous, 2)]));
    let mut listed: Vec<(&str, usize)> = plan
        .rewrites
        .iter()
        .map(|rewrite| (rewrite.from.as_str(), rewrite.records))
        .collect();
    listed.extend(
        plan.blocked
            .iter()
            .map(|blocked| (blocked.namespace.as_str(), blocked.records)),
    );
    assert_eq!(listed, vec![(legacy, 3), (ambiguous, 2)]);
}

// Sessions.

fn session_settings() -> MigrationSettings {
    MigrationSettings {
        agent: "main".to_owned(),
        channel: "telegram".to_owned(),
        assume_literal_underscores: false,
    }
}

fn session_row(key: &str, ordinal: u64, content: &str) -> SessionRow {
    SessionRow {
        key: key.to_owned(),
        ordinal,
        item: format!(r#"{{"message":{{"role":"user","content":"{content}"}}}}"#),
        created_at: "2026-01-01 00:00:00".to_owned(),
    }
}

/// Tables in the pre-principal shape, with items and a clear.
fn legacy_tables() -> SessionTables {
    let columns = ["row_id", "conversation_id", "ordinal", "item_json"]
        .iter()
        .map(|name| (*name).to_owned())
        .collect();
    SessionTables {
        schema: schema_of(&columns),
        items: vec![
            session_row("42", 0, "one"),
            session_row("42", 1, "two"),
            session_row("99", 0, "other"),
        ],
        epochs: vec![EpochRow {
            key: "42".to_owned(),
            principal: String::new(),
            ordinal: 1,
            created_at: "2026-01-01 00:00:00".to_owned(),
        }],
        schema_version: 2,
    }
}

#[test]
fn a_legacy_database_is_recognised_and_planned() {
    let tables = legacy_tables();
    assert_eq!(tables.schema, SessionSchema::Legacy);

    let plan = sessions::plan(&tables, &session_settings());
    assert_eq!(plan.rewrites.len(), 2);
    assert_eq!(plan.items_to_move(), 3);
    assert_eq!(plan.epochs, 1);
    assert_eq!(plan.rewrites[0].to, "v1.main.telegram.42.n");
    assert!(plan.report().contains("v1.main.telegram.42.n"));
}

#[test]
fn planning_changes_nothing() {
    let tables = legacy_tables();
    sessions::plan(&tables, &session_settings());
    assert_eq!(tables.schema, SessionSchema::Legacy);
}

#[test]
fn applying_rekeys_items_and_carries_the_epoch_forward() {
    let mut tables = legacy_tables();
    let plan = sessions::plan(&tables, &session_settings());
    assert!(matches!(sessions::apply(&mut tables, &plan), Ok(3)));
    assert_eq!(tables.schema, SessionSchema::Current);

    let items = tables
        .items
        .iter()
        .filter(|row| row.key == "v1.main.telegram.42.n")
        .count();
    assert_eq!(items, 2);

    // The clear becomes a conversation-wide epoch, which is what it meant.
    assert_eq!(tables.epochs.len(), 1);
    assert_eq!(tables.epochs[0].key, "v1.main.telegram.42.n");
    assert_eq!(tables.epochs[0].principal, "v1.main.telegram.42.n");
    assert_eq!(tables.epochs[0].ordinal, 1);
}

#[test]
fn applying_twice_is_a_no_op() {
    let mut tables = legacy_tables();
    let first = sessions::plan(&tables, &session_settings());
    assert!(sessions::apply(&mut tables, &first).is_ok());

    let second = sessions::plan(&tables, &session_settings());
    assert!(second.is_empty());
    assert!(matches!(sessions::apply(&mut tables, &second), Ok(0)));
}

#[test]
fn a_session_plan_is_good_for_one_apply() {
    let mut tables = legacy_tables();
    let plan = sessions::plan(&tables, &session_settings());
    assert!(sessions::apply(&mut tables, &plan).is_ok());
    let keys: Vec<String> = tables.items.iter().map(|row| row.key.clone()).collect();
    let Err(MemoryError::Backend(error)) = sessions::apply(&mut tables, &plan) else {
        panic!("the tables have changed shape");
    };
    assert_eq!(
        error,
        "session tables changed shape between the plan and the apply"
    );
    let after: Vec<String> = tables.items.iter().map(|row| row.key.clone()).collect();
    assert_eq!(after, keys);
}

// Delegated sessions.

const LEGACY_CHILD: &str = "v1.worker.~c3ViYWdlbnQ6d29ya2Vy.~NDI6d29ya2VyOm9sZGhhc2g.n";

fn child_tables() -> SessionTables {
    SessionTables {
        schema: SessionSchema::Current,
        items: vec![session_row(LEGACY_CHILD, 0, "same task")],
        epochs: Vec::new(),
        schema_version: 3,
    }
}

#[test]
fn complete_legacy_source_is_rekeyed_without_merging() {
    let mut tables = child_tables();
    let keys = vec![ChildKey {
        key: LEGACY_CHILD.to_owned(),
        items: 1,
        sources: vec![SourceRow::Present(ChildIdentitySource {
            child_agent: "worker".to_owned(),
            conversation_id: Some("child.v1.abc".to_owned()),
            persisted: "{}".to_owned(),
        })],
    }];
    let target = "v1.worker.~c3ViYWdlbnQ6d29ya2Vy.~Y2hpbGQudjEuYWJj.n";

    let plan = children::plan(SessionSchema::Current, &keys);
    assert!(plan.quarantined.is_empty());
    assert_eq!(plan.rewrites.len(), 1);
    assert_eq!(plan.rewrites[0].to, target);
    assert!(matches!(children::apply(&mut tables, &plan), Ok(1)));
    assert!(!tables.items.iter().any(|row| row.key == LEGACY_CHILD));
    assert_eq!(
        tables.items.iter().filter(|row| row.key == target).count(),
        1
    );
}

#[test]
fn incomplete_legacy_source_is_reported_and_left_in_place() {
    let mut tables = child_tables();
    let keys = vec![ChildKey {
        key: LEGACY_CHILD.to_owned(),
        items: 1,
        sources: vec![SourceRow::Absent],
    }];

    let plan = children::plan(SessionSchema::Current, &keys);
    assert!(plan.rewrites.is_empty());
    assert_eq!(plan.quarantined.len(), 1);
    assert!(plan.report().contains("will NOT be migrated"));
    assert!(matches!(children::apply(&mut tables, &plan), Ok(0)));
    assert_eq!(
        tables
            .items
            .iter()
            .filter(|row| row.key == LEGACY_CHILD)
            .count(),
        1
    );
}

#[test]
fn items_are_grouped_by_key_in_key_order() {
    let rows = vec![
        StoredItem {
            key: "b".to_owned(),
            source: SourceRow::Malformed("first".to_owned()),
        },
        StoredItem {
            key: "a".to_owned(),
            source: SourceRow::Absent,
        },
        StoredItem {
            key: "b".to_owned(),
            source: SourceRow::Absent,
        },
    ];
    let keys = children::group_items(&rows);
    let names: Vec<&str> = keys.iter().map(|key| key.key.as_str()).collect();
    assert_eq!(names, vec!["a", "b"]);
    assert_eq!(keys[0].items, 1);
    assert_eq!(keys[1].items, 2);
    assert!(matches!(&keys[1].sources[0], SourceRow::Malformed(why) if why == "first"));
    assert!(matches!(&keys[1].sources[1], SourceRow::Absent));
}

#[test]
fn a_child_plan_comes_in_key_order() {
    let child = |key: &str, conversation: Option<&str>| StoredItem {
        key: key.to_owned(),
        source: SourceRow::Present(ChildIdentitySource {
            child_agent: "worker".to_owned(),
            conversation_id: conversation.map(str::to_owned),
            persisted: "{}".to_owned(),
        }),
    };
    let later = "v1.worker.~c3ViYWdlbnQ6d29ya2Vy.~NDM6d29ya2VyOm9sZGhhc2g.n";
    let earlier = "v1.worker.~c3ViYWdlbnQ6d29ya2Vy.~NDE6d29ya2VyOm9sZGhhc2g.n";
    let rows = vec![
        child(later, Some("child.v1.b")),
        child(LEGACY_CHILD, None),
        child(earlier, Some("child.v1.a")),
    ];
    let plan = children::plan(SessionSchema::Current, &children::group_items(&rows));
    let sources: Vec<&str> = plan
        .rewrites
        .iter()
        .map(|rewrite| rewrite.from.as_str())
        .collect();
    assert_eq!(sources, vec![earlier, later]);
    assert_eq!(plan.quarantined.len(), 1);
    assert_eq!(plan.quarantined[0].key, LEGACY_CHILD);
    assert_eq!(
        plan.quarantined[0].reason,
        "unsupported or sender-qualified child identity source"
    );
}

#[test]
fn every_delegated_key_is_listed_once() {
    let stored = |key: &str, conversation: Option<&str>| StoredItem {
        key: key.to_owned(),
        source: SourceRow::Present(ChildIdentitySource {
            child_agent: "worker".to_owned(),
            conversation_id: conversation.map(str::to_owned),
            persisted: "{}".to_owned(),
        }),
    };
    let unclear = "v1.worker.~c3ViYWdlbnQ6d29ya2Vy.~NDM6d29ya2VyOm9sZGhhc2g.n";
    let rows = vec![
        stored(unclear, None),
        stored(LEGACY_CHILD, Some("child.v1.b")),
        stored("v1.main.telegram.42.n", Some("child.v1.c")),
        stored(LEGACY_CHILD, Some("child.v1.b")),
    ];
    let plan = children::plan(SessionSchema::Current, &children::group_items(&rows));
    assert_eq!(plan.rewrites.len(), 1);
    assert_eq!(plan.rewrites[0].from, LEGACY_CHILD);
    assert_eq!(plan.rewrites[0].items, 2);
    assert_eq!(plan.quarantined.len(), 1);
    assert_eq!(plan.quarantined[0].key, unclear);
    assert_eq!(plan.quarantined[0].items, 1);
}

fn child_rewrite(to: &str) -> ChildSessionPlan {
    ChildSessionPlan {
        rewrites: vec![ChildSessionRewrite {
            from: LEGACY_CHILD.to_owned(),
            to: to.to_owned(),
            items: 1,
        }],
        quarantined: Vec::new(),
    }
}

fn refusal(tables: &mut SessionTables, plan: &ChildSessionPlan) -> String {
    match children::apply(tables, plan) {
        Err(MemoryError::Backend(text)) => text,
        Ok(_) => panic!("the plan is refused"),
    }
}

#[test]
fn a_child_rewrite_that_is_not_clear_says_why() {
    let target = "v1.worker.~c3ViYWdlbnQ6d29ya2Vy.~Y2hpbGQudjEuYWJj.n";
    let mut tables = child_tables();
    tables.items.push(session_row(target, 0, "already here"));
    assert_eq!(
        refusal(&mut tables, &child_rewrite(target)),
        format!("refusing child session migration: target '{target}' became occupied after planning")
    );

    assert_eq!(
        refusal(&mut child_tables(), &child_rewrite("nobody")),
        "planned child target is not a principal key"
    );

    let marker = |principal: &str| EpochRow {
        key: LEGACY_CHILD.to_owned(),
        principal: principal.to_owned(),
        ordinal: 0,
        created_at: "now".to_owned(),
    };
    let mut tables = child_tables();
    tables.epochs.push(marker("nobody"));
    assert_eq!(
        refusal(&mut tables, &child_rewrite(target)),
        "legacy child epoch contains invalid principal 'nobody'"
    );
    let mut tables = child_tables();
    tables.epochs.push(marker("v1.a.b.c.n"));
    assert_eq!(
        refusal(&mut tables, &child_rewrite(target)),
        format!("legacy child epoch principal 'v1.a.b.c.n' does not belong to '{LEGACY_CHILD}'")
    );
    assert_eq!(tables.items[0].key, LEGACY_CHILD);
}

// The whole database.

fn item(role: MessageRole, text: &str, metadata: &[(&str, &str)]) -> Item {
    let mut entries: Vec<(String, Json)> = metadata
        .iter()
        .map(|(key, value)| ((*key).to_owned(), Json::Text((*value).to_owned())))
        .collect();
    entries.sort_by(|left, right| left.0.cmp(&right.0));
    Item {
        message: Message::text(role, text),
        metadata: entries,
    }
}

fn insert_turn(
    rows: &mut Vec<LegacyRow>,
    conversation: &str,
    channel: &str,
    sender: &str,
    agent: &str,
) {
    let user = item(
        MessageRole::User,
        "hello",
        &[
            ("channel_id", channel),
            ("conversation_id", conversation),
            ("sender", sender),
        ],
    );
    let assistant = item(MessageRole::Assistant, "hi", &[("active_agent", agent)]);
    for item in [user, assistant] {
        rows.push(LegacyRow {
            row_id: rows.len() as i64 + 1,
            legacy_key: conversation.to_owned(),
            item: Ok(item),
        });
    }
}

fn conversation_memory(conversation: &str) -> MemoryFacts {
    let metadata = item(
        MessageRole::User,
        "",
        &[
            ("store", "episodic"),
            ("owner_kind", "conversation"),
            ("owner_id", conversation),
            ("visibility", "private"),
            ("domain", "general"),
            ("conversation_id", conversation),
            ("source_agent_id", "agent-a"),
            ("source_task_id", "task-a"),
        ],
    )
    .metadata;
    MemoryFacts {
        namespace: format!("private/conversation/{conversation}/episodic/general"),
        store: Some("episodic".to_owned()),
        owner_kind: Some("conversation".to_owned()),
        owner_id: Some(conversation.to_owned()),
        visibility: Some("private".to_owned()),
        domain: Some("general".to_owned()),
        source_agent: Some("agent-a".to_owned()),
        source_task: Some("task-a".to_owned()),
        metadata,
        recorded_owner: None,
    }
}

#[test]
fn dry_run_reports_cross_principal_collision_without_mutating() {
    let mut rows = Vec::new();
    insert_turn(&mut rows, "42", "telegram", "alice", "agent-a");
    insert_turn(&mut rows, "42", "feishu", "alice", "agent-a");
    insert_turn(&mut rows, "42", "telegram", "alice", "agent-b");

    let Ok(analysis) = analyze(0, "legacy.sqlite", &rows, &Vec::new(), "fallback") else {
        panic!("a legacy database is analysed");
    };
    let report = analysis.report;
    assert_eq!(report.session_rows_to_migrate, 6);
    assert_eq!(report.session_rows_to_quarantine, 0);
    assert_eq!(report.collisions.len(), 1);
    assert_eq!(report.collisions[0].target_keys.len(), 3);
    assert_eq!(report.from_version, 0);
    assert!(report.backup_required);
}

#[test]
fn ambiguous_memory_is_quarantined_instead_of_merged() {
    let mut rows = Vec::new();
    insert_turn(&mut rows, "42", "telegram", "alice", "agent-a");
    insert_turn(&mut rows, "42", "feishu", "alice", "agent-a");
    let memories = vec![conversation_memory("42")];

    let Ok(analysis) = analyze(0, "ambiguous.sqlite", &rows, &memories, "fallback") else {
        panic!("a legacy database is analysed");
    };
    assert_eq!(analysis.report.memory_rows_to_quarantine, 1);
    assert!(!analysis.report.issues.is_empty());
    assert!(matches!(
        analysis.memories[0],
        MemoryVerdict::Quarantine(_)
    ));
}

#[test]
fn minimal_legacy_memory_shape_is_reported_and_quarantined_without_fts() {
    let memories = vec![MemoryFacts {
        namespace: "memory:old".to_owned(),
        store: None,
        owner_kind: None,
        owner_id: None,
        visibility: None,
        domain: None,
        source_agent: None,
        source_task: None,
        metadata: Vec::new(),
        recorded_owner: None,
    }];
    let Ok(analysis) = analyze(0, "minimal.sqlite", &Vec::new(), &memories, "agent-a") else {
        panic!("a legacy database is analysed");
    };
    assert_eq!(analysis.report.memory_rows_to_quarantine, 1);
    assert_eq!(analysis.report.to_version, 1);
}

#[test]
fn sessions_are_split_and_an_unambiguous_memory_moves() {
    let mut rows = Vec::new();
    insert_turn(&mut rows, "42", "telegram", "alice", "agent-a");
    insert_turn(&mut rows, "42", "feishu", "alice", "agent-a");
    insert_turn(&mut rows, "solo", "telegram", "bob", "agent-a");
    let memories = vec![conversation_memory("solo")];

    let Ok(analysis) = analyze(0, "legacy.sqlite", &rows, &memories, "fallback") else {
        panic!("a legacy database is analysed");
    };
    assert_eq!(analysis.report.session_rows_to_migrate, 6);
    assert_eq!(analysis.report.memory_rows_to_migrate, 1);

    let rebuilt = rebuild_sessions(&analysis.sessions);
    let mut keys: Vec<String> = rebuilt
        .iter()
        .filter_map(|row| row.as_ref().map(|row| row.key.clone()))
        .collect();
    keys.sort();
    keys.dedup();
    assert_eq!(keys.len(), 3);
    // Each conversation numbers its own rows from zero.
    let ordinals: Vec<u64> = rebuilt
        .iter()
        .filter_map(|row| row.as_ref().map(|row| row.ordinal))
        .collect();
    assert_eq!(ordinals, vec![0, 1, 0, 1, 0, 1]);

    let metadata = conversation_memory("solo").metadata;
    let MemoryChange::Move(row) =
        migrate_memory_row(&analysis.memories[0], metadata, Json::Null)
    else {
        panic!("the row moves");
    };
    assert_eq!(row.owner_kind, "principal");
    assert!(row.namespace.starts_with("private/principal/pk1_"));
    let key = "pk1_djEuYWdlbnQtYS50ZWxlZ3JhbS5zb2xvLnNib2I";
    assert_eq!(row.owner_id, key);
    assert_eq!(row.namespace, format!("private/principal/{key}/episodic/general"));

    // What has moved is not moved again.
    let mut moved = conversation_memory("solo");
    moved.namespace = row.namespace;
    moved.owner_kind = Some(row.owner_kind);
    moved.owner_id = Some(row.owner_id);
    let Ok(again) = analyze(0, "legacy.sqlite", &rows, &vec![moved], "fallback") else {
        panic!("a legacy database is analysed");
    };
    assert!(matches!(again.memories[0], MemoryVerdict::Keep));
}

#[test]
fn settled_owners_stay_apart() {
    let settled = |owner: SettledOwner, domain: Option<&str>| {
        SettledScope {
            store: MemoryStore::Semantic,
            owner,
            visibility: MemoryVisibility::Private,
            domain: domain.map(str::to_owned),
        }
        .namespace()
    };
    let names = [
        settled(SettledOwner::Agent("a_b".to_owned()), None),
        settled(SettledOwner::Agent("a/b".to_owned()), None),
        settled(SettledOwner::Task("a_b".to_owned()), None),
        settled(SettledOwner::Agent("a_b".to_owned()), Some("general")),
        settled(SettledOwner::Shared, None),
    ];
    for (index, name) in names.iter().enumerate() {
        assert!(!names[..index].contains(name), "{name}");
    }
}

#[test]
fn a_storage_key_reads_back_and_nothing_else_does() {
    let principal = Principal {
        agent: "agent/a".to_owned(),
        channel: "telegram".to_owned(),
        conversation: "42".to_owned(),
        sender: Some("alice".to_owned()),
    };
    let key = principal.storage_key();
    assert!(key.starts_with("pk1_"));
    let Some(again) = Principal::from_storage_key(&key) else {
        panic!("a key reads back");
    };
    assert!(again.same_as(&principal));
    assert!(Principal::from_storage_key(&principal.storage_name()).is_none());
    assert!(Principal::from_storage_key("pk1_").is_none());
    assert!(Principal::from_storage_key("pk1_!").is_none());
}

#[test]
fn a_principal_memory_is_owned_by_whom_it_records() {
    let key = "pk1_djEuYWdlbnQtYS50ZWxlZ3JhbS5zb2xvLnNib2I";
    let mut facts = conversation_memory("gone");
    facts.owner_kind = Some("principal".to_owned());
    facts.owner_id = Some(key.to_owned());
    let owner_of = |facts: MemoryFacts| {
        let Ok(analysis) = analyze(0, "legacy.sqlite", &Vec::new(), &vec![facts], "fallback")
        else {
            panic!("a legacy database is analysed");
        };
        match analysis.memories.into_iter().next() {
            Some(MemoryVerdict::Move(scope)) => Ok((
                scope.owner.kind().to_owned(),
                scope.owner.metadata_id(),
                scope.domain_name(),
            )),
            Some(MemoryVerdict::Quarantine(why)) => Err(why),
            _ => Err("kept".to_owned()),
        }
    };
    facts.domain = Some("work".to_owned());
    assert_eq!(
        owner_of(facts),
        Ok((
            "principal".to_owned(),
            key.to_owned(),
            "id_d29yaw".to_owned()
        ))
    );

    let mut facts = conversation_memory("gone");
    facts.owner_kind = Some("principal".to_owned());
    facts.recorded_owner = Some(SettledOwner::Agent("main".to_owned()));
    assert_eq!(
        owner_of(facts),
        Ok((
            "agent".to_owned(),
            "main".to_owned(),
            "general".to_owned()
        ))
    );

    let mut facts = conversation_memory("gone");
    facts.owner_kind = Some("principal".to_owned());
    assert_eq!(
        owner_of(facts),
        Err("principal memory has no decodable owner".to_owned())
    );
}

#[test]
fn a_newer_database_is_refused_and_a_current_one_left_alone() {
    assert!(matches!(
        analyze(2, "new.sqlite", &Vec::new(), &Vec::new(), "agent"),
        Err(MigrationError::FutureVersion {
            found: 2,
            supported: 1
        })
    ));
    let Ok(analysis) = analyze(1, "current.sqlite", &Vec::new(), &Vec::new(), "agent") else {
        panic!("a current database is read");
    };
    assert!(analysis.report.already_current);
    assert!(!analysis.report.backup_required);
    assert_eq!(check_version(0), VersionCheck::Legacy);
}

#[test]
fn a_runtime_says_what_to_do_about_another_version() {
    assert!(require_current_schema(1).is_ok());
    let Err(MemoryError::Backend(newer)) = require_current_schema(7) else {
        panic!("a newer schema is refused");
    };
    assert_eq!(
        newer,
        "database schema version 7 is newer than this runtime supports (1)"
    );
    let Err(MemoryError::Backend(older)) = require_current_schema(0) else {
        panic!("a legacy schema is refused");
    };
    assert!(older.contains("agentos-gateway migrate --dry-run"));
}

#[test]
fn a_backup_is_made_once_and_only_reused_by_the_run_that_made_it() {
    let prepared = Some("/b/one.sqlite".to_owned());
    assert_eq!(backup_step(&None, "/b/one.sqlite", false), BackupStep::Create);
    assert_eq!(
        backup_step(&None, "/b/one.sqlite", true),
        BackupStep::RefuseExisting
    );
    assert_eq!(
        backup_step(&prepared, "/b/one.sqlite", true),
        BackupStep::Reuse
    );
    assert_eq!(
        backup_step(&prepared, "/b/one.sqlite", false),
        BackupStep::RefuseMissing
    );
    assert_eq!(
        backup_step(&prepared, "/b/two.sqlite", false),
        BackupStep::RefuseExisting
    );
}

#[test]
fn a_turn_without_an_identity_is_set_aside() {
    let rows = vec![LegacyRow {
        row_id: 1,
        legacy_key: "42".to_owned(),
        item: Ok(item(MessageRole::User, "hello", &[])),
    }];
    let Ok(analysis) = analyze(0, "legacy.sqlite", &rows, &Vec::new(), "fallback") else {
        panic!("a legacy database is analysed");
    };
    assert_eq!(analysis.report.session_rows_to_quarantine, 1);
    assert_eq!(analysis.report.issues.len(), 1);
    assert_eq!(
        analysis.sessions[0].reason.as_deref(),
        Some("user item has no channel_id")
    );
}

#[test]
fn moved_metadata_names_its_new_owner() {
    let scope = SettledScope {
        store: MemoryStore::Semantic,
        owner: SettledOwner::User("alice".to_owned()),
        visibility: MemoryVisibility::Private,
        domain: None,
    };
    let metadata = vec![
        ("owner_id".to_owned(), Json::Text("old".to_owned())),
        ("status".to_owned(), Json::Text("active".to_owned())),
    ];
    let owner = Json::Text("spelled out".to_owned());
    let MemoryChange::Move(row) =
        migrate_memory_row(&MemoryVerdict::Move(scope), metadata, owner)
    else {
        panic!("the row moves");
    };
    assert_eq!(row.namespace, "private/user/id_YWxpY2U/semantic/general");
    assert_eq!(row.owner_kind, "user");
    assert_eq!(row.owner_id, "alice");
    assert_eq!(row.domain, "general");
    let metadata = row.metadata;
    let names: Vec<&str> = metadata.iter().map(|(key, _)| key.as_str()).collect();
    assert_eq!(
        names,
        vec!["domain", "owner", "owner_id", "owner_kind", "status"]
    );
    assert!(matches!(&metadata[2].1, Json::Text(id) if id == "alice"));
    assert!(matches!(&metadata[3].1, Json::Text(kind) if kind == "user"));
    assert!(matches!(
        migrate_memory_row(&MemoryVerdict::Keep, Vec::new(), Json::Null),
        MemoryChange::Keep
    ));
    assert!(matches!(
        migrate_memory_row(
            &MemoryVerdict::Quarantine("no owner".to_owned()),
            Vec::new(),
            Json::Null
        ),
        MemoryChange::Quarantine(reason) if reason == "no owner"
    ));
}

#[test]
fn a_namespace_already_in_its_final_form_is_kept() {
    assert!(!namespace_is_v1(
        "private/conversation/42/semantic/general",
        &Some("conversation".to_owned()),
        &Some("42".to_owned())
    ));
    let key = "pk1_djEuYWdlbnQtYS50ZWxlZ3JhbS5zb2xvLnNib2I";
    assert!(namespace_is_v1(
        &format!("private/principal/{key}/semantic/general"),
        &Some("principal".to_owned()),
        &Some(key.to_owned())
    ));
    assert!(!namespace_is_v1(
        "private/principal/pk1_other/semantic/general",
        &Some("principal".to_owned()),
        &Some(key.to_owned())
    ));
    assert!(namespace_is_v1(
        "shared/shared/global/semantic/id_d29yaw",
        &Some("shared".to_owned()),
        &None
    ));
}
