//! Moving the session log onto principal keys.
//!
//! Every conversation keeps its items, their order and their timestamps; only
//! the key changes. Clear markers carry forward as conversation-wide epochs,
//! so no cleared history comes back.

use super::accounting::MemoryError;
use super::migrate::{
    counts_view, is_tally, names_of, namespace_counts, rewritten_records, CountView,
    MigrationSettings, RewriteView,
};
use crate::identity::{storage_name_is_injective, Identity, Principal};
use crate::lists::{contains_text, increasing, lemma_precedes_total, precedes};
use crate::text::{
    decimal, holding_is_standing_between, holds, push_decimal, same, texts,
};
use vstd::prelude::*;

verus! {

/// Schema version written once the session log is principal-keyed.
pub const SESSION_PRINCIPAL_SCHEMA_VERSION: i64 = 3;

/// What shape the session tables are in.
#[derive(Clone, Copy, Debug, PartialEq, Eq, Structural)]
pub enum SessionSchema {
    /// No session table yet.
    Absent,
    /// Keyed by a bare conversation id.
    Legacy,
    /// Keyed by a principal's conversation name.
    Current,
}

/// Which shape a session table with these columns is in.
pub fn schema_of(columns: &Vec<String>) -> (schema: SessionSchema)
    ensures
        schema == if columns@.len() == 0 {
            SessionSchema::Absent
        } else if texts(columns@).contains("conversation_key"@) {
            SessionSchema::Current
        } else {
            SessionSchema::Legacy
        },
{
    if columns.len() == 0 {
        SessionSchema::Absent
    } else if contains_text(columns, "conversation_key") {
        SessionSchema::Current
    } else {
        SessionSchema::Legacy
    }
}

/// One item of the session log, under its conversation's key.
pub struct SessionRow {
    pub key: String,
    pub ordinal: u64,
    /// The item's JSON.
    pub item: String,
    pub created_at: String,
}

/// What a [`SessionRow`] stands for.
#[verifier::ext_equal]
pub struct RowView {
    pub key: Seq<char>,
    pub ordinal: u64,
    pub item: Seq<char>,
    pub created_at: Seq<char>,
}

impl View for SessionRow {
    type V = RowView;

    open spec fn view(&self) -> RowView {
        RowView {
            key: self.key@,
            ordinal: self.ordinal,
            item: self.item@,
            created_at: self.created_at@,
        }
    }
}

/// One clear marker: from which ordinal on a conversation is shown, to whom.
pub struct EpochRow {
    pub key: String,
    pub principal: String,
    pub ordinal: u64,
    pub created_at: String,
}

/// What an [`EpochRow`] stands for.
#[verifier::ext_equal]
pub struct MarkerView {
    pub key: Seq<char>,
    pub principal: Seq<char>,
    pub ordinal: u64,
    pub created_at: Seq<char>,
}

impl View for EpochRow {
    type V = MarkerView;

    open spec fn view(&self) -> MarkerView {
        MarkerView {
            key: self.key@,
            principal: self.principal@,
            ordinal: self.ordinal,
            created_at: self.created_at@,
        }
    }
}

/// The rows of a list.
pub open spec fn rows_view(rows: Seq<SessionRow>) -> Seq<RowView> {
    rows.map_values(|r: SessionRow| r@)
}

/// The markers of a list.
pub open spec fn markers_view(rows: Seq<EpochRow>) -> Seq<MarkerView> {
    rows.map_values(|r: EpochRow| r@)
}

/// The keys of rows.
pub open spec fn row_keys(rows: Seq<RowView>) -> Seq<Seq<char>> {
    rows.map_values(|r: RowView| r.key)
}

/// Both session tables and the recorded version.
pub struct SessionTables {
    pub schema: SessionSchema,
    pub items: Vec<SessionRow>,
    pub epochs: Vec<EpochRow>,
    pub schema_version: i64,
}

/// One legacy conversation and the principal key it becomes.
#[derive(Debug, PartialEq, Eq)]
pub struct SessionRewrite {
    pub from: String,
    pub to: String,
    pub items: usize,
}

impl View for SessionRewrite {
    type V = RewriteView;

    open spec fn view(&self) -> RewriteView {
        RewriteView { from: self.from@, to: self.to@, records: self.items as nat }
    }
}

/// The rewrites of a list.
pub open spec fn session_rewrites(rewrites: Seq<SessionRewrite>) -> Seq<RewriteView> {
    rewrites.map_values(|r: SessionRewrite| r@)
}

/// What a session migration would do.
pub struct SessionPlan {
    pub rewrites: Vec<SessionRewrite>,
    pub epochs: usize,
    /// Conversations whose target key another conversation already claims.
    pub collisions: Vec<SessionRewrite>,
}

/// What a [`SessionPlan`] stands for.
#[verifier::ext_equal]
pub struct SessionPlanView {
    pub rewrites: Seq<RewriteView>,
    pub collisions: Seq<RewriteView>,
    pub epochs: nat,
}

impl View for SessionPlan {
    type V = SessionPlanView;

    open spec fn view(&self) -> SessionPlanView {
        SessionPlanView {
            rewrites: session_rewrites(self.rewrites@),
            collisions: session_rewrites(self.collisions@),
            epochs: self.epochs as nat,
        }
    }
}

/// The key a legacy conversation becomes.
pub open spec fn session_target(agent: Seq<char>, channel: Seq<char>, conversation: Seq<char>) -> Seq<
    char,
> {
    (Identity { agent, channel, conversation, sender: None }).name()
}

/// The targets of rewrites.
pub open spec fn targets(rewrites: Seq<RewriteView>) -> Seq<Seq<char>> {
    rewrites.map_values(|r: RewriteView| r.to)
}

/// The plan for the first `n` conversations: each becomes its principal's key,
/// unless an earlier one claimed that key.
pub open spec fn sessions_planned(
    counts: Seq<CountView>,
    agent: Seq<char>,
    channel: Seq<char>,
    n: int,
) -> (Seq<RewriteView>, Seq<RewriteView>)
    decreases n,
{
    if n <= 0 {
        (Seq::empty(), Seq::empty())
    } else {
        let (rewrites, collisions) = sessions_planned(counts, agent, channel, n - 1);
        let count = counts[n - 1];
        let rewrite = RewriteView {
            from: count.namespace,
            to: session_target(agent, channel, count.namespace),
            records: count.records,
        };
        if targets(rewrites).contains(rewrite.to) {
            (rewrites, collisions.push(rewrite))
        } else {
            (rewrites.push(rewrite), collisions)
        }
    }
}

/// No two conversations collide: the encoding of principals is injective, so
/// a plan made from distinct conversations rewrites every one of them.
pub proof fn no_session_collides(
    counts: Seq<CountView>,
    agent: Seq<char>,
    channel: Seq<char>,
    n: int,
)
    requires
        0 <= n <= counts.len(),
        increasing(names_of(counts)),
    ensures
        sessions_planned(counts, agent, channel, n).1.len() == 0,
        sessions_planned(counts, agent, channel, n).0.len() == n,
        forall|k: int|
            0 <= k < n ==> (#[trigger] sessions_planned(counts, agent, channel, n).0[k]) == (
            RewriteView {
                from: counts[k].namespace,
                to: session_target(agent, channel, counts[k].namespace),
                records: counts[k].records,
            }),
    decreases n,
{
    if n > 0 {
        no_session_collides(counts, agent, channel, n - 1);
        let rewrites = sessions_planned(counts, agent, channel, n - 1).0;
        let name = counts[n - 1].namespace;
        let target = session_target(agent, channel, name);
        if targets(rewrites).contains(target) {
            let k = choose|k: int| 0 <= k < targets(rewrites).len() && targets(rewrites)[k] == target;
            assert(rewrites[k].to == target);
            storage_name_is_injective(
                Identity { agent, channel, conversation: counts[k].namespace, sender: None },
                Identity { agent, channel, conversation: name, sender: None },
            );
            assert(names_of(counts)[k] == counts[k].namespace);
            assert(names_of(counts)[n - 1] == name);
            assert(precedes(names_of(counts)[k], names_of(counts)[n - 1]));
            lemma_precedes_total(counts[k].namespace, name);
        }
    }
}

fn target_key(settings: &MigrationSettings, conversation: &str) -> (key: String)
    ensures
        key@ == session_target(settings.agent@, settings.channel@, conversation@),
{
    Principal::conversation(
        settings.agent.as_str(),
        settings.channel.as_str(),
        conversation,
    ).conversation_name()
}

fn keys_of(rows: &Vec<SessionRow>) -> (keys: Vec<String>)
    ensures
        texts(keys@) == row_keys(rows_view(rows@)),
{
    let mut keys: Vec<String> = Vec::new();
    let mut i: usize = 0;
    while i < rows.len()
        invariant
            i <= rows@.len(),
            keys@.len() == i,
            forall|k: int| 0 <= k < i ==> (#[trigger] keys@[k])@ == rows@[k].key@,
        decreases rows@.len() - i,
    {
        keys.push(rows[i].key.clone());
        i = i + 1;
    }
    assert(texts(keys@) =~= row_keys(rows_view(rows@)));
    keys
}

fn is_claimed(rewrites: &Vec<SessionRewrite>, target: &str) -> (yes: bool)
    ensures
        yes == targets(session_rewrites(rewrites@)).contains(target@),
{
    let ghost all = targets(session_rewrites(rewrites@));
    let mut i: usize = 0;
    while i < rewrites.len()
        invariant
            i <= rewrites@.len(),
            all == targets(session_rewrites(rewrites@)),
            forall|k: int| 0 <= k < i ==> #[trigger] all[k] != target@,
        decreases rewrites@.len() - i,
    {
        assert(all[i as int] == rewrites@[i as int].to@);
        if same(rewrites[i].to.as_str(), target) {
            return true;
        }
        i = i + 1;
    }
    false
}

/// The plan there is nothing to do for.
pub open spec fn nothing_planned() -> SessionPlanView {
    SessionPlanView { rewrites: Seq::empty(), collisions: Seq::empty(), epochs: 0 }
}

/// Whether a plan is the one for tables: nothing, unless they are in the legacy
/// shape, else every conversation of the log under its principal's key.
pub open spec fn is_session_plan(
    plan: SessionPlanView,
    tables: SessionTables,
    agent: Seq<char>,
    channel: Seq<char>,
) -> bool {
    if tables.schema != SessionSchema::Legacy {
        plan == nothing_planned()
    } else {
        exists|counts: Seq<CountView>| #[trigger]
            is_tally(counts, row_keys(rows_view(tables.items@))) && plan == (SessionPlanView {
                rewrites: sessions_planned(counts, agent, channel, counts.len() as int).0,
                collisions: sessions_planned(counts, agent, channel, counts.len() as int).1,
                epochs: tables.epochs@.len(),
            })
    }
}

/// Works out what the session migration would do. Reads only. Nothing, unless
/// the tables are in the legacy shape.
pub fn plan(tables: &SessionTables, settings: &MigrationSettings) -> (plan: SessionPlan)
    ensures
        is_session_plan(plan@, *tables, settings.agent@, settings.channel@),
{
    let mut rewrites: Vec<SessionRewrite> = Vec::new();
    let mut collisions: Vec<SessionRewrite> = Vec::new();
    assert(session_rewrites(rewrites@) =~= Seq::empty());
    assert(session_rewrites(collisions@) =~= Seq::empty());
    if tables.schema != SessionSchema::Legacy {
        let plan = SessionPlan { rewrites, epochs: 0, collisions };
        assert(plan@ =~= nothing_planned());
        return plan;
    }
    let keys = keys_of(&tables.items);
    let counts = namespace_counts(&keys);
    let ghost all = counts_view(counts@);
    let mut i: usize = 0;
    while i < counts.len()
        invariant
            i <= counts@.len(),
            all == counts_view(counts@),
            session_rewrites(rewrites@) == sessions_planned(
                all,
                settings.agent@,
                settings.channel@,
                i as int,
            ).0,
            session_rewrites(collisions@) == sessions_planned(
                all,
                settings.agent@,
                settings.channel@,
                i as int,
            ).1,
        decreases counts@.len() - i,
    {
        assert(all[i as int] == counts@[i as int]@);
        let conversation = counts[i].namespace.clone();
        let to = target_key(settings, conversation.as_str());
        let claimed = is_claimed(&rewrites, to.as_str());
        let rewrite = SessionRewrite { from: conversation, to, items: counts[i].records };
        let ghost view = rewrite@;
        let ghost before = session_rewrites(rewrites@);
        let ghost held = session_rewrites(collisions@);
        if claimed {
            collisions.push(rewrite);
            assert(session_rewrites(collisions@) =~= held.push(view));
        } else {
            rewrites.push(rewrite);
            assert(session_rewrites(rewrites@) =~= before.push(view));
        }
        i = i + 1;
    }
    assert(all.len() == counts@.len());
    SessionPlan { rewrites, epochs: tables.epochs.len(), collisions }
}

/// The key a conversation is moved to, when a rewrite names it.
pub open spec fn moved_to(rewrites: Seq<RewriteView>, key: Seq<char>) -> Option<Seq<char>>
    decreases rewrites.len(),
{
    if rewrites.len() == 0 {
        None
    } else if rewrites[0].from == key {
        Some(rewrites[0].to)
    } else {
        moved_to(rewrites.drop_first(), key)
    }
}

/// The items of the rewritten conversations, rekeyed and otherwise unchanged.
pub open spec fn rekeyed_rows(rows: Seq<RowView>, rewrites: Seq<RewriteView>) -> Seq<RowView>
    decreases rows.len(),
{
    if rows.len() == 0 {
        Seq::empty()
    } else {
        let rest = rekeyed_rows(rows.drop_last(), rewrites);
        match moved_to(rewrites, rows.last().key) {
            Some(to) => rest.push(RowView { key: to, ..rows.last() }),
            None => rest,
        }
    }
}

/// The markers of the rewritten conversations, now for the whole conversation.
pub open spec fn rekeyed_markers(rows: Seq<MarkerView>, rewrites: Seq<RewriteView>) -> Seq<MarkerView>
    decreases rows.len(),
{
    if rows.len() == 0 {
        Seq::empty()
    } else {
        let rest = rekeyed_markers(rows.drop_last(), rewrites);
        match moved_to(rewrites, rows.last().key) {
            Some(to) => rest.push(MarkerView { key: to, principal: to, ..rows.last() }),
            None => rest,
        }
    }
}

/// When a plan rewrites every conversation of the log, migrating loses no
/// item: every row is there afterwards, in its place, with its ordinal, its
/// content and its timestamp.
pub proof fn session_migration_keeps_every_item(rows: Seq<RowView>, rewrites: Seq<RewriteView>)
    requires
        forall|i: int| 0 <= i < rows.len() ==> moved_to(rewrites, (#[trigger] rows[i]).key) is Some,
    ensures
        rekeyed_rows(rows, rewrites).len() == rows.len(),
        forall|i: int|
            0 <= i < rows.len() ==> (#[trigger] rekeyed_rows(rows, rewrites)[i]) == (RowView {
                key: moved_to(rewrites, rows[i].key)->0,
                ..rows[i]
            }),
    decreases rows.len(),
{
    if rows.len() > 0 {
        let shorter = rows.drop_last();
        assert forall|i: int| 0 <= i < shorter.len() implies moved_to(
            rewrites,
            (#[trigger] shorter[i]).key,
        ) is Some by {
            assert(shorter[i] == rows[i]);
        }
        session_migration_keeps_every_item(shorter, rewrites);
        assert(moved_to(rewrites, rows[rows.len() - 1].key) is Some);
    }
}

fn find_target(rewrites: &Vec<SessionRewrite>, key: &str) -> (out: Option<String>)
    ensures
        out matches Some(to) ==> moved_to(session_rewrites(rewrites@), key@) == Some(to@),
        out is None ==> moved_to(session_rewrites(rewrites@), key@) is None,
{
    let ghost all = session_rewrites(rewrites@);
    let mut i: usize = 0;
    assert(all.skip(0) =~= all);
    while i < rewrites.len()
        invariant
            i <= rewrites@.len(),
            all == session_rewrites(rewrites@),
            moved_to(all, key@) == moved_to(all.skip(i as int), key@),
        decreases rewrites@.len() - i,
    {
        assert(all.skip(i as int)[0] == rewrites@[i as int]@);
        assert(all.skip(i as int).drop_first() =~= all.skip(i + 1));
        if same(rewrites[i].from.as_str(), key) {
            return Some(rewrites[i].to.clone());
        }
        i = i + 1;
    }
    None
}

/// What is said when conversations would collide.
pub open spec fn collision_message(count: nat) -> Seq<char> {
    "refusing to migrate sessions: "@ + decimal(count)
        + " conversation(s) would collide; see the report"@
}

/// Whether a plan was applied to tables as it is owed: an empty one does
/// nothing; one with collisions, and one for tables that are no longer in the
/// legacy shape, are refused and change nothing; any other moves every row of
/// the conversations it rewrites, and claims the new version.
pub open spec fn is_applied(
    before: SessionTables,
    after: SessionTables,
    plan: SessionPlanView,
    out: Result<usize, MemoryError>,
) -> bool {
    if plan.collisions.len() > 0 {
        after == before && (out matches Err(MemoryError::Backend(text)) && text@
            == collision_message(plan.collisions.len()))
    } else if plan.rewrites.len() == 0 {
        after == before && out == Ok::<_, MemoryError>(0usize)
    } else if before.schema != SessionSchema::Legacy {
        after == before && (out matches Err(MemoryError::Backend(text)) && text@
            == "session tables changed shape between the plan and the apply"@)
    } else {
        &&& out matches Ok(moved) && moved == rekeyed_rows(
            rows_view(before.items@),
            plan.rewrites,
        ).len()
        &&& rows_view(after.items@) == rekeyed_rows(rows_view(before.items@), plan.rewrites)
        &&& markers_view(after.epochs@) == rekeyed_markers(
            markers_view(before.epochs@),
            plan.rewrites,
        )
        &&& after.schema == SessionSchema::Current
        &&& after.schema_version == SESSION_PRINCIPAL_SCHEMA_VERSION
    }
}

/// Applying twice is a no-op: a migration that is planned and applied succeeds,
/// and one planned and applied after it moves nothing and changes nothing.
pub proof fn applying_twice_changes_nothing(
    start: SessionTables,
    once: SessionTables,
    twice: SessionTables,
    first: SessionPlanView,
    second: SessionPlanView,
    agent: Seq<char>,
    channel: Seq<char>,
    out: Result<usize, MemoryError>,
    again: Result<usize, MemoryError>,
)
    requires
        is_session_plan(first, start, agent, channel),
        is_applied(start, once, first, out),
        is_session_plan(second, once, agent, channel),
        is_applied(once, twice, second, again),
    ensures
        out is Ok,
        second.rewrites.len() == 0,
        second.collisions.len() == 0,
        again == Ok::<_, MemoryError>(0usize),
        twice == once,
{
    if start.schema == SessionSchema::Legacy {
        let rows = row_keys(rows_view(start.items@));
        let counts = choose|counts: Seq<CountView>| #[trigger]
            is_tally(counts, rows) && first == (SessionPlanView {
                rewrites: sessions_planned(counts, agent, channel, counts.len() as int).0,
                collisions: sessions_planned(counts, agent, channel, counts.len() as int).1,
                epochs: start.epochs@.len(),
            });
        no_session_collides(counts, agent, channel, counts.len() as int);
        if counts.len() == 0 {
            assert(once == start);
            let more = choose|more: Seq<CountView>| #[trigger]
                is_tally(more, rows) && second == (SessionPlanView {
                    rewrites: sessions_planned(more, agent, channel, more.len() as int).0,
                    collisions: sessions_planned(more, agent, channel, more.len() as int).1,
                    epochs: once.epochs@.len(),
                });
            no_session_collides(more, agent, channel, more.len() as int);
            if more.len() > 0 {
                assert(names_of(more).to_set().contains(names_of(more)[0]));
                assert(names_of(counts).to_set().contains(names_of(more)[0]));
            }
        }
    }
}

/// Rebuilds both session tables under principal keys, all or nothing. An empty
/// plan does nothing; a plan with collisions, and tables that are no longer in
/// the legacy shape, are refused.
pub fn apply(tables: &mut SessionTables, plan: &SessionPlan) -> (out: Result<usize, MemoryError>)
    ensures
        is_applied(*old(tables), *final(tables), plan@, out),
{
    if plan.rewrites.len() == 0 && plan.collisions.len() == 0 {
        return Ok(0);
    }
    if plan.collisions.len() > 0 {
        let mut text = "refusing to migrate sessions: ".to_owned();
        push_decimal(&mut text, plan.collisions.len() as u64);
        text.push_str(" conversation(s) would collide; see the report");
        return Err(MemoryError::Backend(text));
    }
    if tables.schema != SessionSchema::Legacy {
        return Err(
            MemoryError::Backend(
                "session tables changed shape between the plan and the apply".to_owned(),
            ),
        );
    }
    let ghost rewrites = plan@.rewrites;
    let ghost old_rows = rows_view(tables.items@);
    let ghost old_markers = markers_view(tables.epochs@);
    let mut items: Vec<SessionRow> = Vec::new();
    let mut i: usize = 0;
    assert(rows_view(items@) =~= rekeyed_rows(old_rows.take(0), rewrites));
    while i < tables.items.len()
        invariant
            i <= tables.items@.len(),
            old_rows == rows_view(tables.items@),
            rewrites == session_rewrites(plan.rewrites@),
            rows_view(items@) == rekeyed_rows(old_rows.take(i as int), rewrites),
        decreases tables.items@.len() - i,
    {
        proof {
            assert(old_rows.take(i + 1).drop_last() =~= old_rows.take(i as int));
            assert(old_rows.take(i + 1).last() == tables.items@[i as int]@);
        }
        if let Some(to) = find_target(&plan.rewrites, tables.items[i].key.as_str()) {
            let ghost before = rows_view(items@);
            let row = SessionRow {
                key: to,
                ordinal: tables.items[i].ordinal,
                item: tables.items[i].item.clone(),
                created_at: tables.items[i].created_at.clone(),
            };
            let ghost view = row@;
            items.push(row);
            assert(rows_view(items@) =~= before.push(view));
        }
        i = i + 1;
    }
    assert(old_rows.take(old_rows.len() as int) =~= old_rows);
    let mut epochs: Vec<EpochRow> = Vec::new();
    let mut j: usize = 0;
    assert(markers_view(epochs@) =~= rekeyed_markers(old_markers.take(0), rewrites));
    while j < tables.epochs.len()
        invariant
            j <= tables.epochs@.len(),
            old_markers == markers_view(tables.epochs@),
            rewrites == session_rewrites(plan.rewrites@),
            markers_view(epochs@) == rekeyed_markers(old_markers.take(j as int), rewrites),
        decreases tables.epochs@.len() - j,
    {
        proof {
            assert(old_markers.take(j + 1).drop_last() =~= old_markers.take(j as int));
            assert(old_markers.take(j + 1).last() == tables.epochs@[j as int]@);
        }
        if let Some(to) = find_target(&plan.rewrites, tables.epochs[j].key.as_str()) {
            let ghost before = markers_view(epochs@);
            let row = EpochRow {
                key: to.clone(),
                principal: to,
                ordinal: tables.epochs[j].ordinal,
                created_at: tables.epochs[j].created_at.clone(),
            };
            let ghost view = row@;
            epochs.push(row);
            assert(markers_view(epochs@) =~= before.push(view));
        }
        j = j + 1;
    }
    assert(old_markers.take(old_markers.len() as int) =~= old_markers);
    let moved: usize = items.len();
    assert(rows_view(items@).len() == items@.len());
    tables.items = items;
    tables.epochs = epochs;
    tables.schema = SessionSchema::Current;
    tables.schema_version = SESSION_PRINCIPAL_SCHEMA_VERSION;
    Ok(moved)
}

/// The report's lines on conversations.
pub open spec fn session_lines(rewrites: Seq<RewriteView>) -> Seq<char>
    decreases rewrites.len(),
{
    if rewrites.len() == 0 {
        Seq::empty()
    } else {
        let last = rewrites.last();
        session_lines(rewrites.drop_last()) + "  "@ + last.from + " -> "@ + last.to + " ("@
            + decimal(last.records) + " item(s))\n"@
    }
}

/// What the report says: collisions first, then what will be rekeyed, then the
/// clear markers.
pub open spec fn session_report(plan: SessionPlanView) -> Seq<char> {
    (if plan.collisions.len() > 0 {
        decimal(plan.collisions.len())
            + " conversation(s) would collide and will NOT be migrated:\n"@ + session_lines(
            plan.collisions,
        ) + "\n"@
    } else {
        Seq::empty()
    }) + decimal(plan.rewrites.len()) + " conversation(s) holding "@ + decimal(
        rewritten_records(plan.rewrites),
    ) + " session item(s) will be rekeyed:\n"@ + session_lines(plan.rewrites) + (if plan.epochs
        > 0 {
        "\n"@ + decimal(plan.epochs)
            + " `/clear` marker(s) carry forward as conversation-wide epochs, so no cleared history reappears.\n"@
    } else {
        Seq::empty()
    })
}

fn push_lines(out: &mut String, rewrites: &Vec<SessionRewrite>)
    ensures
        final(out)@ == old(out)@ + session_lines(session_rewrites(rewrites@)),
{
    let ghost all = session_rewrites(rewrites@);
    let ghost lead = out@;
    let mut i: usize = 0;
    assert(lead + session_lines(all.take(0)) =~= lead);
    while i < rewrites.len()
        invariant
            i <= rewrites@.len(),
            all == session_rewrites(rewrites@),
            out@ == lead + session_lines(all.take(i as int)),
        decreases rewrites@.len() - i,
    {
        proof {
            assert(all.take(i + 1).drop_last() =~= all.take(i as int));
            assert(all.take(i + 1).last() == rewrites@[i as int]@);
        }
        out.push_str("  ");
        out.push_str(rewrites[i].from.as_str());
        out.push_str(" -> ");
        out.push_str(rewrites[i].to.as_str());
        out.push_str(" (");
        push_decimal(out, rewrites[i].items as u64);
        out.push_str(" item(s))\n");
        assert(out@ =~= lead + session_lines(all.take(i + 1)));
        i = i + 1;
    }
    assert(all.take(all.len() as int) =~= all);
}

impl SessionPlan {
    /// Whether there is nothing to rekey and nothing to decide.
    pub fn is_empty(&self) -> (empty: bool)
        ensures
            empty == (self@.rewrites.len() == 0 && self@.collisions.len() == 0),
    {
        self.rewrites.len() == 0 && self.collisions.len() == 0
    }

    /// Items across every rewrite.
    pub fn items_to_move(&self) -> (total: usize)
        requires
            rewritten_records(self@.rewrites) <= usize::MAX,
        ensures
            total == rewritten_records(self@.rewrites),
    {
        let ghost all = self@.rewrites;
        let mut total: usize = 0;
        let mut i: usize = 0;
        while i < self.rewrites.len()
            invariant
                i <= self.rewrites@.len(),
                all == session_rewrites(self.rewrites@),
                rewritten_records(all) <= usize::MAX,
                total == rewritten_records(all.take(i as int)),
            decreases self.rewrites@.len() - i,
        {
            proof {
                super::migrate::lemma_rewritten_records(all, i + 1);
                assert(all.take(i + 1).drop_last() =~= all.take(i as int));
                assert(all[i as int] == self.rewrites@[i as int]@);
            }
            total = total + self.rewrites[i].items;
            i = i + 1;
        }
        assert(all.take(all.len() as int) =~= all);
        total
    }

    /// The report a dry run prints.
    pub fn report(&self) -> (out: String)
        requires
            rewritten_records(self@.rewrites) <= usize::MAX,
        ensures
            out@ == session_report(self@),
    {
        let mut out = String::new();
        if self.collisions.len() > 0 {
            push_decimal(&mut out, self.collisions.len() as u64);
            out.push_str(" conversation(s) would collide and will NOT be migrated:\n");
            push_lines(&mut out, &self.collisions);
            out.push_str("\n");
        }
        push_decimal(&mut out, self.rewrites.len() as u64);
        out.push_str(" conversation(s) holding ");
        push_decimal(&mut out, self.items_to_move() as u64);
        out.push_str(" session item(s) will be rekeyed:\n");
        push_lines(&mut out, &self.rewrites);
        if self.epochs > 0 {
            out.push_str("\n");
            push_decimal(&mut out, self.epochs as u64);
            out.push_str(
                " `/clear` marker(s) carry forward as conversation-wide epochs, so no cleared history reappears.\n",
            );
        }
        assert(out@ =~= session_report(self@));
        out
    }
}

/// Every line of a report on conversations stands between those before it and
/// those after it.
pub proof fn lemma_session_line(rewrites: Seq<RewriteView>, i: int) -> (rest: Seq<char>)
    requires
        0 <= i < rewrites.len(),
    ensures
        session_lines(rewrites) == session_lines(rewrites.take(i)) + ("  "@ + rewrites[i].from + " -> "@ + rewrites[i].to + " ("@ + decimal(rewrites[i].records) + " item(s))\n"@) + rest,
    decreases rewrites.len(),
{
    let line = "  "@ + rewrites[i].from + " -> "@ + rewrites[i].to + " ("@ + decimal(rewrites[i].records) + " item(s))\n"@;
    if i == rewrites.len() - 1 {
        assert(rewrites.take(i) =~= rewrites.drop_last());
        assert(session_lines(rewrites) =~= session_lines(rewrites.take(i)) + line + Seq::empty());
        Seq::empty()
    } else {
        let shorter = rewrites.drop_last();
        let rest = lemma_session_line(shorter, i);
        assert(shorter.take(i) =~= rewrites.take(i));
        let last = rewrites.last();
        let more = rest + "  "@ + last.from + " -> "@ + last.to + " ("@ + decimal(last.records) + " item(s))\n"@;
        assert(session_lines(rewrites) =~= session_lines(rewrites.take(i)) + line + more);
        more
    }
}

/// A report names every conversation it would rekey, with its new key and how
/// much it holds.
pub proof fn a_session_report_names_every_conversation(plan: SessionPlanView, i: int)
    requires
        0 <= i < plan.rewrites.len(),
    ensures
        holds(
            session_report(plan),
            "  "@ + plan.rewrites[i].from + " -> "@ + plan.rewrites[i].to + " ("@ + decimal(
                plan.rewrites[i].records,
            ) + " item(s))\n"@,
        ),
{
    let head = if plan.collisions.len() > 0 {
        decimal(plan.collisions.len())
            + " conversation(s) would collide and will NOT be migrated:\n"@ + session_lines(
            plan.collisions,
        ) + "\n"@
    } else {
        Seq::empty()
    };
    let lead = decimal(plan.rewrites.len()) + " conversation(s) holding "@ + decimal(
        rewritten_records(plan.rewrites),
    ) + " session item(s) will be rekeyed:\n"@;
    let tail = if plan.epochs > 0 {
        "\n"@ + decimal(plan.epochs)
            + " `/clear` marker(s) carry forward as conversation-wide epochs, so no cleared history reappears.\n"@
    } else {
        Seq::empty()
    };
    let whole = session_report(plan);
    let rest = lemma_session_line(plan.rewrites, i);
    let line = "  "@ + plan.rewrites[i].from + " -> "@ + plan.rewrites[i].to + " ("@ + decimal(
        plan.rewrites[i].records,
    ) + " item(s))\n"@;
    assert(whole =~= head + lead + session_lines(plan.rewrites) + tail);
    assert(whole =~= (head + lead + session_lines(plan.rewrites.take(i))) + line + (rest + tail));
    holding_is_standing_between(whole, line);
}

/// A conversation becomes the key of that conversation, with the agent and the
/// channel that were given, and nobody's in particular.
pub proof fn a_conversation_keeps_its_own_name(
    agent: Seq<char>,
    channel: Seq<char>,
    conversation: Seq<char>,
    id: Identity,
)
    ensures
        session_target(agent, channel, conversation) == id.name() <==> id.agent == agent
            && id.channel == channel && id.conversation == conversation && id.sender is None,
{
    storage_name_is_injective(Identity { agent, channel, conversation, sender: None }, id);
}

/// A conversation is moved by the first rewrite that names it.
pub proof fn the_first_rewrite_moves_a_conversation(
    rewrites: Seq<RewriteView>,
    key: Seq<char>,
    i: int,
)
    ensures
        0 <= i < rewrites.len() && rewrites[i].from == key && (forall|j: int|
            0 <= j < i ==> (#[trigger] rewrites[j]).from != key) ==> moved_to(rewrites, key) == Some(
            rewrites[i].to,
        ),
        (forall|j: int| 0 <= j < rewrites.len() ==> (#[trigger] rewrites[j]).from != key)
            ==> moved_to(rewrites, key) is None,
    decreases rewrites.len(),
{
    if rewrites.len() > 0 && rewrites[0].from != key {
        let rest = rewrites.drop_first();
        the_first_rewrite_moves_a_conversation(rest, key, i - 1);
        if 0 <= i < rewrites.len() && rewrites[i].from == key && (forall|j: int|
            0 <= j < i ==> (#[trigger] rewrites[j]).from != key) {
            assert(rest[i - 1] == rewrites[i]);
            assert forall|j: int| 0 <= j < i - 1 implies (#[trigger] rest[j]).from != key by {
                assert(rest[j] == rewrites[j + 1]);
            }
        }
        if forall|j: int| 0 <= j < rewrites.len() ==> (#[trigger] rewrites[j]).from != key {
            assert forall|j: int| 0 <= j < rest.len() implies (#[trigger] rest[j]).from != key by {
                assert(rest[j] == rewrites[j + 1]);
            }
        }
    }
}

/// When a plan rewrites every conversation that was cleared, no cleared history
/// comes back: every marker is there afterwards, at its ordinal, and now for the
/// whole conversation.
pub proof fn session_migration_keeps_every_marker(
    rows: Seq<MarkerView>,
    rewrites: Seq<RewriteView>,
)
    requires
        forall|i: int| 0 <= i < rows.len() ==> moved_to(rewrites, (#[trigger] rows[i]).key) is Some,
    ensures
        rekeyed_markers(rows, rewrites).len() == rows.len(),
        forall|i: int|
            0 <= i < rows.len() ==> ({
                let marker = #[trigger] rekeyed_markers(rows, rewrites)[i];
                &&& Some(marker.key) == moved_to(rewrites, rows[i].key)
                &&& marker.principal == marker.key
                &&& marker.ordinal == rows[i].ordinal
                &&& marker.created_at == rows[i].created_at
            }),
    decreases rows.len(),
{
    if rows.len() > 0 {
        let shorter = rows.drop_last();
        assert forall|i: int| 0 <= i < shorter.len() implies moved_to(
            rewrites,
            (#[trigger] shorter[i]).key,
        ) is Some by {
            assert(shorter[i] == rows[i]);
        }
        session_migration_keeps_every_marker(shorter, rewrites);
        assert(moved_to(rewrites, rows[rows.len() - 1].key) is Some);
    }
}

/// A log that was migrated says so, under the version that goes with it, and
/// says how many items it moved.
pub proof fn a_migrated_log_says_so(
    before: SessionTables,
    after: SessionTables,
    plan: SessionPlanView,
    out: Result<usize, MemoryError>,
)
    requires
        is_applied(before, after, plan, out),
        plan.rewrites.len() > 0,
    ensures
        out is Ok <==> plan.collisions.len() == 0 && before.schema == SessionSchema::Legacy,
        out is Err ==> after == before,
        out matches Ok(moved) ==> after.schema == SessionSchema::Current && after.schema_version == 3
            && moved == after.items@.len(),
{
    assert(rows_view(after.items@).len() == after.items@.len());
}

} // verus!
