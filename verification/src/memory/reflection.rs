//! Reflection: repeated episodes become facts, repeated successes become
//! procedures, and a new fact supersedes the older ones like it.

use super::accounting::MemoryOperation;
use super::authorize::refusal;
use super::hydration::records_view;
use super::query::{is_active, record_is_active, Record, RecordView};
use super::retention::{Archived, RetentionReport, RetentionRequest};
use super::scope::{
    CallerView, MemoryCaller, MemoryOwner, MemoryScope, MemoryStore, MemoryVisibility, OwnerView,
    ScopeView,
};
use crate::identity::{Identity, Principal};
use crate::json::{
    entries_view, lookup, member, ordered, overlaid, put_all, text_of, Json, Value,
};
use crate::lists::{increasing, insert_sorted};
use crate::text::{opt_view, same, texts, trim, trimmed};
use vstd::prelude::*;

verus! {

/// How often an episode repeats before it is promoted, unless told otherwise.
pub const DEFAULT_MIN_EPISODE_REPETITIONS: usize = 2;

/// What applies to every conversation of a whole-memory pass.
pub struct ReflectionParams {
    pub min_episode_repetitions: usize,
    pub rebuild_lexical_index: bool,
    /// The budgets applied once, after every conversation was promoted.
    pub retention: RetentionRequest,
}

impl Default for ReflectionParams {
    fn default() -> (out: ReflectionParams)
        ensures
            out.min_episode_repetitions == 2,
            out.rebuild_lexical_index,
            out.retention.store_budgets@.len() == 0,
            out.retention.max_records is None,
            out.retention.max_bytes is None,
            out.retention.max_age_days is None,
    {
        ReflectionParams {
            min_episode_repetitions: DEFAULT_MIN_EPISODE_REPETITIONS,
            rebuild_lexical_index: true,
            retention: RetentionRequest::default(),
        }
    }
}

/// One conversation's reflection.
pub struct ReflectionRequest {
    pub episode_scope: MemoryScope,
    pub semantic_scope: MemoryScope,
    pub procedural_scope: MemoryScope,
    pub min_episode_repetitions: usize,
    pub retention: RetentionRequest,
    pub rebuild_lexical_index: bool,
}

/// A caller's own private scope of a store.
pub open spec fn own_scope(caller: CallerView, store: MemoryStore) -> ScopeView {
    ScopeView {
        store,
        owner: OwnerView::Conversation(caller.own_conversation()),
        visibility: MemoryVisibility::Private,
        domain: None,
    }
}

fn scope_of(caller: &MemoryCaller, store: MemoryStore) -> (out: MemoryScope)
    ensures
        out@ == own_scope(caller@, store),
{
    MemoryScope::new(
        store,
        MemoryOwner::Conversation(caller.conversation_principal()),
        MemoryVisibility::Private,
        None,
    )
}

impl ReflectionRequest {
    /// Reflection over a caller's own conversation.
    pub fn for_conversation(caller: &MemoryCaller) -> (out: ReflectionRequest)
        ensures
            out.episode_scope@ == own_scope(caller@, MemoryStore::Episodic),
            out.semantic_scope@ == own_scope(caller@, MemoryStore::Semantic),
            out.procedural_scope@ == own_scope(caller@, MemoryStore::Procedural),
            out.min_episode_repetitions == 2,
            out.rebuild_lexical_index,
            out.retention.store_budgets@.len() == 0,
            out.retention.max_records is None,
            out.retention.max_bytes is None,
            out.retention.max_age_days is None,
    {
        ReflectionRequest {
            episode_scope: scope_of(caller, MemoryStore::Episodic),
            semantic_scope: scope_of(caller, MemoryStore::Semantic),
            procedural_scope: scope_of(caller, MemoryStore::Procedural),
            min_episode_repetitions: DEFAULT_MIN_EPISODE_REPETITIONS,
            retention: RetentionRequest::default(),
            rebuild_lexical_index: true,
        }
    }

    /// One conversation's share of a whole-memory pass: promotion alone. The
    /// budgets and the index are the pass's own.
    pub fn for_maintenance(caller: &MemoryCaller, params: &ReflectionParams) -> (out:
        ReflectionRequest)
        ensures
            out.episode_scope@ == own_scope(caller@, MemoryStore::Episodic),
            out.semantic_scope@ == own_scope(caller@, MemoryStore::Semantic),
            out.procedural_scope@ == own_scope(caller@, MemoryStore::Procedural),
            out.min_episode_repetitions == params.min_episode_repetitions,
            !out.rebuild_lexical_index,
            out.retention.store_budgets@.len() == 0,
            out.retention.max_records is None,
            out.retention.max_bytes is None,
            out.retention.max_age_days is None,
    {
        let mut request = ReflectionRequest::for_conversation(caller);
        request.min_episode_repetitions = params.min_episode_repetitions;
        request.rebuild_lexical_index = false;
        request
    }
}

/// A caller may read and write every scope its own reflection works on.
pub proof fn own_scopes_are_open(caller: CallerView, store: MemoryStore, operation: MemoryOperation)
    requires
        store == MemoryStore::Episodic || store == MemoryStore::Semantic || store
            == MemoryStore::Procedural,
    ensures
        refusal(caller, own_scope(caller, store), operation) is None,
{
}

/// One promotion that was made.
pub struct PromotionReport {
    pub record_id: String,
    pub source_record_ids: Vec<String>,
    pub summary: String,
}

/// What rebuilding the lexical index came to.
#[derive(Clone, Copy, Debug, PartialEq, Eq, Structural)]
pub struct LexicalIndexReport {
    pub rebuilt: bool,
    pub indexed_records: usize,
}

impl Default for LexicalIndexReport {
    fn default() -> (out: LexicalIndexReport)
        ensures
            out == (LexicalIndexReport { rebuilt: false, indexed_records: 0 }),
    {
        LexicalIndexReport { rebuilt: false, indexed_records: 0 }
    }
}

/// What a reflection did.
pub struct ReflectionReport {
    pub episode_candidates: usize,
    pub promoted_records: Vec<PromotionReport>,
    pub procedural_candidates: Vec<PromotionReport>,
    pub superseded_records: Vec<String>,
    pub retention: RetentionReport,
    pub index: LexicalIndexReport,
}

impl Default for ReflectionReport {
    fn default() -> (out: ReflectionReport)
        ensures
            out.episode_candidates == 0,
            out.promoted_records@.len() == 0,
            out.procedural_candidates@.len() == 0,
            out.superseded_records@.len() == 0,
            out.retention.checked_records == 0,
            out.retention.archived@.len() == 0,
            out.retention.pruned_records@.len() == 0,
            out.index == (LexicalIndexReport { rebuilt: false, indexed_records: 0 }),
    {
        let archived: Vec<Archived> = Vec::new();
        ReflectionReport {
            episode_candidates: 0,
            promoted_records: Vec::new(),
            procedural_candidates: Vec::new(),
            superseded_records: Vec::new(),
            retention: RetentionReport { checked_records: 0, archived, pruned_records: Vec::new() },
            index: LexicalIndexReport::default(),
        }
    }
}

impl ReflectionReport {
    /// Adds what one conversation's reflection did. Retention and the index
    /// are the whole pass's and stay as they are.
    pub fn absorb(&mut self, other: ReflectionReport)
        requires
            old(self).episode_candidates + other.episode_candidates <= usize::MAX,
        ensures
            final(self).episode_candidates == old(self).episode_candidates
                + other.episode_candidates,
            final(self).promoted_records@ == old(self).promoted_records@ + other.promoted_records@,
            final(self).procedural_candidates@ == old(self).procedural_candidates@
                + other.procedural_candidates@,
            final(self).superseded_records@ == old(self).superseded_records@
                + other.superseded_records@,
            final(self).retention == old(self).retention,
            final(self).index == old(self).index,
    {
        let mut promoted = other.promoted_records;
        let mut procedural = other.procedural_candidates;
        let mut superseded = other.superseded_records;
        self.episode_candidates = self.episode_candidates + other.episode_candidates;
        self.promoted_records.append(&mut promoted);
        self.procedural_candidates.append(&mut procedural);
        self.superseded_records.append(&mut superseded);
    }
}

/// The text under a key of a record's body.
pub open spec fn body_text_at(record: RecordView, key: Seq<char>) -> Option<Seq<char>> {
    text_of(member(record.body, key))
}

fn body_text<'a>(record: &'a Record, key: &str) -> (text: Option<&'a str>)
    ensures
        text matches Some(found) ==> body_text_at(record@, key@) == Some(found@),
        text is None ==> body_text_at(record@, key@) is None,
{
    match record.body.get(key) {
        Some(value) => value.as_text(),
        None => None,
    }
}

/// An episode's summary without the space around it, unless nothing is left.
pub open spec fn summary_of(record: RecordView) -> Option<Seq<char>> {
    match body_text_at(record, "summary"@) {
        Some(text) => if trimmed(text).len() > 0 {
            Some(trimmed(text))
        } else {
            None
        },
        None => None,
    }
}

fn episode_summary(record: &Record) -> (out: Option<String>)
    ensures
        opt_view(out) == summary_of(record@),
{
    match body_text(record, "summary") {
        Some(text) => {
            let summary = trim(text);
            if summary.as_str().is_empty() {
                None
            } else {
                Some(summary)
            }
        },
        None => None,
    }
}

/// Whether a record is an active episode with a summary.
pub open spec fn is_promotable(record: RecordView) -> bool {
    is_active(record) && body_text_at(record, "kind"@) == Some("run_episode"@) && summary_of(record)
        is Some
}

/// Decides [`is_promotable`].
pub fn is_promotable_episode(record: &Record) -> (yes: bool)
    ensures
        yes == is_promotable(record@),
{
    if !record_is_active(record) {
        return false;
    }
    let episode = match body_text(record, "kind") {
        Some(kind) => same(kind, "run_episode"),
        None => false,
    };
    episode && episode_summary(record).is_some()
}

/// Whether an episode ended well.
pub open spec fn succeeded(record: RecordView) -> bool {
    body_text_at(record, "outcome"@) == Some("succeeded"@)
}

fn is_successful_trajectory(record: &Record) -> (yes: bool)
    ensures
        yes == succeeded(record@),
{
    match body_text(record, "outcome") {
        Some(outcome) => same(outcome, "succeeded"),
        None => false,
    }
}

/// Whether a member of a body is a list with something in it.
pub open spec fn lists_something(record: RecordView, key: Seq<char>) -> bool {
    member(record.body, key) matches Some(Value::List(items)) && items.len() > 0
}

/// Whether an episode used a tool or a sub-agent.
pub open spec fn used_help(record: RecordView) -> bool {
    lists_something(record, "tools_used"@) || lists_something(record, "subagents_used"@)
}

fn names_something(record: &Record, key: &str) -> (yes: bool)
    ensures
        yes == lists_something(record@, key@),
{
    match record.body.get(key) {
        Some(Json::List(items)) => items.len() > 0,
        _ => false,
    }
}

fn episode_used_tools(record: &Record) -> (yes: bool)
    ensures
        yes == used_help(record@),
{
    names_something(record, "tools_used") || names_something(record, "subagents_used")
}

/// How many of the first `n` records are promotable.
pub open spec fn candidates(records: Seq<RecordView>, n: int) -> nat
    decreases n,
{
    if n <= 0 {
        0
    } else {
        candidates(records, n - 1) + if is_promotable(records[n - 1]) {
            1nat
        } else {
            0nat
        }
    }
}

/// Whether a record belongs to the episodes with a summary.
pub open spec fn in_group(record: RecordView, summary: Seq<char>) -> bool {
    is_promotable(record) && summary_of(record) == Some(summary)
}

/// The episodes with a summary among the first `n` records, in order.
pub open spec fn group(records: Seq<RecordView>, summary: Seq<char>, n: int) -> Seq<RecordView>
    decreases n,
{
    if n <= 0 {
        Seq::empty()
    } else if in_group(records[n - 1], summary) {
        group(records, summary, n - 1).push(records[n - 1])
    } else {
        group(records, summary, n - 1)
    }
}

/// The ids of records that have one.
pub open spec fn known_ids(records: Seq<RecordView>) -> Seq<Seq<char>>
    decreases records.len(),
{
    if records.len() == 0 {
        Seq::empty()
    } else {
        match records.last().id {
            Some(id) => known_ids(records.drop_last()).push(id),
            None => known_ids(records.drop_last()),
        }
    }
}

/// Whether a list is the summaries of the promotable records, increasing.
pub open spec fn summaries_of(records: Seq<RecordView>, n: int, keys: Seq<Seq<char>>) -> bool {
    &&& increasing(keys)
    &&& forall|key: Seq<char>|
        keys.to_set().contains(key) <==> exists|i: int|
            0 <= i < n && in_group(#[trigger] records[i], key)
}

/// A promotion to make.
pub struct Promotion {
    pub summary: String,
    pub source_record_ids: Vec<String>,
    /// Whether the episodes are also a procedure: all ended well and at least
    /// one used a tool or a sub-agent.
    pub procedural: bool,
}

/// What a [`Promotion`] stands for.
#[verifier::ext_equal]
pub struct PromotionView {
    pub summary: Seq<char>,
    pub source_record_ids: Seq<Seq<char>>,
    pub procedural: bool,
}

impl View for Promotion {
    type V = PromotionView;

    open spec fn view(&self) -> PromotionView {
        PromotionView {
            summary: self.summary@,
            source_record_ids: texts(self.source_record_ids@),
            procedural: self.procedural,
        }
    }
}

/// The promotions of a list.
pub open spec fn promotions_view(promotions: Seq<Promotion>) -> Seq<PromotionView> {
    promotions.map_values(|p: Promotion| p@)
}

/// Whether episodes make a procedure.
pub open spec fn is_procedure(group: Seq<RecordView>) -> bool {
    &&& forall|i: int| 0 <= i < group.len() ==> succeeded(#[trigger] group[i])
    &&& exists|i: int| 0 <= i < group.len() && used_help(#[trigger] group[i])
}

/// What a summary is promoted to: nothing unless its episodes repeat often
/// enough, at least twice, and one of them has an id.
pub open spec fn promotion_of(
    records: Seq<RecordView>,
    summary: Seq<char>,
    min_repetitions: nat,
) -> Option<PromotionView> {
    let episodes = group(records, summary, records.len() as int);
    let least = if min_repetitions < 2 {
        2
    } else {
        min_repetitions
    };
    if episodes.len() >= least && known_ids(episodes).len() > 0 {
        Some(
            PromotionView {
                summary,
                source_record_ids: known_ids(episodes),
                procedural: is_procedure(episodes),
            },
        )
    } else {
        None
    }
}

/// The promotions of the first `n` summaries, in order.
pub open spec fn promotions(
    records: Seq<RecordView>,
    keys: Seq<Seq<char>>,
    min_repetitions: nat,
    n: int,
) -> Seq<PromotionView>
    decreases n,
{
    if n <= 0 {
        Seq::empty()
    } else {
        let before = promotions(records, keys, min_repetitions, n - 1);
        match promotion_of(records, keys[n - 1], min_repetitions) {
            Some(promotion) => before.push(promotion),
            None => before,
        }
    }
}

/// Whether a plan promotes exactly what there is to promote, in the order of
/// the summaries.
pub open spec fn plans(
    records: Seq<RecordView>,
    min_repetitions: nat,
    plan: Seq<PromotionView>,
    keys: Seq<Seq<char>>,
) -> bool {
    &&& summaries_of(records, records.len() as int, keys)
    &&& plan == promotions(records, keys, min_repetitions, keys.len() as int)
}

/// What reflecting on some episodes will do.
pub struct ReflectionPlan {
    pub episode_candidates: usize,
    pub promotions: Vec<Promotion>,
}

fn promotion_for(records: &Vec<Record>, summary: &str, min_repetitions: usize) -> (out: Option<
    Promotion,
>)
    ensures
        (match out {
            Some(promotion) => Some(promotion@),
            None => None,
        }) == promotion_of(records_view(records@), summary@, min_repetitions as nat),
{
    let ghost all = records_view(records@);
    let mut count: usize = 0;
    let mut ids: Vec<String> = Vec::new();
    let mut all_succeeded = true;
    let mut any_help = false;
    let mut i: usize = 0;
    let ghost mut episodes: Seq<RecordView> = Seq::empty();
    assert(texts(ids@) =~= Seq::empty());
    while i < records.len()
        invariant
            i <= records@.len(),
            all == records_view(records@),
            episodes == group(all, summary@, i as int),
            count == episodes.len(),
            count <= i,
            texts(ids@) == known_ids(episodes),
            all_succeeded == (forall|k: int|
                0 <= k < episodes.len() ==> succeeded(#[trigger] episodes[k])),
            any_help == (exists|k: int|
                0 <= k < episodes.len() && used_help(#[trigger] episodes[k])),
        decreases records@.len() - i,
    {
        let record: &Record = &records[i];
        assert(all[i as int] == record@);
        let member = is_promotable_episode(record) && (match episode_summary(record) {
            Some(own) => same(own.as_str(), summary),
            None => false,
        });
        if member {
            let ghost before = episodes;
            let ghost done = texts(ids@);
            let ended_well = is_successful_trajectory(record);
            let helped = episode_used_tools(record);
            if let Some(id) = &record.id {
                ids.push(id.clone());
                assert(texts(ids@) =~= done.push(id@));
            }
            count = count + 1;
            proof {
                episodes = before.push(record@);
                assert(episodes.drop_last() =~= before);
                assert forall|k: int| 0 <= k < before.len() implies episodes[k] == before[k] by {}
                if all_succeeded && ended_well {
                    assert forall|k: int| 0 <= k < episodes.len() implies succeeded(
                        #[trigger] episodes[k],
                    ) by {
                        if k < before.len() {
                            assert(succeeded(before[k]));
                        }
                    }
                } else if !all_succeeded {
                    let k = choose|k: int|
                        0 <= k < before.len() && !succeeded(#[trigger] before[k]);
                    assert(!succeeded(episodes[k]));
                } else {
                    assert(!succeeded(episodes[before.len() as int]));
                }
                if any_help {
                    let k = choose|k: int| 0 <= k < before.len() && used_help(#[trigger] before[k]);
                    assert(used_help(episodes[k]));
                } else if helped {
                    assert(used_help(episodes[before.len() as int]));
                } else {
                    assert forall|k: int| 0 <= k < episodes.len() implies !used_help(
                        #[trigger] episodes[k],
                    ) by {
                        if k < before.len() {
                            assert(!used_help(before[k]));
                        }
                    }
                }
            }
            all_succeeded = all_succeeded && ended_well;
            any_help = any_help || helped;
        }
        i = i + 1;
    }
    let least: usize = if min_repetitions < 2 {
        2
    } else {
        min_repetitions
    };
    assert(texts(ids@).len() == ids@.len());
    if count < least || ids.len() == 0 {
        return None;
    }
    Some(
        Promotion {
            summary: summary.to_owned(),
            source_record_ids: ids,
            procedural: all_succeeded && any_help,
        },
    )
}

fn summary_keys(records: &Vec<Record>) -> (out: (Vec<String>, usize))
    ensures
        summaries_of(records_view(records@), records@.len() as int, texts(out.0@)),
        out.1 == candidates(records_view(records@), records@.len() as int),
{
    let ghost all = records_view(records@);
    let mut keys: Vec<String> = Vec::new();
    let mut count: usize = 0;
    let mut i: usize = 0;
    assert(texts(keys@) =~= Seq::empty());
    while i < records.len()
        invariant
            i <= records@.len(),
            all == records_view(records@),
            summaries_of(all, i as int, texts(keys@)),
            count == candidates(all, i as int),
            count <= i,
        decreases records@.len() - i,
    {
        let record: &Record = &records[i];
        assert(all[i as int] == record@);
        let ghost before = texts(keys@);
        if is_promotable_episode(record) {
            if let Some(summary) = episode_summary(record) {
                insert_sorted(&mut keys, summary.as_str());
                count = count + 1;
                assert(in_group(all[i as int], summary@));
                assert forall|key: Seq<char>|
                    texts(keys@).to_set().contains(key) <==> exists|k: int|
                        0 <= k < i + 1 && in_group(#[trigger] all[k], key) by {
                    if texts(keys@).to_set().contains(key) {
                        if key != summary@ {
                            assert(before.to_set().contains(key));
                            let k = choose|k: int| 0 <= k < i && in_group(#[trigger] all[k], key);
                            assert(in_group(all[k], key));
                        }
                    }
                    if exists|k: int| 0 <= k < i + 1 && in_group(#[trigger] all[k], key) {
                        let k = choose|k: int| 0 <= k < i + 1 && in_group(#[trigger] all[k], key);
                        if k < i {
                            assert(before.to_set().contains(key));
                        }
                    }
                }
            }
        } else {
            assert forall|key: Seq<char>|
                texts(keys@).to_set().contains(key) <==> exists|k: int|
                    0 <= k < i + 1 && in_group(#[trigger] all[k], key) by {
                if texts(keys@).to_set().contains(key) {
                    let k = choose|k: int| 0 <= k < i && in_group(#[trigger] all[k], key);
                    assert(in_group(all[k], key));
                }
                if exists|k: int| 0 <= k < i + 1 && in_group(#[trigger] all[k], key) {
                    let k = choose|k: int| 0 <= k < i + 1 && in_group(#[trigger] all[k], key);
                    assert(k < i);
                }
            }
        }
        i = i + 1;
    }
    (keys, count)
}

/// What reflecting on the records of an episode scope promotes.
pub fn plan_reflection(records: &Vec<Record>, min_repetitions: usize) -> (plan: ReflectionPlan)
    ensures
        plan.episode_candidates == candidates(records_view(records@), records@.len() as int),
        exists|keys: Seq<Seq<char>>|
            plans(
                records_view(records@),
                min_repetitions as nat,
                promotions_view(plan.promotions@),
                keys,
            ),
{
    let ghost all = records_view(records@);
    let (keys, count) = summary_keys(records);
    let ghost names = texts(keys@);
    let mut promotions: Vec<Promotion> = Vec::new();
    let mut n: usize = 0;
    assert(promotions_view(promotions@) =~= Seq::empty());
    while n < keys.len()
        invariant
            n <= keys@.len(),
            names == texts(keys@),
            all == records_view(records@),
            promotions_view(promotions@) == self::promotions(
                all,
                names,
                min_repetitions as nat,
                n as int,
            ),
        decreases keys@.len() - n,
    {
        let ghost before = promotions_view(promotions@);
        assert(names[n as int] == keys@[n as int]@);
        if let Some(promotion) = promotion_for(records, keys[n].as_str(), min_repetitions) {
            let ghost view = promotion@;
            promotions.push(promotion);
            assert(promotions_view(promotions@) =~= before.push(view));
        }
        n = n + 1;
    }
    let plan = ReflectionPlan { episode_candidates: count, promotions };
    assert(plans(
        records_view(records@),
        min_repetitions as nat,
        promotions_view(plan.promotions@),
        names,
    ));
    plan
}

/// Nothing is promoted on a single occurrence: a promoted summary stands for
/// at least two episodes, and at least as many as were asked for.
pub proof fn promotion_needs_repetition(
    records: Seq<RecordView>,
    summary: Seq<char>,
    min_repetitions: nat,
)
    requires
        promotion_of(records, summary, min_repetitions) is Some,
    ensures
        group(records, summary, records.len() as int).len() >= 2,
        group(records, summary, records.len() as int).len() >= min_repetitions,
        promotion_of(records, summary, min_repetitions)->0.source_record_ids.len() > 0,
{
}

proof fn lemma_group_members(records: Seq<RecordView>, summary: Seq<char>, n: int) -> (places: Seq<
    int,
>)
    requires
        0 <= n <= records.len(),
    ensures
        places.len() == group(records, summary, n).len(),
        forall|i: int|
            0 <= i < places.len() ==> 0 <= #[trigger] places[i] < n && in_group(
                records[places[i]],
                summary,
            ) && group(records, summary, n)[i] == records[places[i]],
        forall|i: int, j: int|
            0 <= i < j < places.len() ==> #[trigger] places[i] < #[trigger] places[j],
        forall|k: int|
            0 <= k < n && in_group(#[trigger] records[k], summary) ==> places.contains(k),
    decreases n,
{
    if n <= 0 {
        Seq::empty()
    } else {
        let before = lemma_group_members(records, summary, n - 1);
        if in_group(records[n - 1], summary) {
            let places = before.push(n - 1);
            assert forall|k: int| 0 <= k < n && in_group(#[trigger] records[k], summary) implies
                places.contains(k) by {
                if k < n - 1 {
                    assert(before.contains(k));
                    let i = choose|i: int| 0 <= i < before.len() && before[i] == k;
                    assert(places[i] == k);
                } else {
                    assert(places[before.len() as int] == k);
                }
            }
            places
        } else {
            before
        }
    }
}

proof fn lemma_known_ids(records: Seq<RecordView>, id: Seq<char>)
    ensures
        known_ids(records).contains(id) <==> exists|i: int|
            0 <= i < records.len() && (#[trigger] records[i]).id == Some(id),
        known_ids(records).len() <= records.len(),
    decreases records.len(),
{
    if records.len() > 0 {
        let shorter = records.drop_last();
        lemma_known_ids(shorter, id);
        if let Some(own) = records.last().id {
            crate::lists::lemma_push_members(known_ids(shorter), own);
            assert(known_ids(records).contains(id) <==> known_ids(records).to_set().contains(id));
            assert(known_ids(shorter).contains(id) <==> known_ids(shorter).to_set().contains(id));
            assert(records[records.len() - 1].id == Some(own));
        }
        if exists|i: int| 0 <= i < shorter.len() && (#[trigger] shorter[i]).id == Some(id) {
            let i = choose|i: int|
                0 <= i < shorter.len() && (#[trigger] shorter[i]).id == Some(id);
            assert(records[i].id == Some(id));
        }
        if exists|i: int| 0 <= i < records.len() && (#[trigger] records[i]).id == Some(id) {
            let i = choose|i: int|
                0 <= i < records.len() && (#[trigger] records[i]).id == Some(id);
            if i < shorter.len() {
                assert(shorter[i].id == Some(id));
            }
        }
    }
}

/// Whether places name different promotable episodes that share a summary.
pub open spec fn are_repetitions(
    records: Seq<RecordView>,
    summary: Seq<char>,
    places: Seq<int>,
) -> bool {
    &&& forall|i: int|
        0 <= i < places.len() ==> 0 <= #[trigger] places[i] < records.len() && is_promotable(
            records[places[i]],
        ) && summary_of(records[places[i]]) == Some(summary)
    &&& forall|i: int, j: int|
        0 <= i < j < places.len() ==> #[trigger] places[i] != #[trigger] places[j]
}

/// What repeats often enough is promoted: where as many episodes as were asked
/// for, and at least two, share a summary and one of them has an id, the
/// summary is promoted, however many more there are.
pub proof fn repetition_is_promoted(
    records: Seq<RecordView>,
    summary: Seq<char>,
    min_repetitions: nat,
    places: Seq<int>,
    known: int,
)
    requires
        are_repetitions(records, summary, places),
        places.len() >= 2,
        places.len() >= min_repetitions,
        0 <= known < places.len(),
        records[places[known]].id is Some,
    ensures
        promotion_of(records, summary, min_repetitions) is Some,
        promotion_of(records, summary, min_repetitions)->0.summary == summary,
{
    let all = lemma_group_members(records, summary, records.len() as int);
    assert(places.no_duplicates());
    assert(all.no_duplicates());
    places.unique_seq_to_set();
    all.unique_seq_to_set();
    assert(places.to_set().subset_of(all.to_set())) by {
        assert forall|k: int| places.to_set().contains(k) implies all.to_set().contains(k) by {
            let i = choose|i: int| 0 <= i < places.len() && places[i] == k;
            assert(in_group(records[places[i]], summary));
            assert(all.contains(k));
        }
    }
    vstd::set_lib::lemma_len_subset(places.to_set(), all.to_set());
    let episodes = group(records, summary, records.len() as int);
    let id = records[places[known]].id->0;
    assert(in_group(records[places[known]], summary));
    assert(all.contains(places[known]));
    let i = choose|i: int| 0 <= i < all.len() && all[i] == places[known];
    assert(episodes[i].id == Some(id));
    lemma_known_ids(episodes, id);
    assert(known_ids(episodes).len() > 0);
}

/// A promotion rests on all its episodes and on nothing else: its sources are
/// the ids of the promotable episodes with its summary, in their order.
pub proof fn a_promotion_rests_on_its_episodes(
    records: Seq<RecordView>,
    summary: Seq<char>,
    min_repetitions: nat,
    id: Seq<char>,
)
    requires
        promotion_of(records, summary, min_repetitions) is Some,
    ensures
        ({
            let promotion = promotion_of(records, summary, min_repetitions)->0;
            &&& promotion.source_record_ids.contains(id) <==> exists|k: int|
                0 <= k < records.len() && is_promotable(#[trigger] records[k]) && summary_of(
                    records[k],
                ) == Some(summary) && records[k].id == Some(id)
            &&& promotion.procedural <==> (forall|k: int|
                0 <= k < records.len() && is_promotable(#[trigger] records[k]) && summary_of(
                    records[k],
                ) == Some(summary) ==> succeeded(records[k])) && (exists|k: int|
                0 <= k < records.len() && is_promotable(#[trigger] records[k]) && summary_of(
                    records[k],
                ) == Some(summary) && used_help(records[k]))
        }),
{
    let promotion = promotion_of(records, summary, min_repetitions)->0;
    let episodes = group(records, summary, records.len() as int);
    let all = lemma_group_members(records, summary, records.len() as int);
    lemma_known_ids(episodes, id);
    if promotion.source_record_ids.contains(id) {
        let i = choose|i: int| 0 <= i < episodes.len() && (#[trigger] episodes[i]).id == Some(id);
        assert(in_group(records[all[i]], summary));
        assert(is_promotable(records[all[i]]));
    }
    assert forall|k: int|
        0 <= k < records.len() && is_promotable(#[trigger] records[k]) && summary_of(records[k])
            == Some(summary) implies episodes.contains(records[k]) by {
        assert(in_group(records[k], summary));
        assert(all.contains(k));
        let i = choose|i: int| 0 <= i < all.len() && all[i] == k;
        assert(episodes[i] == records[k]);
    }
    if exists|k: int|
        0 <= k < records.len() && is_promotable(#[trigger] records[k]) && summary_of(records[k])
            == Some(summary) && records[k].id == Some(id) {
        let k = choose|k: int|
            0 <= k < records.len() && is_promotable(#[trigger] records[k]) && summary_of(
                records[k],
            ) == Some(summary) && records[k].id == Some(id);
        assert(episodes.contains(records[k]));
        let i = choose|i: int| 0 <= i < episodes.len() && episodes[i] == records[k];
        assert(episodes[i].id == Some(id));
    }
    if is_procedure(episodes) {
        let i = choose|i: int| 0 <= i < episodes.len() && used_help(#[trigger] episodes[i]);
        assert(used_help(records[all[i]]));
        assert(in_group(records[all[i]], summary));
        assert(is_promotable(records[all[i]]));
        assert forall|k: int|
            0 <= k < records.len() && is_promotable(#[trigger] records[k]) && summary_of(
                records[k],
            ) == Some(summary) implies succeeded(records[k]) by {
            assert(episodes.contains(records[k]));
            let j = choose|j: int| 0 <= j < episodes.len() && episodes[j] == records[k];
            assert(succeeded(episodes[j]));
        }
    }
    if (forall|k: int|
        0 <= k < records.len() && is_promotable(#[trigger] records[k]) && summary_of(records[k])
            == Some(summary) ==> succeeded(records[k])) && (exists|k: int|
        0 <= k < records.len() && is_promotable(#[trigger] records[k]) && summary_of(records[k])
            == Some(summary) && used_help(records[k])) {
        let k = choose|k: int|
            0 <= k < records.len() && is_promotable(#[trigger] records[k]) && summary_of(
                records[k],
            ) == Some(summary) && used_help(records[k]);
        assert(episodes.contains(records[k]));
        let j = choose|j: int| 0 <= j < episodes.len() && episodes[j] == records[k];
        assert(used_help(episodes[j]));
        assert forall|i: int| 0 <= i < episodes.len() implies succeeded(
            #[trigger] episodes[i],
        ) by {
            assert(in_group(records[all[i]], summary));
            assert(is_promotable(records[all[i]]));
        }
    }
}

proof fn lemma_promotions_hold(
    records: Seq<RecordView>,
    keys: Seq<Seq<char>>,
    min_repetitions: nat,
    n: int,
    k: int,
)
    requires
        0 <= k < n <= keys.len(),
        promotion_of(records, keys[k], min_repetitions) is Some,
    ensures
        promotions(records, keys, min_repetitions, n).contains(
            promotion_of(records, keys[k], min_repetitions)->0,
        ),
    decreases n,
{
    let made = promotion_of(records, keys[k], min_repetitions)->0;
    let after = promotions(records, keys, min_repetitions, n);
    if k < n - 1 {
        lemma_promotions_hold(records, keys, min_repetitions, n - 1, k);
        let before = promotions(records, keys, min_repetitions, n - 1);
        let i = choose|i: int| 0 <= i < before.len() && before[i] == made;
        assert(after[i] == made);
    } else {
        assert(after[after.len() - 1] == made);
    }
}

/// A plan promotes every summary that repeats often enough: whichever it is,
/// and however many other summaries there are.
pub proof fn a_plan_promotes_what_repeats(
    records: Seq<RecordView>,
    min_repetitions: nat,
    plan: Seq<PromotionView>,
    keys: Seq<Seq<char>>,
    summary: Seq<char>,
    places: Seq<int>,
    known: int,
)
    requires
        plans(records, min_repetitions, plan, keys),
        are_repetitions(records, summary, places),
        places.len() >= 2,
        places.len() >= min_repetitions,
        0 <= known < places.len(),
        records[places[known]].id is Some,
    ensures
        exists|i: int|
            0 <= i < plan.len() && (#[trigger] plan[i]).summary == summary
                && plan[i].source_record_ids.contains(records[places[known]].id->0),
{
    let id = records[places[known]].id->0;
    repetition_is_promoted(records, summary, min_repetitions, places, known);
    a_promotion_rests_on_its_episodes(records, summary, min_repetitions, id);
    assert(is_promotable(records[places[known]]));
    assert(in_group(records[places[known]], summary));
    assert(keys.to_set().contains(summary));
    let k = choose|k: int| 0 <= k < keys.len() && keys[k] == summary;
    lemma_promotions_hold(records, keys, min_repetitions, keys.len() as int, k);
    let made = promotion_of(records, summary, min_repetitions)->0;
    let i = choose|i: int| 0 <= i < plan.len() && plan[i] == made;
    assert(plan[i].summary == summary);
}

proof fn lemma_promotions_come_from(
    records: Seq<RecordView>,
    keys: Seq<Seq<char>>,
    min_repetitions: nat,
    n: int,
) -> (from: Seq<int>)
    requires
        0 <= n <= keys.len(),
    ensures
        from.len() == promotions(records, keys, min_repetitions, n).len(),
        forall|i: int|
            0 <= i < from.len() ==> 0 <= #[trigger] from[i] < n && promotion_of(
                records,
                keys[from[i]],
                min_repetitions,
            ) == Some(promotions(records, keys, min_repetitions, n)[i]),
        forall|i: int, j: int|
            0 <= i < j < from.len() ==> #[trigger] from[i] < #[trigger] from[j],
    decreases n,
{
    if n <= 0 {
        Seq::empty()
    } else {
        let before = lemma_promotions_come_from(records, keys, min_repetitions, n - 1);
        if promotion_of(records, keys[n - 1], min_repetitions) is Some {
            before.push(n - 1)
        } else {
            before
        }
    }
}

/// A plan promotes nothing else: every promotion is of a summary that at least
/// two episodes share, and at least as many as were asked for, no summary is
/// promoted twice, and they come in the order of their summaries.
pub proof fn a_plan_promotes_only_what_repeats(
    records: Seq<RecordView>,
    min_repetitions: nat,
    plan: Seq<PromotionView>,
    keys: Seq<Seq<char>>,
    i: int,
) -> (places: Seq<int>)
    requires
        plans(records, min_repetitions, plan, keys),
        0 <= i < plan.len(),
    ensures
        are_repetitions(records, plan[i].summary, places),
        places.len() >= 2,
        places.len() >= min_repetitions,
        plan[i].source_record_ids.len() > 0,
        forall|j: int|
            i < j < plan.len() ==> crate::lists::precedes(
                plan[i].summary,
                (#[trigger] plan[j]).summary,
            ),
{
    let from = lemma_promotions_come_from(records, keys, min_repetitions, keys.len() as int);
    let summary = keys[from[i]];
    let places = lemma_group_members(records, summary, records.len() as int);
    assert forall|j: int| i < j < plan.len() implies crate::lists::precedes(
        plan[i].summary,
        (#[trigger] plan[j]).summary,
    ) by {
        assert(from[i] < from[j]);
        assert(keys[from[j]] == plan[j].summary);
    }
    places
}

/// An episode counts towards a promotion when it is an active run episode with
/// a summary that is not blank; outcome, tools and id do not matter.
pub proof fn what_counts_as_an_episode(record: RecordView, text: Seq<char>)
    requires
        member(record.body, "kind"@) == Some(Value::Text("run_episode"@)),
        member(record.body, "summary"@) == Some(Value::Text(text)),
    ensures
        is_promotable(record) <==> is_active(record) && exists|k: int|
            0 <= k < text.len() && !crate::text::is_space(#[trigger] text[k]),
        is_promotable(record) ==> summary_of(record) == Some(trimmed(text)),
{
    crate::text::blank_is_white_space_alone(text);
}

/// Anything that is no run episode, or has no text for a summary, is left
/// alone.
pub proof fn what_is_no_episode(record: RecordView)
    requires
        member(record.body, "kind"@) != Some(Value::Text("run_episode"@)) || !(member(
            record.body,
            "summary"@,
        ) matches Some(Value::Text(_))),
    ensures
        !is_promotable(record),
{
}

/// What a promotion writes says what it is drawn from and on how much: the kind
/// of record, the summary it stands for, and the number of episodes.
pub proof fn a_promoted_body_says_its_evidence(
    kind: Seq<char>,
    title: Seq<char>,
    summary: Seq<char>,
    evidence: nat,
)
    ensures
        member(promoted_body(kind, title, summary, evidence), "kind"@) == Some(Value::Text(kind)),
        member(promoted_body(kind, title, summary, evidence), "source_summary"@) == Some(
            Value::Text(summary),
        ),
        member(promoted_body(kind, title, summary, evidence), "summary"@) == Some(
            Value::Text(title + summary),
        ),
        member(promoted_body(kind, title, summary, evidence), "evidence_count"@) == Some(
            Value::Number(evidence as int),
        ),
{
    reveal_strlit("evidence_count");
    reveal_strlit("kind");
    reveal_strlit("source_summary");
    reveal_strlit("summary");
    let entries = promoted_body(kind, title, summary, evidence)->Object_0;
    crate::json::the_first_entry_counts(entries, "kind"@);
    crate::json::the_first_entry_counts(entries, "source_summary"@);
    crate::json::the_first_entry_counts(entries, "summary"@);
    crate::json::the_first_entry_counts(entries, "evidence_count"@);
    assert("evidence_count"@.len() == 14 && "kind"@.len() == 4 && "source_summary"@.len() == 14
        && "summary"@.len() == 7 && "evidence_count"@[0] == 'e' && "source_summary"@[0] == 's');
    assert(entries[0].0 == "evidence_count"@ && entries[1].0 == "kind"@ && entries[2].0
        == "source_summary"@ && entries[3].0 == "summary"@);
}

/// The body of the record a promotion writes.
pub open spec fn promoted_body(
    kind: Seq<char>,
    title: Seq<char>,
    summary: Seq<char>,
    evidence: nat,
) -> Value {
    Value::Object(
        seq![
            ("evidence_count"@, Value::Number(evidence as int)),
            ("kind"@, Value::Text(kind)),
            ("source_summary"@, Value::Text(summary)),
            ("summary"@, Value::Text(title + summary)),
        ],
    )
}

fn body_of(kind: &str, title: &str, summary: &str, evidence: usize) -> (out: Json)
    ensures
        out@ == promoted_body(kind@, title@, summary@, evidence as nat),
{
    let mut headline = title.to_owned();
    headline.push_str(summary);
    let mut body: Vec<(String, Json)> = Vec::new();
    body.push(("evidence_count".to_owned(), Json::Unsigned(evidence as u64)));
    body.push(("kind".to_owned(), Json::text(kind)));
    body.push(("source_summary".to_owned(), Json::text(summary)));
    body.push(("summary".to_owned(), Json::text(headline.as_str())));
    assert(entries_view(body@) =~= promoted_body(
        kind@,
        title@,
        summary@,
        evidence as nat,
    )->Object_0);
    Json::object(body)
}

/// A record to write.
pub struct PromotedRecord {
    pub body: Json,
    pub metadata: Vec<(String, Json)>,
    pub reason: String,
}

/// What the metadata of a promoted fact says.
pub open spec fn fact_metadata(evidence: nat) -> Seq<(Seq<char>, Value)> {
    seq![
        ("evidence_count"@, Value::Number(evidence as int)),
        ("importance"@, Value::Real("0.7"@)),
        ("reflection_generated"@, Value::Bool(true)),
        ("source_store"@, Value::Text("episodic"@)),
    ]
}

/// What the metadata of a candidate procedure says.
pub open spec fn procedure_metadata(evidence: nat) -> Seq<(Seq<char>, Value)> {
    seq![
        ("evidence_count"@, Value::Number(evidence as int)),
        ("importance"@, Value::Real("0.6"@)),
        ("reflection_generated"@, Value::Bool(true)),
    ]
}

proof fn lemma_promoted_keys()
    ensures
        forall|evidence: nat| ordered(#[trigger] fact_metadata(evidence)),
        forall|evidence: nat| ordered(#[trigger] procedure_metadata(evidence)),
{
    reveal_strlit("evidence_count");
    reveal_strlit("importance");
    reveal_strlit("reflection_generated");
    reveal_strlit("source_store");
    assert("evidence_count"@[0] == 'e' && "importance"@[0] == 'i' && "reflection_generated"@[0]
        == 'r' && "source_store"@[0] == 's');
}

/// The fact a promotion writes.
pub fn semantic_fact(summary: &str, evidence: usize) -> (out: PromotedRecord)
    ensures
        out.body@ == promoted_body(
            "semantic_fact"@,
            "Repeated episode: "@,
            summary@,
            evidence as nat,
        ),
        entries_view(out.metadata@) == fact_metadata(evidence as nat),
        ordered(entries_view(out.metadata@)),
        out.reason@ == "reflection_semantic_promotion"@,
{
    let mut metadata: Vec<(String, Json)> = Vec::new();
    metadata.push(("evidence_count".to_owned(), Json::Unsigned(evidence as u64)));
    metadata.push(("importance".to_owned(), Json::Real("0.7".to_owned())));
    metadata.push(("reflection_generated".to_owned(), Json::Bool(true)));
    metadata.push(("source_store".to_owned(), Json::text("episodic")));
    assert(entries_view(metadata@) =~= fact_metadata(evidence as nat));
    proof {
        lemma_promoted_keys();
    }
    PromotedRecord {
        body: body_of("semantic_fact", "Repeated episode: ", summary, evidence),
        metadata,
        reason: "reflection_semantic_promotion".to_owned(),
    }
}

/// The candidate procedure a promotion writes.
pub fn procedural_candidate(summary: &str, evidence: usize) -> (out: PromotedRecord)
    ensures
        out.body@ == promoted_body(
            "procedural_candidate"@,
            "Repeated successful trajectory: "@,
            summary@,
            evidence as nat,
        ),
        entries_view(out.metadata@) == procedure_metadata(evidence as nat),
        ordered(entries_view(out.metadata@)),
        out.reason@ == "reflection_procedural_candidate"@,
{
    let mut metadata: Vec<(String, Json)> = Vec::new();
    metadata.push(("evidence_count".to_owned(), Json::Unsigned(evidence as u64)));
    metadata.push(("importance".to_owned(), Json::Real("0.6".to_owned())));
    metadata.push(("reflection_generated".to_owned(), Json::Bool(true)));
    assert(entries_view(metadata@) =~= procedure_metadata(evidence as nat));
    proof {
        lemma_promoted_keys();
    }
    PromotedRecord {
        body: body_of(
            "procedural_candidate",
            "Repeated successful trajectory: ",
            summary,
            evidence,
        ),
        metadata,
        reason: "reflection_procedural_candidate".to_owned(),
    }
}

/// Whether a record is an active fact drawn from a summary, other than the one
/// that replaces it.
pub open spec fn is_stale(record: RecordView, summary: Seq<char>, replacement: Seq<char>) -> bool {
    &&& is_active(record)
    &&& record.id != Some(replacement)
    &&& body_text_at(record, "kind"@) == Some("semantic_fact"@)
    &&& body_text_at(record, "source_summary"@) == Some(summary)
}

/// The ids of the stale facts among the first `n` records, in order.
pub open spec fn stale(
    records: Seq<RecordView>,
    summary: Seq<char>,
    replacement: Seq<char>,
    n: int,
) -> Seq<Seq<char>>
    decreases n,
{
    if n <= 0 {
        Seq::empty()
    } else {
        let before = stale(records, summary, replacement, n - 1);
        match records[n - 1].id {
            Some(id) => if is_stale(records[n - 1], summary, replacement) {
                before.push(id)
            } else {
                before
            },
            None => before,
        }
    }
}

fn record_is_stale(record: &Record, summary: &str, replacement: &str) -> (yes: bool)
    ensures
        yes == is_stale(record@, summary@, replacement@),
{
    let replaced = match &record.id {
        Some(id) => !same(id.as_str(), replacement),
        None => true,
    };
    let fact = match body_text(record, "kind") {
        Some(kind) => same(kind, "semantic_fact"),
        None => false,
    };
    let alike = match body_text(record, "source_summary") {
        Some(source) => same(source, summary),
        None => false,
    };
    record_is_active(record) && replaced && fact && alike
}

/// The facts a new one supersedes.
pub fn stale_semantic_records(records: &Vec<Record>, summary: &str, replacement: &str) -> (out: Vec<
    String,
>)
    ensures
        texts(out@) == stale(
            records_view(records@),
            summary@,
            replacement@,
            records@.len() as int,
        ),
{
    let ghost all = records_view(records@);
    let mut out: Vec<String> = Vec::new();
    let mut i: usize = 0;
    assert(texts(out@) =~= Seq::empty());
    while i < records.len()
        invariant
            i <= records@.len(),
            all == records_view(records@),
            texts(out@) == stale(all, summary@, replacement@, i as int),
        decreases records@.len() - i,
    {
        assert(all[i as int] == records@[i as int]@);
        let ghost before = texts(out@);
        if let Some(id) = &records[i].id {
            if record_is_stale(&records[i], summary, replacement) {
                out.push(id.clone());
                assert(texts(out@) =~= before.push(id@));
            }
        }
        i = i + 1;
    }
    out
}

/// A new fact never supersedes itself.
pub proof fn a_fact_survives_its_own_promotion(
    records: Seq<RecordView>,
    summary: Seq<char>,
    replacement: Seq<char>,
    n: int,
)
    requires
        0 <= n <= records.len(),
    ensures
        !stale(records, summary, replacement, n).contains(replacement),
    decreases n,
{
    if n > 0 {
        a_fact_survives_its_own_promotion(records, summary, replacement, n - 1);
        let before = stale(records, summary, replacement, n - 1);
        let after = stale(records, summary, replacement, n);
        if after.contains(replacement) {
            let k = choose|k: int| 0 <= k < after.len() && after[k] == replacement;
            if k < before.len() {
                assert(before[k] == replacement);
            }
        }
    }
}

/// The caller a whole-memory pass acts as for one conversation.
pub open spec fn maintenance_view(owner: Identity) -> CallerView {
    CallerView {
        agent_id: owner.agent,
        task_id: "memory-maintenance"@,
        channel_id: owner.channel,
        conversation_id: owner.conversation,
        user_id: None,
        allowed_shared_domains: Seq::empty(),
        writable_shared_domains: Seq::empty(),
        audit_read_access: false,
    }
}

/// Whether a caller is the one a pass acts as for an owner with this name.
pub open spec fn acts_for(caller: CallerView, owner: Seq<char>, id: Identity) -> bool {
    id.name() == owner && caller == maintenance_view(id)
}

/// The caller a whole-memory pass acts as for an owner. `None` for an owner
/// that is no principal, which the pass skips.
pub fn maintenance_caller(owner: &str) -> (out: Option<MemoryCaller>)
    ensures
        out is Some <==> exists|id: Identity| #[trigger] id.name() == owner@,
        out matches Some(caller) ==> exists|id: Identity| acts_for(caller@, owner@, id),
{
    match Principal::from_storage_name(owner) {
        Some(principal) => {
            let ghost id = principal@;
            let caller = MemoryCaller {
                agent_id: principal.agent,
                task_id: "memory-maintenance".to_owned(),
                channel_id: principal.channel,
                conversation_id: principal.conversation,
                user_id: None,
                allowed_shared_domains: Vec::new(),
                writable_shared_domains: Vec::new(),
                audit_read_access: false,
            };
            assert(caller@ =~= maintenance_view(id));
            assert(acts_for(caller@, owner@, id));
            Some(caller)
        },
        None => None,
    }
}

/// Enters a record's new status and why it got it.
pub fn mark_status(metadata: &mut Vec<(String, Json)>, status: &str, reason: &str)
    requires
        ordered(entries_view(old(metadata)@)),
    ensures
        ordered(entries_view(final(metadata)@)),
        forall|key: Seq<char>| #[trigger]
            lookup(entries_view(final(metadata)@), key) == overlaid(
                entries_view(old(metadata)@),
                seq![
                    ("status"@, Value::Text(status@)),
                    ("status_reason"@, Value::Text(reason@)),
                ],
                key,
            ),
{
    let mut marks: Vec<(String, Json)> = Vec::new();
    marks.push(("status".to_owned(), Json::text(status)));
    marks.push(("status_reason".to_owned(), Json::text(reason)));
    assert(entries_view(marks@) =~= seq![
        ("status"@, Value::Text(status@)),
        ("status_reason"@, Value::Text(reason@)),
    ]);
    put_all(metadata, &marks);
}

/// Exactly the older active facts drawn from the same summary are superseded:
/// every one of them with an id, and nothing else.
pub proof fn older_facts_are_superseded(
    records: Seq<RecordView>,
    summary: Seq<char>,
    replacement: Seq<char>,
    n: int,
    id: Seq<char>,
)
    requires
        0 <= n <= records.len(),
    ensures
        stale(records, summary, replacement, n).contains(id) <==> exists|k: int|
            0 <= k < n && (#[trigger] records[k]).id == Some(id) && is_active(records[k])
                && member(records[k].body, "kind"@) == Some(Value::Text("semantic_fact"@))
                && member(records[k].body, "source_summary"@) == Some(Value::Text(summary)) && id
                != replacement,
    decreases n,
{
    if n > 0 {
        older_facts_are_superseded(records, summary, replacement, n - 1, id);
        let before = stale(records, summary, replacement, n - 1);
        let after = stale(records, summary, replacement, n);
        let last = records[n - 1];
        let taken = last.id is Some && is_stale(last, summary, replacement);
        if taken {
            crate::lists::lemma_push_members(before, last.id->0);
            assert(after.contains(id) <==> after.to_set().contains(id));
            assert(before.contains(id) <==> before.to_set().contains(id));
        } else {
            assert(after == before);
        }
        if before.contains(id) {
            let k = choose|k: int|
                0 <= k < n - 1 && (#[trigger] records[k]).id == Some(id) && is_active(records[k])
                    && member(records[k].body, "kind"@) == Some(Value::Text("semantic_fact"@))
                    && member(records[k].body, "source_summary"@) == Some(Value::Text(summary))
                    && id != replacement;
            assert(records[k].id == Some(id));
        }
        if after.contains(id) && !before.contains(id) {
            assert(records[n - 1].id == Some(id));
        }
    }
}

/// An episode used help exactly when it lists a tool or a sub-agent.
pub proof fn help_is_a_tool_or_a_sub_agent(record: RecordView)
    ensures
        used_help(record) <==> (member(record.body, "tools_used"@) matches Some(Value::List(tools))
            && tools.len() > 0) || (member(record.body, "subagents_used"@) matches Some(
            Value::List(agents),
        ) && agents.len() > 0),
{
}

} // verus!
