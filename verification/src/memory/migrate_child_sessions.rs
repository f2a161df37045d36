//! Rekeying delegated session rows written before versioned child keys.
//!
//! A row is moved only when its persisted identity source names the complete
//! child; anything missing, malformed, conflicting or already claimed is
//! quarantined and never merged by inference.

use super::accounting::MemoryError;
use super::migrate::{
    is_storage_name, lemma_rows_in_push, rewritten_records, rows_in, RewriteView,
};
use super::migrate_sessions::{
    markers_view, row_keys, rows_view, EpochRow, MarkerView, RowView, SessionRow, SessionSchema,
    SessionTables,
};
use crate::identity::{storage_name_is_injective, Identity, Principal};
use crate::lists::{increasing, insert_sorted, lemma_precedes_total, precedes};
use crate::text::{
    a_part_holds_for_the_whole, begins, decimal, holding_is_standing_between, holds, opt_view,
    push_decimal, same, same_option, starts_with, texts,
};
use vstd::prelude::*;

verus! {

/// What a delegated row says about the child it belongs to.
pub struct ChildIdentitySource {
    pub child_agent: String,
    /// The child's versioned conversation; `None` when the source does not
    /// determine one.
    pub conversation_id: Option<String>,
    /// The whole source, as it was persisted.
    pub persisted: String,
}

/// What a [`ChildIdentitySource`] stands for.
#[verifier::ext_equal]
pub struct SourceIdentity {
    pub child_agent: Seq<char>,
    pub conversation_id: Option<Seq<char>>,
    pub persisted: Seq<char>,
}

impl View for ChildIdentitySource {
    type V = SourceIdentity;

    open spec fn view(&self) -> SourceIdentity {
        SourceIdentity {
            child_agent: self.child_agent@,
            conversation_id: opt_view(self.conversation_id),
            persisted: self.persisted@,
        }
    }
}

/// What one session row says about its child.
pub enum SourceRow {
    /// Nothing.
    Absent,
    /// Something unreadable; the text says why.
    Malformed(String),
    Present(ChildIdentitySource),
}

/// What a [`SourceRow`] stands for.
pub enum SourceRowView {
    Absent,
    Malformed(Seq<char>),
    Present(SourceIdentity),
}

impl View for SourceRow {
    type V = SourceRowView;

    open spec fn view(&self) -> SourceRowView {
        match *self {
            SourceRow::Absent => SourceRowView::Absent,
            SourceRow::Malformed(why) => SourceRowView::Malformed(why@),
            SourceRow::Present(source) => SourceRowView::Present(source@),
        }
    }
}

/// The rows of one conversation key.
pub struct ChildKey {
    pub key: String,
    pub items: usize,
    /// What each row says, in ordinal order.
    pub sources: Vec<SourceRow>,
}

/// What a [`ChildKey`] stands for.
#[verifier::ext_equal]
pub struct ChildKeyView {
    pub key: Seq<char>,
    pub items: nat,
    pub sources: Seq<SourceRowView>,
}

impl View for ChildKey {
    type V = ChildKeyView;

    open spec fn view(&self) -> ChildKeyView {
        ChildKeyView {
            key: self.key@,
            items: self.items as nat,
            sources: self.sources@.map_values(|s: SourceRow| s@),
        }
    }
}

/// The keys of a list.
pub open spec fn child_keys(keys: Seq<ChildKey>) -> Seq<ChildKeyView> {
    keys.map_values(|k: ChildKey| k@)
}

/// What the rows of a key agree on.
pub enum Agreement {
    /// None names a source yet.
    Nothing,
    Source(SourceIdentity),
    /// They do not agree, or one is unreadable; this is why.
    Refused(Seq<char>),
}

/// What the first `n` rows agree on; the first offending row decides.
pub open spec fn agreement(sources: Seq<SourceRowView>, n: int) -> Agreement
    decreases n,
{
    if n <= 0 {
        Agreement::Nothing
    } else {
        match agreement(sources, n - 1) {
            Agreement::Refused(why) => Agreement::Refused(why),
            found => match sources[n - 1] {
                SourceRowView::Absent => found,
                SourceRowView::Malformed(why) => Agreement::Refused(why),
                SourceRowView::Present(source) => match found {
                    Agreement::Source(prior) => if prior == source {
                        Agreement::Source(source)
                    } else {
                        Agreement::Refused(
                            "session rows contain conflicting child identity sources"@,
                        )
                    },
                    _ => Agreement::Source(source),
                },
            },
        }
    }
}

/// The source of a key, or why it has none.
pub open spec fn source_of(sources: Seq<SourceRowView>) -> Result<SourceIdentity, Seq<char>> {
    match agreement(sources, sources.len() as int) {
        Agreement::Nothing => Err("complete child identity source is not persisted"@),
        Agreement::Source(source) => Ok(source),
        Agreement::Refused(why) => Err(why),
    }
}

proof fn lemma_refused_stays(sources: Seq<SourceRowView>, i: int, n: int)
    requires
        0 <= i <= n,
        agreement(sources, i) is Refused,
    ensures
        agreement(sources, n) == agreement(sources, i),
    decreases n - i,
{
    if i < n {
        lemma_refused_stays(sources, i, n - 1);
    }
}

fn same_source(a: &ChildIdentitySource, b: &ChildIdentitySource) -> (equal: bool)
    ensures
        equal == (a@ == b@),
{
    same(a.child_agent.as_str(), b.child_agent.as_str()) && same_option(
        &a.conversation_id,
        &b.conversation_id,
    ) && same(a.persisted.as_str(), b.persisted.as_str())
}

fn source_for_key(sources: &Vec<SourceRow>) -> (out: Result<&ChildIdentitySource, String>)
    ensures
        out matches Ok(source) ==> source_of(sources@.map_values(|s: SourceRow| s@)) == Ok::<
            _,
            Seq<char>,
        >(source@),
        out matches Err(why) ==> source_of(sources@.map_values(|s: SourceRow| s@)) == Err::<
            SourceIdentity,
            _,
        >(why@),
{
    let ghost all = sources@.map_values(|s: SourceRow| s@);
    let mut found: Option<&ChildIdentitySource> = None;
    let mut i: usize = 0;
    while i < sources.len()
        invariant
            i <= sources@.len(),
            all == sources@.map_values(|s: SourceRow| s@),
            found matches Some(source) ==> agreement(all, i as int) == Agreement::Source(source@),
            found is None ==> agreement(all, i as int) == Agreement::Nothing,
        decreases sources@.len() - i,
    {
        assert(all[i as int] == sources@[i as int]@);
        match &sources[i] {
            SourceRow::Absent => {},
            SourceRow::Malformed(why) => {
                proof {
                    lemma_refused_stays(all, i + 1, all.len() as int);
                }
                return Err(why.clone());
            },
            SourceRow::Present(source) => {
                if let Some(prior) = found {
                    if !same_source(prior, source) {
                        proof {
                            lemma_refused_stays(all, i + 1, all.len() as int);
                        }
                        return Err(
                            "session rows contain conflicting child identity sources".to_owned(),
                        );
                    }
                }
                found = Some(source);
            },
        }
        i = i + 1;
    }
    match found {
        Some(source) => Ok(source),
        None => Err("complete child identity source is not persisted".to_owned()),
    }
}

/// What the migration makes of one key.
pub enum ChildVerdict {
    /// Not a pre-versioned delegated key.
    Skip,
    /// Left in place; this is why.
    Quarantine(Seq<char>),
    /// Becomes this key, unless another key would too.
    Candidate(Seq<char>),
}

/// Whether a principal is a delegated conversation without a versioned key.
pub open spec fn is_unversioned_child(id: Identity) -> bool {
    id.sender is None && begins(id.channel, "subagent:"@) && !begins(id.conversation, "child.v1."@)
}

/// The principal a storage name stands for.
pub open spec fn named(key: Seq<char>) -> Identity
    recommends
        is_storage_name(key),
{
    choose|id: Identity| #[trigger] id.name() == key
}

/// What becomes of a key, other candidates aside.
pub open spec fn child_verdict(key: ChildKeyView, keys: Seq<Seq<char>>) -> ChildVerdict {
    if !is_storage_name(key.key) || !is_unversioned_child(named(key.key)) {
        ChildVerdict::Skip
    } else {
        let id = named(key.key);
        match source_of(key.sources) {
            Err(why) => ChildVerdict::Quarantine(why),
            Ok(source) => if source.child_agent != id.agent || id.channel != "subagent:"@
                + source.child_agent {
                ChildVerdict::Quarantine(
                    "persisted child identity does not match the stored agent/channel"@,
                )
            } else {
                match source.conversation_id {
                    None => ChildVerdict::Quarantine(
                        "unsupported or sender-qualified child identity source"@,
                    ),
                    Some(conversation) => {
                        let target = (Identity {
                            agent: id.agent,
                            channel: id.channel,
                            conversation,
                            sender: None,
                        }).name();
                        if keys.contains(target) {
                            ChildVerdict::Quarantine(
                                "target key '"@ + target + "' already contains session rows"@,
                            )
                        } else {
                            ChildVerdict::Candidate(target)
                        }
                    },
                }
            },
        }
    }
}

/// The texts of keys.
pub open spec fn key_texts(keys: Seq<ChildKeyView>) -> Seq<Seq<char>> {
    keys.map_values(|k: ChildKeyView| k.key)
}

/// How many of the first `n` keys are candidates for a target.
pub open spec fn claims(keys: Seq<ChildKeyView>, target: Seq<char>, n: int) -> nat
    decreases n,
{
    if n <= 0 {
        0
    } else {
        claims(keys, target, n - 1) + if child_verdict(keys[n - 1], key_texts(keys))
            == ChildVerdict::Candidate(target) {
            1nat
        } else {
            0nat
        }
    }
}

/// One delegated conversation that can be rekeyed exactly.
#[derive(Debug, PartialEq, Eq)]
pub struct ChildSessionRewrite {
    pub from: String,
    pub to: String,
    pub items: usize,
}

impl View for ChildSessionRewrite {
    type V = RewriteView;

    open spec fn view(&self) -> RewriteView {
        RewriteView { from: self.from@, to: self.to@, records: self.items as nat }
    }
}

/// The rewrites of a list.
pub open spec fn child_rewrites(rewrites: Seq<ChildSessionRewrite>) -> Seq<RewriteView> {
    rewrites.map_values(|r: ChildSessionRewrite| r@)
}

/// One delegated conversation that cannot be resolved safely.
#[derive(Debug, PartialEq, Eq)]
pub struct QuarantinedChildSession {
    pub key: String,
    pub items: usize,
    pub reason: String,
}

/// What a [`QuarantinedChildSession`] stands for.
#[verifier::ext_equal]
pub struct QuarantineView {
    pub key: Seq<char>,
    pub items: nat,
    pub reason: Seq<char>,
}

impl View for QuarantinedChildSession {
    type V = QuarantineView;

    open spec fn view(&self) -> QuarantineView {
        QuarantineView { key: self.key@, items: self.items as nat, reason: self.reason@ }
    }
}

/// The quarantined conversations of a list.
pub open spec fn quarantine_view(entries: Seq<QuarantinedChildSession>) -> Seq<QuarantineView> {
    entries.map_values(|e: QuarantinedChildSession| e@)
}

/// What the delegated-session migration would do.
pub struct ChildSessionPlan {
    pub rewrites: Vec<ChildSessionRewrite>,
    pub quarantined: Vec<QuarantinedChildSession>,
}

/// What is said of keys that claim one target.
pub open spec fn contested_reason(target: Seq<char>) -> Seq<char> {
    "multiple legacy keys claim the same target '"@ + target + "'"@
}

/// The plan for the first `n` keys: rewrites and quarantined, in key order.
pub open spec fn children_planned(keys: Seq<ChildKeyView>, n: int) -> (
    Seq<RewriteView>,
    Seq<QuarantineView>,
)
    decreases n,
{
    if n <= 0 {
        (Seq::empty(), Seq::empty())
    } else {
        let (rewrites, quarantined) = children_planned(keys, n - 1);
        let key = keys[n - 1];
        let leave = |reason: Seq<char>|
            (
                rewrites,
                quarantined.push(QuarantineView { key: key.key, items: key.items, reason }),
            );
        match child_verdict(key, key_texts(keys)) {
            ChildVerdict::Skip => (rewrites, quarantined),
            ChildVerdict::Quarantine(why) => leave(why),
            ChildVerdict::Candidate(target) => if claims(keys, target, keys.len() as int) == 1 {
                (
                    rewrites.push(RewriteView { from: key.key, to: target, records: key.items }),
                    quarantined,
                )
            } else {
                leave(contested_reason(target))
            },
        }
    }
}

proof fn lemma_claims(keys: Seq<ChildKeyView>, target: Seq<char>, i: int, j: int, n: int)
    requires
        0 <= i < j < n <= keys.len(),
        child_verdict(keys[i], key_texts(keys)) == ChildVerdict::Candidate(target),
        child_verdict(keys[j], key_texts(keys)) == ChildVerdict::Candidate(target),
    ensures
        claims(keys, target, n) >= 2,
    decreases n,
{
    if j < n - 1 {
        lemma_claims(keys, target, i, j, n - 1);
    } else {
        lemma_claimed(keys, target, i, j);
    }
}

proof fn lemma_claimed(keys: Seq<ChildKeyView>, target: Seq<char>, i: int, n: int)
    requires
        0 <= i < n <= keys.len(),
        child_verdict(keys[i], key_texts(keys)) == ChildVerdict::Candidate(target),
    ensures
        claims(keys, target, n) >= 1,
    decreases n,
{
    if i < n - 1 {
        lemma_claimed(keys, target, i, n - 1);
    }
}

proof fn lemma_child_rewrite_origin(keys: Seq<ChildKeyView>, n: int, k: int) -> (i: int)
    requires
        0 <= n <= keys.len(),
        0 <= k < children_planned(keys, n).0.len(),
    ensures
        0 <= i < n,
        children_planned(keys, n).0[k].from == keys[i].key,
        child_verdict(keys[i], key_texts(keys)) == ChildVerdict::Candidate(
            children_planned(keys, n).0[k].to,
        ),
        claims(keys, children_planned(keys, n).0[k].to, keys.len() as int) == 1,
        k == children_planned(keys, i).0.len(),
    decreases n,
{
    if k < children_planned(keys, n - 1).0.len() {
        lemma_child_rewrite_origin(keys, n - 1, k)
    } else {
        n - 1
    }
}

/// No two rewrites share a target, and no target is a key in use: delegated
/// conversations are never merged.
pub proof fn child_targets_are_free_and_distinct(keys: Seq<ChildKeyView>, j: int, k: int)
    requires
        0 <= j < children_planned(keys, keys.len() as int).0.len(),
        0 <= k < children_planned(keys, keys.len() as int).0.len(),
    ensures
        !key_texts(keys).contains(children_planned(keys, keys.len() as int).0[k].to),
        j != k ==> children_planned(keys, keys.len() as int).0[j].to != children_planned(
            keys,
            keys.len() as int,
        ).0[k].to,
{
    let n = keys.len() as int;
    let a = lemma_child_rewrite_origin(keys, n, j);
    let b = lemma_child_rewrite_origin(keys, n, k);
    if j != k && children_planned(keys, n).0[j].to == children_planned(keys, n).0[k].to {
        if a < b {
            lemma_claims(keys, children_planned(keys, n).0[j].to, a, b, n);
        } else if b < a {
            lemma_claims(keys, children_planned(keys, n).0[j].to, b, a, n);
        }
    }
}

/// The keys rewrites move away from.
pub open spec fn rewrite_sources(rewrites: Seq<RewriteView>) -> Seq<Seq<char>> {
    rewrites.map_values(|r: RewriteView| r.from)
}

/// The keys quarantined entries speak of.
pub open spec fn quarantined_keys(entries: Seq<QuarantineView>) -> Seq<Seq<char>> {
    entries.map_values(|e: QuarantineView| e.key)
}

/// A plan lists its rewrites and its quarantined entries in key order, each
/// key once.
pub proof fn child_plan_is_in_key_order(keys: Seq<ChildKeyView>, n: int)
    requires
        0 <= n <= keys.len(),
        increasing(key_texts(keys)),
    ensures
        increasing(rewrite_sources(children_planned(keys, n).0)),
        increasing(quarantined_keys(children_planned(keys, n).1)),
        forall|k: int|
            0 <= k < children_planned(keys, n).0.len() ==> key_texts(keys).take(n).contains(
                (#[trigger] children_planned(keys, n).0[k]).from,
            ),
        forall|k: int|
            0 <= k < children_planned(keys, n).1.len() ==> key_texts(keys).take(n).contains(
                (#[trigger] children_planned(keys, n).1[k]).key,
            ),
    decreases n,
{
    if n > 0 {
        child_plan_is_in_key_order(keys, n - 1);
        let names = key_texts(keys);
        let earlier = names.take(n - 1);
        let name = keys[n - 1].key;
        let before = children_planned(keys, n - 1);
        let after = children_planned(keys, n);
        assert(names[n - 1] == name);
        assert(names.take(n) =~= earlier.push(name));
        assert(names.take(n)[n - 1] == name);
        assert forall|x: Seq<char>| #[trigger] earlier.contains(x) implies precedes(x, name)
            && names.take(n).contains(x) by {
            let m = choose|m: int| 0 <= m < earlier.len() && earlier[m] == x;
            assert(names.take(n)[m] == x);
            assert(precedes(names[m], names[n - 1]));
        }
        assert forall|k: int| 0 <= k < before.0.len() implies precedes(
            (#[trigger] before.0[k]).from,
            name,
        ) by {
            assert(earlier.contains(before.0[k].from));
        }
        assert forall|k: int| 0 <= k < before.1.len() implies precedes(
            (#[trigger] before.1[k]).key,
            name,
        ) by {
            assert(earlier.contains(before.1[k].key));
        }
        lemma_grown(rewrite_sources(before.0), rewrite_sources(after.0), name);
        lemma_grown(quarantined_keys(before.1), quarantined_keys(after.1), name);
    }
}

proof fn lemma_grown(before: Seq<Seq<char>>, after: Seq<Seq<char>>, name: Seq<char>)
    requires
        increasing(before),
        forall|k: int| 0 <= k < before.len() ==> precedes(#[trigger] before[k], name),
        after =~= before || after =~= before.push(name),
    ensures
        increasing(after),
{
}

/// Every delegated key is listed once, with its own number of items: rekeyed or
/// quarantined; and no other key is listed.
pub proof fn every_child_key_is_listed_once(keys: Seq<ChildKeyView>, n: int, m: int)
    requires
        0 <= n <= keys.len(),
        0 <= m < keys.len(),
        increasing(key_texts(keys)),
    ensures
        ({
            let (rewrites, quarantined) = children_planned(keys, n);
            &&& rows_in(rewrite_sources(rewrites), keys[m].key) + rows_in(
                quarantined_keys(quarantined),
                keys[m].key,
            ) == if m < n && !(child_verdict(keys[m], key_texts(keys)) is Skip) {
                1nat
            } else {
                0nat
            }
            &&& forall|k: int|
                0 <= k < rewrites.len() && (#[trigger] rewrites[k]).from == keys[m].key
                    ==> rewrites[k].records == keys[m].items
            &&& forall|k: int|
                0 <= k < quarantined.len() && (#[trigger] quarantined[k]).key == keys[m].key
                    ==> quarantined[k].items == keys[m].items
            &&& forall|k: int|
                0 <= k < rewrites.len() ==> key_texts(keys).contains((#[trigger] rewrites[k]).from)
            &&& forall|k: int|
                0 <= k < quarantined.len() ==> key_texts(keys).contains(
                    (#[trigger] quarantined[k]).key,
                )
        }),
    decreases n,
{
    if n > 0 {
        every_child_key_is_listed_once(keys, n - 1, m);
        let names = key_texts(keys);
        let before = children_planned(keys, n - 1);
        let after = children_planned(keys, n);
        let name = keys[n - 1].key;
        assert(names[m] == keys[m].key && names[n - 1] == name);
        assert(names.contains(name));
        lemma_precedes_total(names[m], names[n - 1]);
        if m < n - 1 {
            assert(precedes(names[m], names[n - 1]));
        } else if m > n - 1 {
            assert(precedes(names[n - 1], names[m]));
        }
        lemma_rows_in_push(rewrite_sources(before.0), keys[m].key, name);
        lemma_rows_in_push(quarantined_keys(before.1), keys[m].key, name);
        if after.0.len() > before.0.len() {
            assert(rewrite_sources(after.0) =~= rewrite_sources(before.0).push(name));
        } else if after.1.len() > before.1.len() {
            assert(quarantined_keys(after.1) =~= quarantined_keys(before.1).push(name));
        }
    } else {
        assert(rewrite_sources(children_planned(keys, 0).0) =~= Seq::empty());
        assert(quarantined_keys(children_planned(keys, 0).1) =~= Seq::empty());
    }
}

/// One stored item: its key, and what it says about its child.
pub struct StoredItem {
    pub key: String,
    pub source: SourceRow,
}

/// What a [`StoredItem`] stands for.
#[verifier::ext_equal]
pub struct StoredItemView {
    pub key: Seq<char>,
    pub source: SourceRowView,
}

impl View for StoredItem {
    type V = StoredItemView;

    open spec fn view(&self) -> StoredItemView {
        StoredItemView { key: self.key@, source: self.source@ }
    }
}

/// The items of a list.
pub open spec fn stored_items(rows: Seq<StoredItem>) -> Seq<StoredItemView> {
    rows.map_values(|r: StoredItem| r@)
}

/// The keys of items.
pub open spec fn item_keys(rows: Seq<StoredItemView>) -> Seq<Seq<char>> {
    rows.map_values(|r: StoredItemView| r.key)
}

/// What the items of a key say, among the first `n`, in their order.
pub open spec fn sources_under(rows: Seq<StoredItemView>, key: Seq<char>, n: int) -> Seq<
    SourceRowView,
>
    decreases n,
{
    if n <= 0 {
        Seq::empty()
    } else if rows[n - 1].key == key {
        sources_under(rows, key, n - 1).push(rows[n - 1].source)
    } else {
        sources_under(rows, key, n - 1)
    }
}

/// Whether keys are those of items, once each and in text order, each with
/// what its items say.
pub open spec fn groups_items(keys: Seq<ChildKeyView>, rows: Seq<StoredItemView>) -> bool {
    &&& increasing(key_texts(keys))
    &&& key_texts(keys).to_set() == item_keys(rows).to_set()
    &&& forall|i: int|
        0 <= i < keys.len() ==> (#[trigger] keys[i]).sources == sources_under(
            rows,
            keys[i].key,
            rows.len() as int,
        ) && keys[i].items == keys[i].sources.len()
}

fn copy_source(source: &SourceRow) -> (out: SourceRow)
    ensures
        out@ == source@,
{
    match source {
        SourceRow::Absent => SourceRow::Absent,
        SourceRow::Malformed(why) => SourceRow::Malformed(why.clone()),
        SourceRow::Present(source) => {
            let conversation_id = match &source.conversation_id {
                Some(id) => Some(id.clone()),
                None => None,
            };
            SourceRow::Present(
                ChildIdentitySource {
                    child_agent: source.child_agent.clone(),
                    conversation_id,
                    persisted: source.persisted.clone(),
                },
            )
        },
    }
}

fn collect_sources(rows: &Vec<StoredItem>, key: &str) -> (out: Vec<SourceRow>)
    ensures
        out@.map_values(|s: SourceRow| s@) == sources_under(
            stored_items(rows@),
            key@,
            rows@.len() as int,
        ),
{
    let ghost all = stored_items(rows@);
    let mut out: Vec<SourceRow> = Vec::new();
    let mut i: usize = 0;
    assert(out@.map_values(|s: SourceRow| s@) =~= Seq::empty());
    while i < rows.len()
        invariant
            i <= rows@.len(),
            all == stored_items(rows@),
            out@.map_values(|s: SourceRow| s@) == sources_under(all, key@, i as int),
        decreases rows@.len() - i,
    {
        assert(all[i as int] == rows@[i as int]@);
        let ghost before = out@.map_values(|s: SourceRow| s@);
        if same(rows[i].key.as_str(), key) {
            out.push(copy_source(&rows[i].source));
            assert(out@.map_values(|s: SourceRow| s@) =~= before.push(rows@[i as int].source@));
        }
        i = i + 1;
    }
    out
}

/// Groups items by key. Items come in the order they were written.
pub fn group_items(rows: &Vec<StoredItem>) -> (keys: Vec<ChildKey>)
    ensures
        groups_items(child_keys(keys@), stored_items(rows@)),
{
    let ghost all = stored_items(rows@);
    let ghost names_in = item_keys(all);
    let mut names: Vec<String> = Vec::new();
    let mut i: usize = 0;
    assert(texts(names@).to_set() =~= names_in.take(0).to_set());
    while i < rows.len()
        invariant
            i <= rows@.len(),
            all == stored_items(rows@),
            names_in == item_keys(all),
            increasing(texts(names@)),
            texts(names@).to_set() == names_in.take(i as int).to_set(),
        decreases rows@.len() - i,
    {
        insert_sorted(&mut names, rows[i].key.as_str());
        proof {
            assert(names_in[i as int] == rows@[i as int].key@);
            assert(names_in.take(i + 1) =~= names_in.take(i as int).push(names_in[i as int]));
            crate::lists::lemma_push_members(names_in.take(i as int), names_in[i as int]);
        }
        i = i + 1;
    }
    assert(names_in.take(names_in.len() as int) =~= names_in);
    let mut keys: Vec<ChildKey> = Vec::new();
    let mut k: usize = 0;
    while k < names.len()
        invariant
            k <= names@.len(),
            all == stored_items(rows@),
            all.len() == rows@.len(),
            keys@.len() == k,
            forall|j: int|
                0 <= j < k ==> (#[trigger] keys@[j])@.key == names@[j]@ && keys@[j]@.sources
                    == sources_under(all, names@[j]@, all.len() as int) && keys@[j]@.items
                    == keys@[j]@.sources.len(),
        decreases names@.len() - k,
    {
        let sources = collect_sources(rows, names[k].as_str());
        let items: usize = sources.len();
        keys.push(ChildKey { key: names[k].clone(), items, sources });
        k = k + 1;
    }
    proof {
        assert(key_texts(child_keys(keys@)) =~= texts(names@));
        assert forall|j: int| 0 <= j < child_keys(keys@).len() implies (
        #[trigger] child_keys(keys@)[j]).sources == sources_under(
            all,
            child_keys(keys@)[j].key,
            all.len() as int,
        ) && child_keys(keys@)[j].items == child_keys(keys@)[j].sources.len() by {
            assert(child_keys(keys@)[j] == keys@[j]@);
        }
    }
    keys
}

enum ChildDecision {
    Skip,
    Quarantine(String),
    Candidate(String),
}

spec fn child_decides(decision: ChildDecision, verdict: ChildVerdict) -> bool {
    match verdict {
        ChildVerdict::Skip => decision is Skip,
        ChildVerdict::Quarantine(why) => decision matches ChildDecision::Quarantine(text) && text@
            == why,
        ChildVerdict::Candidate(target) => decision matches ChildDecision::Candidate(text) && text@
            == target,
    }
}

fn has_key(keys: &Vec<ChildKey>, key: &str) -> (found: bool)
    ensures
        found == key_texts(child_keys(keys@)).contains(key@),
{
    let ghost all = key_texts(child_keys(keys@));
    let mut i: usize = 0;
    while i < keys.len()
        invariant
            i <= keys@.len(),
            all == key_texts(child_keys(keys@)),
            forall|k: int| 0 <= k < i ==> #[trigger] all[k] != key@,
        decreases keys@.len() - i,
    {
        assert(all[i as int] == keys@[i as int].key@);
        if same(keys[i].key.as_str(), key) {
            return true;
        }
        i = i + 1;
    }
    false
}

fn decide_child(keys: &Vec<ChildKey>, i: usize) -> (decision: ChildDecision)
    requires
        i < keys@.len(),
    ensures
        child_decides(decision, child_verdict(keys@[i as int]@, key_texts(child_keys(keys@)))),
{
    let entry = &keys[i];
    let principal = match Principal::from_storage_name(entry.key.as_str()) {
        Some(principal) => principal,
        None => {
            return ChildDecision::Skip;
        },
    };
    proof {
        storage_name_is_injective(principal@, named(entry.key@));
    }
    if principal.sender.is_some() || !starts_with(principal.channel.as_str(), "subagent:")
        || starts_with(principal.conversation.as_str(), "child.v1.") {
        return ChildDecision::Skip;
    }
    let source = match source_for_key(&entry.sources) {
        Ok(source) => source,
        Err(why) => {
            return ChildDecision::Quarantine(why);
        },
    };
    let mut expected = "subagent:".to_owned();
    expected.push_str(source.child_agent.as_str());
    if !same(source.child_agent.as_str(), principal.agent.as_str()) || !same(
        principal.channel.as_str(),
        expected.as_str(),
    ) {
        return ChildDecision::Quarantine(
            "persisted child identity does not match the stored agent/channel".to_owned(),
        );
    }
    let conversation = match &source.conversation_id {
        Some(conversation) => conversation,
        None => {
            return ChildDecision::Quarantine(
                "unsupported or sender-qualified child identity source".to_owned(),
            );
        },
    };
    let target = Principal::conversation(
        principal.agent.as_str(),
        principal.channel.as_str(),
        conversation.as_str(),
    ).storage_name();
    if has_key(keys, target.as_str()) {
        let mut why = "target key '".to_owned();
        why.push_str(target.as_str());
        why.push_str("' already contains session rows");
        return ChildDecision::Quarantine(why);
    }
    ChildDecision::Candidate(target)
}

fn count_claims(keys: &Vec<ChildKey>, target: &str) -> (count: usize)
    ensures
        count == claims(child_keys(keys@), target@, keys@.len() as int),
{
    let ghost all = child_keys(keys@);
    let mut count: usize = 0;
    let mut i: usize = 0;
    while i < keys.len()
        invariant
            i <= keys@.len(),
            count <= i,
            all == child_keys(keys@),
            count == claims(all, target@, i as int),
        decreases keys@.len() - i,
    {
        assert(all[i as int] == keys@[i as int]@);
        if let ChildDecision::Candidate(other) = decide_child(keys, i) {
            if same(other.as_str(), target) {
                count = count + 1;
            }
        }
        i = i + 1;
    }
    count
}

/// Inspects current-schema session keys, once each and in key order, for
/// pre-versioned delegated ones. Nothing, unless the tables are in the current
/// shape. What is planned comes in key order too.
pub fn plan(schema: SessionSchema, keys: &Vec<ChildKey>) -> (plan: ChildSessionPlan)
    requires
        increasing(key_texts(child_keys(keys@))),
    ensures
        increasing(rewrite_sources(child_rewrites(plan.rewrites@))),
        increasing(quarantined_keys(quarantine_view(plan.quarantined@))),
        schema != SessionSchema::Current ==> plan.rewrites@.len() == 0 && plan.quarantined@.len()
            == 0,
        schema == SessionSchema::Current ==> child_rewrites(plan.rewrites@) == children_planned(
            child_keys(keys@),
            keys@.len() as int,
        ).0 && quarantine_view(plan.quarantined@) == children_planned(
            child_keys(keys@),
            keys@.len() as int,
        ).1,
{
    let mut rewrites: Vec<ChildSessionRewrite> = Vec::new();
    let mut quarantined: Vec<QuarantinedChildSession> = Vec::new();
    if schema != SessionSchema::Current {
        return ChildSessionPlan { rewrites, quarantined };
    }
    proof {
        child_plan_is_in_key_order(child_keys(keys@), keys@.len() as int);
    }
    let ghost all = child_keys(keys@);
    let mut i: usize = 0;
    assert(child_rewrites(rewrites@) =~= Seq::empty());
    assert(quarantine_view(quarantined@) =~= Seq::empty());
    while i < keys.len()
        invariant
            i <= keys@.len(),
            all == child_keys(keys@),
            child_rewrites(rewrites@) == children_planned(all, i as int).0,
            quarantine_view(quarantined@) == children_planned(all, i as int).1,
        decreases keys@.len() - i,
    {
        assert(all[i as int] == keys@[i as int]@);
        let ghost moved = child_rewrites(rewrites@);
        let ghost left = quarantine_view(quarantined@);
        let key = keys[i].key.clone();
        let items: usize = keys[i].items;
        let reason = match decide_child(keys, i) {
            ChildDecision::Skip => None,
            ChildDecision::Quarantine(why) => Some(why),
            ChildDecision::Candidate(target) => {
                if count_claims(keys, target.as_str()) == 1 {
                    let rewrite = ChildSessionRewrite { from: key.clone(), to: target, items };
                    let ghost view = rewrite@;
                    rewrites.push(rewrite);
                    assert(child_rewrites(rewrites@) =~= moved.push(view));
                    None
                } else {
                    let mut why = "multiple legacy keys claim the same target '".to_owned();
                    why.push_str(target.as_str());
                    why.push_str("'");
                    Some(why)
                }
            },
        };
        if let Some(reason) = reason {
            let entry = QuarantinedChildSession { key, items, reason };
            let ghost view = entry@;
            quarantined.push(entry);
            assert(quarantine_view(quarantined@) =~= left.push(view));
        }
        i = i + 1;
    }
    ChildSessionPlan { rewrites, quarantined }
}

/// Items with one key renamed.
pub open spec fn renamed_rows(rows: Seq<RowView>, from: Seq<char>, to: Seq<char>) -> Seq<RowView> {
    rows.map_values(
        |r: RowView|
            if r.key == from {
                RowView { key: to, ..r }
            } else {
                r
            },
    )
}

/// A marker of a renamed conversation, for the same participant.
pub open spec fn renamed_marker(m: MarkerView, from: Seq<char>, to: Seq<char>) -> MarkerView {
    if m.key == from {
        MarkerView {
            key: to,
            principal: (Identity {
                conversation: named(to).conversation,
                ..named(m.principal)
            }).name(),
            ..m
        }
    } else {
        m
    }
}

/// Why a marker cannot follow its conversation, when it cannot.
pub open spec fn marker_refusal(m: MarkerView, from: Seq<char>) -> Option<Seq<char>> {
    if m.key != from {
        None
    } else if !is_storage_name(m.principal) {
        Some("legacy child epoch contains invalid principal '"@ + m.principal + "'"@)
    } else if named(m.principal).conversation_only().name() != from {
        Some(
            "legacy child epoch principal '"@ + m.principal + "' does not belong to '"@ + from
                + "'"@,
        )
    } else {
        None
    }
}

/// The refusal of the first of the first `n` markers that has one.
pub open spec fn markers_refusal(markers: Seq<MarkerView>, from: Seq<char>, n: int) -> Option<
    Seq<char>,
>
    decreases n,
{
    if n <= 0 {
        None
    } else if markers_refusal(markers, from, n - 1) is Some {
        markers_refusal(markers, from, n - 1)
    } else {
        marker_refusal(markers[n - 1], from)
    }
}

proof fn lemma_markers_refusal(markers: Seq<MarkerView>, from: Seq<char>, i: int, n: int)
    requires
        0 <= i <= n,
        markers_refusal(markers, from, i) is Some,
    ensures
        markers_refusal(markers, from, n) == markers_refusal(markers, from, i),
    decreases n - i,
{
    if i < n {
        lemma_markers_refusal(markers, from, i, n - 1);
    }
}

/// Whether a marker can follow its conversation: its principal is one of that
/// conversation.
pub open spec fn marker_is_sound(m: MarkerView, from: Seq<char>) -> bool {
    m.key == from ==> is_storage_name(m.principal) && named(m.principal).conversation_only().name()
        == from
}

/// What [`SessionTables`] stand for.
#[verifier::ext_equal]
pub struct TablesView {
    pub schema: SessionSchema,
    pub schema_version: i64,
    pub items: Seq<RowView>,
    pub epochs: Seq<MarkerView>,
}

impl View for SessionTables {
    type V = TablesView;

    open spec fn view(&self) -> TablesView {
        TablesView {
            schema: self.schema,
            schema_version: self.schema_version,
            items: rows_view(self.items@),
            epochs: markers_view(self.epochs@),
        }
    }
}

/// Whether a rewrite can be applied to tables.
pub open spec fn can_rekey(t: TablesView, r: RewriteView) -> bool {
    &&& !row_keys(t.items).contains(r.to)
    &&& is_storage_name(r.to)
    &&& forall|i: int| 0 <= i < t.epochs.len() ==> marker_is_sound(#[trigger] t.epochs[i], r.from)
}

/// Why a rewrite cannot be applied to tables, when it cannot: its target holds
/// items, is no principal key, or a marker cannot follow.
pub open spec fn rekey_refusal(t: TablesView, r: RewriteView) -> Option<Seq<char>> {
    if row_keys(t.items).contains(r.to) {
        Some(
            "refusing child session migration: target '"@ + r.to
                + "' became occupied after planning"@,
        )
    } else if !is_storage_name(r.to) {
        Some("planned child target is not a principal key"@)
    } else {
        markers_refusal(t.epochs, r.from, t.epochs.len() as int)
    }
}

/// Tables after one rewrite.
pub open spec fn rekeyed(t: TablesView, r: RewriteView) -> TablesView {
    TablesView {
        items: renamed_rows(t.items, r.from, r.to),
        epochs: t.epochs.map_values(|m: MarkerView| renamed_marker(m, r.from, r.to)),
        ..t
    }
}

/// Tables after the first `n` rewrites.
pub open spec fn tables_after(t: TablesView, rewrites: Seq<RewriteView>, n: int) -> TablesView
    decreases n,
{
    if n <= 0 {
        t
    } else {
        rekeyed(tables_after(t, rewrites, n - 1), rewrites[n - 1])
    }
}

/// How many items have a key.
pub open spec fn items_under(rows: Seq<RowView>, key: Seq<char>) -> nat {
    super::migrate::rows_in(row_keys(rows), key)
}

/// How many items the first `n` rewrites move.
pub open spec fn items_moved(t: TablesView, rewrites: Seq<RewriteView>, n: int) -> nat
    decreases n,
{
    if n <= 0 {
        0
    } else {
        items_moved(t, rewrites, n - 1) + items_under(
            tables_after(t, rewrites, n - 1).items,
            rewrites[n - 1].from,
        )
    }
}

/// Whether rewrite `k` can be applied when its turn comes.
pub open spec fn turn_is_clear(t: TablesView, rewrites: Seq<RewriteView>, k: int) -> bool {
    can_rekey(tables_after(t, rewrites, k), rewrites[k])
}

fn row_has_key(rows: &Vec<SessionRow>, key: &str) -> (count: usize)
    ensures
        count == items_under(rows_view(rows@), key@),
        count == 0 <==> !row_keys(rows_view(rows@)).contains(key@),
{
    let ghost all = row_keys(rows_view(rows@));
    let mut count: usize = 0;
    let mut i: usize = 0;
    while i < rows.len()
        invariant
            i <= rows@.len(),
            count <= i,
            all == row_keys(rows_view(rows@)),
            count == super::migrate::rows_in(all.take(i as int), key@),
            count == 0 <==> forall|k: int| 0 <= k < i ==> #[trigger] all[k] != key@,
        decreases rows@.len() - i,
    {
        proof {
            assert(all.take(i + 1).drop_last() =~= all.take(i as int));
            assert(all.take(i + 1).last() == rows@[i as int].key@);
            assert(all[i as int] == rows@[i as int].key@);
        }
        if same(rows[i].key.as_str(), key) {
            count = count + 1;
        }
        i = i + 1;
    }
    assert(all.take(all.len() as int) =~= all);
    count
}

fn rename_items(rows: &Vec<SessionRow>, from: &str, to: &str) -> (out: Vec<SessionRow>)
    ensures
        rows_view(out@) == renamed_rows(rows_view(rows@), from@, to@),
{
    let mut out: Vec<SessionRow> = Vec::new();
    let mut i: usize = 0;
    while i < rows.len()
        invariant
            i <= rows@.len(),
            out@.len() == i,
            forall|k: int|
                0 <= k < i ==> (#[trigger] out@[k])@ == if rows@[k]@.key == from@ {
                    RowView { key: to@, ..rows@[k]@ }
                } else {
                    rows@[k]@
                },
        decreases rows@.len() - i,
    {
        let key = if same(rows[i].key.as_str(), from) {
            to.to_owned()
        } else {
            rows[i].key.clone()
        };
        out.push(
            SessionRow {
                key,
                ordinal: rows[i].ordinal,
                item: rows[i].item.clone(),
                created_at: rows[i].created_at.clone(),
            },
        );
        i = i + 1;
    }
    assert(rows_view(out@) =~= renamed_rows(rows_view(rows@), from@, to@));
    out
}

fn rename_markers(rows: &Vec<EpochRow>, from: &str, to: &str, target: &Principal) -> (out: Result<
    Vec<EpochRow>,
    MemoryError,
>)
    requires
        target@.name() == to@,
    ensures
        out is Ok <==> forall|i: int|
            0 <= i < rows@.len() ==> marker_is_sound(#[trigger] markers_view(rows@)[i], from@),
        out matches Err(error) ==> (error matches MemoryError::Backend(text) && markers_refusal(
            markers_view(rows@),
            from@,
            rows@.len() as int,
        ) == Some(text@)),
        out matches Ok(moved) ==> markers_view(moved@) == markers_view(rows@).map_values(
            |m: MarkerView| renamed_marker(m, from@, to@),
        ),
{
    proof {
        assert(is_storage_name(to@));
        storage_name_is_injective(target@, named(to@));
    }
    let ghost all = markers_view(rows@);
    let mut out: Vec<EpochRow> = Vec::new();
    let mut i: usize = 0;
    while i < rows.len()
        invariant
            i <= rows@.len(),
            all == markers_view(rows@),
            target@ == named(to@),
            out@.len() == i,
            markers_refusal(all, from@, i as int) is None,
            forall|k: int| 0 <= k < i ==> marker_is_sound(#[trigger] all[k], from@),
            forall|k: int| 0 <= k < i ==> (#[trigger] out@[k])@ == renamed_marker(all[k], from@, to@),
        decreases rows@.len() - i,
    {
        assert(all[i as int] == rows@[i as int]@);
        if same(rows[i].key.as_str(), from) {
            let principal = match Principal::from_storage_name(rows[i].principal.as_str()) {
                Some(principal) => principal,
                None => {
                    let mut text = "legacy child epoch contains invalid principal '".to_owned();
                    text.push_str(rows[i].principal.as_str());
                    text.push_str("'");
                    proof {
                        assert(!marker_is_sound(all[i as int], from@));
                        lemma_markers_refusal(all, from@, i + 1, rows@.len() as int);
                    }
                    return Err(MemoryError::Backend(text));
                },
            };
            proof {
                storage_name_is_injective(principal@, named(rows@[i as int].principal@));
            }
            if !same(principal.conversation_name().as_str(), from) {
                let mut text = "legacy child epoch principal '".to_owned();
                text.push_str(rows[i].principal.as_str());
                text.push_str("' does not belong to '");
                text.push_str(from);
                text.push_str("'");
                proof {
                    assert(!marker_is_sound(all[i as int], from@));
                    lemma_markers_refusal(all, from@, i + 1, rows@.len() as int);
                }
                return Err(MemoryError::Backend(text));
            }
            let mut renamed = principal.copy();
            renamed.conversation = target.conversation.clone();
            assert(renamed@ =~= Identity { conversation: target@.conversation, ..principal@ });
            out.push(
                EpochRow {
                    key: to.to_owned(),
                    principal: renamed.storage_name(),
                    ordinal: rows[i].ordinal,
                    created_at: rows[i].created_at.clone(),
                },
            );
        } else {
            out.push(
                EpochRow {
                    key: rows[i].key.clone(),
                    principal: rows[i].principal.clone(),
                    ordinal: rows[i].ordinal,
                    created_at: rows[i].created_at.clone(),
                },
            );
        }
        i = i + 1;
    }
    assert(markers_view(out@) =~= all.map_values(|m: MarkerView| renamed_marker(m, from@, to@)));
    Ok(out)
}

proof fn lemma_items_moved(t: TablesView, rewrites: Seq<RewriteView>, k: int, n: int)
    requires
        0 <= k <= n,
    ensures
        items_moved(t, rewrites, k) <= items_moved(t, rewrites, n),
    decreases n - k,
{
    if k < n {
        lemma_items_moved(t, rewrites, k, n - 1);
    }
}

/// Rekeys every conversation of the plan, all or nothing. Refused when a
/// target became occupied, is no principal key, or a marker does not belong to
/// the conversation it would follow.
pub fn apply(tables: &mut SessionTables, plan: &ChildSessionPlan) -> (out: Result<
    usize,
    MemoryError,
>)
    requires
        items_moved(old(tables)@, child_rewrites(plan.rewrites@), plan.rewrites@.len() as int)
            <= usize::MAX,
    ensures
        out is Ok <==> forall|k: int|
            0 <= k < plan.rewrites@.len() ==> #[trigger] turn_is_clear(
                old(tables)@,
                child_rewrites(plan.rewrites@),
                k,
            ),
        out matches Ok(moved) ==> moved == items_moved(
            old(tables)@,
            child_rewrites(plan.rewrites@),
            plan.rewrites@.len() as int,
        ) && final(tables)@ == tables_after(
            old(tables)@,
            child_rewrites(plan.rewrites@),
            plan.rewrites@.len() as int,
        ),
        out matches Err(error) ==> {
            &&& *final(tables) == *old(tables)
            &&& exists|k: int|
                0 <= k < plan.rewrites@.len() && !(#[trigger] turn_is_clear(
                    old(tables)@,
                    child_rewrites(plan.rewrites@),
                    k,
                )) && error is Backend && rekey_refusal(
                    tables_after(old(tables)@, child_rewrites(plan.rewrites@), k),
                    child_rewrites(plan.rewrites@)[k],
                ) == Some(error->Backend_0@) && forall|j: int|
                    0 <= j < k ==> #[trigger] turn_is_clear(
                        old(tables)@,
                        child_rewrites(plan.rewrites@),
                        j,
                    )
        },
{
    let ghost before = tables@;
    let ghost rewrites = child_rewrites(plan.rewrites@);
    let ghost n = plan.rewrites@.len() as int;
    if plan.rewrites.len() == 0 {
        return Ok(0);
    }
    let mut items = copy_rows(&tables.items);
    let mut epochs: Vec<EpochRow> = copy_markers(&tables.epochs);
    let mut moved: usize = 0;
    let mut k: usize = 0;
    while k < plan.rewrites.len()
        invariant
            k <= plan.rewrites@.len(),
            n == plan.rewrites@.len(),
            *tables == *old(tables),
            before == tables@,
            rewrites == child_rewrites(plan.rewrites@),
            items_moved(before, rewrites, n) <= usize::MAX,
            rows_view(items@) == tables_after(before, rewrites, k as int).items,
            markers_view(epochs@) == tables_after(before, rewrites, k as int).epochs,
            tables_after(before, rewrites, k as int).schema == before.schema,
            tables_after(before, rewrites, k as int).schema_version == before.schema_version,
            moved == items_moved(before, rewrites, k as int),
            forall|j: int| 0 <= j < k ==> #[trigger] turn_is_clear(before, rewrites, j),
        decreases plan.rewrites@.len() - k,
    {
        let rewrite = &plan.rewrites[k];
        let ghost now = tables_after(before, rewrites, k as int);
        assert(rewrites[k as int] == rewrite@);
        if row_has_key(&items, rewrite.to.as_str()) != 0 {
            let mut text = "refusing child session migration: target '".to_owned();
            text.push_str(rewrite.to.as_str());
            text.push_str("' became occupied after planning");
            assert(!turn_is_clear(before, rewrites, k as int));
            return Err(MemoryError::Backend(text));
        }
        let here: usize = row_has_key(&items, rewrite.from.as_str());
        let target = match Principal::from_storage_name(rewrite.to.as_str()) {
            Some(target) => target,
            None => {
                assert(!turn_is_clear(before, rewrites, k as int));
                return Err(
                    MemoryError::Backend("planned child target is not a principal key".to_owned()),
                );
            },
        };
        let followed = rename_markers(
            &epochs,
            rewrite.from.as_str(),
            rewrite.to.as_str(),
            &target,
        );
        assert(markers_view(epochs@).len() == epochs@.len());
        match followed {
            Err(error) => {
                assert(!turn_is_clear(before, rewrites, k as int));
                return Err(error);
            },
            Ok(next) => {
                epochs = next;
            },
        }
        assert(turn_is_clear(before, rewrites, k as int));
        proof {
            lemma_items_moved(before, rewrites, k + 1, n);
        }
        moved = moved + here;
        items = rename_items(&items, rewrite.from.as_str(), rewrite.to.as_str());
        k = k + 1;
    }
    tables.items = items;
    tables.epochs = epochs;
    assert(tables@ =~= tables_after(before, rewrites, n));
    Ok(moved)
}

fn copy_rows(rows: &Vec<SessionRow>) -> (out: Vec<SessionRow>)
    ensures
        rows_view(out@) == rows_view(rows@),
{
    let mut out: Vec<SessionRow> = Vec::new();
    let mut i: usize = 0;
    while i < rows.len()
        invariant
            i <= rows@.len(),
            out@.len() == i,
            forall|k: int| 0 <= k < i ==> (#[trigger] out@[k])@ == rows@[k]@,
        decreases rows@.len() - i,
    {
        out.push(
            SessionRow {
                key: rows[i].key.clone(),
                ordinal: rows[i].ordinal,
                item: rows[i].item.clone(),
                created_at: rows[i].created_at.clone(),
            },
        );
        i = i + 1;
    }
    assert(rows_view(out@) =~= rows_view(rows@));
    out
}

fn copy_markers(rows: &Vec<EpochRow>) -> (out: Vec<EpochRow>)
    ensures
        markers_view(out@) == markers_view(rows@),
{
    let mut out: Vec<EpochRow> = Vec::new();
    let mut i: usize = 0;
    while i < rows.len()
        invariant
            i <= rows@.len(),
            out@.len() == i,
            forall|k: int| 0 <= k < i ==> (#[trigger] out@[k])@ == rows@[k]@,
        decreases rows@.len() - i,
    {
        out.push(
            EpochRow {
                key: rows[i].key.clone(),
                principal: rows[i].principal.clone(),
                ordinal: rows[i].ordinal,
                created_at: rows[i].created_at.clone(),
            },
        );
        i = i + 1;
    }
    assert(markers_view(out@) =~= markers_view(rows@));
    out
}

/// The report's lines on quarantined conversations.
pub open spec fn quarantine_lines(entries: Seq<QuarantineView>) -> Seq<char>
    decreases entries.len(),
{
    if entries.len() == 0 {
        Seq::empty()
    } else {
        let last = entries.last();
        quarantine_lines(entries.drop_last()) + "  "@ + last.key + " ("@ + decimal(last.items)
            + " item(s)): "@ + last.reason + "\n"@
    }
}

/// What the report says: quarantined conversations first, then what can be
/// rekeyed.
pub open spec fn child_report(rewrites: Seq<RewriteView>, quarantined: Seq<QuarantineView>) -> Seq<
    char,
> {
    (if quarantined.len() > 0 {
        decimal(quarantined.len())
            + " legacy child conversation(s) are quarantined and will NOT be migrated:\n"@
            + quarantine_lines(quarantined) + "\n"@
    } else {
        Seq::empty()
    }) + decimal(rewrites.len()) + " legacy child conversation(s) holding "@ + decimal(
        rewritten_records(rewrites),
    ) + " session item(s) can be rekeyed:\n"@ + super::migrate_sessions::session_lines(rewrites)
}

impl ChildSessionPlan {
    /// Whether there is nothing to rekey and nothing to decide.
    pub fn is_empty(&self) -> (empty: bool)
        ensures
            empty == (self.rewrites@.len() == 0 && self.quarantined@.len() == 0),
    {
        self.rewrites.len() == 0 && self.quarantined.len() == 0
    }

    /// Items across every rewrite.
    pub fn items_to_move(&self) -> (total: usize)
        requires
            rewritten_records(child_rewrites(self.rewrites@)) <= usize::MAX,
        ensures
            total == rewritten_records(child_rewrites(self.rewrites@)),
    {
        let ghost all = child_rewrites(self.rewrites@);
        let mut total: usize = 0;
        let mut i: usize = 0;
        while i < self.rewrites.len()
            invariant
                i <= self.rewrites@.len(),
                all == child_rewrites(self.rewrites@),
                rewritten_records(all) <= usize::MAX,
                total == rewritten_records(all.take(i as int)),
            decreases self.rewrites@.len() - i,
        {
            proof {
                super::migrate::lemma_rewritten_records(all, i + 1);
                assert(all.take(i + 1).drop_last() =~= all.take(i as int));
                assert(all[i as int] == self.rewrites@[i as int]@);
            }
            total = total + self.rewrites[i].items;
            i = i + 1;
        }
        assert(all.take(all.len() as int) =~= all);
        total
    }

    /// The report a dry run prints.
    pub fn report(&self) -> (out: String)
        requires
            rewritten_records(child_rewrites(self.rewrites@)) <= usize::MAX,
        ensures
            out@ == child_report(
                child_rewrites(self.rewrites@),
                quarantine_view(self.quarantined@),
            ),
    {
        let mut out = String::new();
        if self.quarantined.len() > 0 {
            let ghost all = quarantine_view(self.quarantined@);
            push_decimal(&mut out, self.quarantined.len() as u64);
            out.push_str(
                " legacy child conversation(s) are quarantined and will NOT be migrated:\n",
            );
            let ghost lead = out@;
            let mut i: usize = 0;
            assert(lead + quarantine_lines(all.take(0)) =~= lead);
            while i < self.quarantined.len()
                invariant
                    i <= self.quarantined@.len(),
                    all == quarantine_view(self.quarantined@),
                    out@ == lead + quarantine_lines(all.take(i as int)),
                decreases self.quarantined@.len() - i,
            {
                proof {
                    assert(all.take(i + 1).drop_last() =~= all.take(i as int));
                    assert(all.take(i + 1).last() == self.quarantined@[i as int]@);
                }
                let entry = &self.quarantined[i];
                out.push_str("  ");
                out.push_str(entry.key.as_str());
                out.push_str(" (");
                push_decimal(&mut out, entry.items as u64);
                out.push_str(" item(s)): ");
                out.push_str(entry.reason.as_str());
                out.push_str("\n");
                assert(out@ =~= lead + quarantine_lines(all.take(i + 1)));
                i = i + 1;
            }
            assert(all.take(all.len() as int) =~= all);
            out.push_str("\n");
        }
        let ghost rewrites = child_rewrites(self.rewrites@);
        push_decimal(&mut out, self.rewrites.len() as u64);
        out.push_str(" legacy child conversation(s) holding ");
        push_decimal(&mut out, self.items_to_move() as u64);
        out.push_str(" session item(s) can be rekeyed:\n");
        let ghost lead = out@;
        let mut i: usize = 0;
        assert(lead + super::migrate_sessions::session_lines(rewrites.take(0)) =~= lead);
        while i < self.rewrites.len()
            invariant
                i <= self.rewrites@.len(),
                rewrites == child_rewrites(self.rewrites@),
                out@ == lead + super::migrate_sessions::session_lines(rewrites.take(i as int)),
            decreases self.rewrites@.len() - i,
        {
            proof {
                assert(rewrites.take(i + 1).drop_last() =~= rewrites.take(i as int));
                assert(rewrites.take(i + 1).last() == self.rewrites@[i as int]@);
            }
            let rewrite = &self.rewrites[i];
            out.push_str("  ");
            out.push_str(rewrite.from.as_str());
            out.push_str(" -> ");
            out.push_str(rewrite.to.as_str());
            out.push_str(" (");
            push_decimal(&mut out, rewrite.items as u64);
            out.push_str(" item(s))\n");
            assert(out@ =~= lead + super::migrate_sessions::session_lines(rewrites.take(i + 1)));
            i = i + 1;
        }
        assert(rewrites.take(rewrites.len() as int) =~= rewrites);
        assert(out@ =~= child_report(rewrites, quarantine_view(self.quarantined@)));
        out
    }
}

proof fn lemma_quarantine_line(entries: Seq<QuarantineView>, i: int) -> (rest: Seq<char>)
    requires
        0 <= i < entries.len(),
    ensures
        quarantine_lines(entries) == quarantine_lines(entries.take(i)) + ("  "@ + entries[i].key + " ("@ + decimal(entries[i].items) + " item(s)): "@ + entries[i].reason + "\n"@) + rest,
    decreases entries.len(),
{
    let line = "  "@ + entries[i].key + " ("@ + decimal(entries[i].items) + " item(s)): "@ + entries[i].reason + "\n"@;
    if i == entries.len() - 1 {
        assert(entries.take(i) =~= entries.drop_last());
        assert(quarantine_lines(entries) =~= quarantine_lines(entries.take(i)) + line + Seq::empty());
        Seq::empty()
    } else {
        let shorter = entries.drop_last();
        let rest = lemma_quarantine_line(shorter, i);
        assert(shorter.take(i) =~= entries.take(i));
        let last = entries.last();
        let more = rest + "  "@ + last.key + " ("@ + decimal(last.items) + " item(s)): "@ + last.reason + "\n"@;
        assert(quarantine_lines(entries) =~= quarantine_lines(entries.take(i)) + line + more);
        more
    }
}

/// A report names every conversation that is left, with the reason, and every
/// one that can be rekeyed, with its new key.
pub proof fn a_child_report_names_every_conversation(
    rewrites: Seq<RewriteView>,
    quarantined: Seq<QuarantineView>,
    i: int,
    q: int,
)
    ensures
        0 <= i < rewrites.len() ==> holds(
            child_report(rewrites, quarantined),
            "  "@ + rewrites[i].from + " -> "@ + rewrites[i].to + " ("@ + decimal(
                rewrites[i].records,
            ) + " item(s))\n"@,
        ),
        0 <= q < quarantined.len() ==> holds(
            child_report(rewrites, quarantined),
            "  "@ + quarantined[q].key + " ("@ + decimal(quarantined[q].items) + " item(s)): "@
                + quarantined[q].reason + "\n"@,
        ),
{
    lemma_held_lines(rewrites, i, quarantined, q);
    let lead = decimal(quarantined.len())
        + " legacy child conversation(s) are quarantined and will NOT be migrated:\n"@;
    let first = if quarantined.len() > 0 {
        lead + quarantine_lines(quarantined) + "\n"@
    } else {
        Seq::empty()
    };
    let opening = decimal(rewrites.len()) + " legacy child conversation(s) holding "@ + decimal(
        rewritten_records(rewrites),
    ) + " session item(s) can be rekeyed:\n"@;
    let body = super::migrate_sessions::session_lines(rewrites);
    let none = Seq::<char>::empty();
    let whole = child_report(rewrites, quarantined);
    assert(whole =~= (first + opening) + body + none);
    if 0 <= i < rewrites.len() {
        a_part_holds_for_the_whole(
            first + opening,
            body,
            none,
            "  "@ + rewrites[i].from + " -> "@ + rewrites[i].to + " ("@ + decimal(
                rewrites[i].records,
            ) + " item(s))\n"@,
        );
    }
    if 0 <= q < quarantined.len() {
        let line = "  "@ + quarantined[q].key + " ("@ + decimal(quarantined[q].items)
            + " item(s)): "@ + quarantined[q].reason + "\n"@;
        a_part_holds_for_the_whole(lead, quarantine_lines(quarantined), "\n"@, line);
        a_part_holds_for_the_whole(none, first, opening + body, line);
        assert(whole =~= none + first + (opening + body));
    }
}

proof fn lemma_held_lines(
    rewrites: Seq<RewriteView>,
    i: int,
    quarantined: Seq<QuarantineView>,
    q: int,
)
    ensures
        0 <= i < rewrites.len() ==> holds(
            super::migrate_sessions::session_lines(rewrites),
            "  "@ + rewrites[i].from + " -> "@ + rewrites[i].to + " ("@ + decimal(
                rewrites[i].records,
            ) + " item(s))\n"@,
        ),
        0 <= q < quarantined.len() ==> holds(
            quarantine_lines(quarantined),
            "  "@ + quarantined[q].key + " ("@ + decimal(quarantined[q].items) + " item(s)): "@
                + quarantined[q].reason + "\n"@,
        ),
{
    if 0 <= i < rewrites.len() {
        let rest = super::migrate_sessions::lemma_session_line(rewrites, i);
        let line = "  "@ + rewrites[i].from + " -> "@ + rewrites[i].to + " ("@ + decimal(
            rewrites[i].records,
        ) + " item(s))\n"@;
        let body = super::migrate_sessions::session_lines(rewrites);
        assert(body == super::migrate_sessions::session_lines(rewrites.take(i)) + line + rest);
        holding_is_standing_between(body, line);
    }
    if 0 <= q < quarantined.len() {
        let rest = lemma_quarantine_line(quarantined, q);
        let line = "  "@ + quarantined[q].key + " ("@ + decimal(quarantined[q].items)
            + " item(s)): "@ + quarantined[q].reason + "\n"@;
        assert(quarantine_lines(quarantined) == quarantine_lines(quarantined.take(q)) + line
            + rest);
        holding_is_standing_between(quarantine_lines(quarantined), line);
    }
}

proof fn lemma_agreement(sources: Seq<SourceRowView>, n: int)
    requires
        0 <= n <= sources.len(),
    ensures
        agreement(sources, n) is Nothing <==> forall|i: int|
            0 <= i < n ==> #[trigger] sources[i] == SourceRowView::Absent,
        agreement(sources, n) matches Agreement::Source(source) ==> (exists|i: int|
            0 <= i < n && #[trigger] sources[i] == SourceRowView::Present(source)) && (forall|
            i: int,
        |
            0 <= i < n ==> #[trigger] sources[i] == SourceRowView::Absent || sources[i]
                == SourceRowView::Present(source)),
        agreement(sources, n) is Refused ==> (exists|i: int|
            0 <= i < n && #[trigger] sources[i] is Malformed) || (exists|i: int, j: int|
            0 <= i < n && 0 <= j < n && #[trigger] sources[i] is Present && #[trigger] sources[j]
                is Present && sources[i] != sources[j]),
    decreases n,
{
    if n > 0 {
        lemma_agreement(sources, n - 1);
        let before = agreement(sources, n - 1);
        if let Agreement::Source(source) = before {
            let i = choose|i: int|
                0 <= i < n - 1 && #[trigger] sources[i] == SourceRowView::Present(source);
            assert(sources[i] == SourceRowView::Present(source));
            assert(sources[n - 1] == sources[n - 1]);
        }
        if before is Refused {
            if exists|i: int| 0 <= i < n - 1 && #[trigger] sources[i] is Malformed {
                let i = choose|i: int| 0 <= i < n - 1 && #[trigger] sources[i] is Malformed;
                assert(sources[i] is Malformed);
            } else {
                let (i, j) = choose|i: int, j: int|
                    0 <= i < n - 1 && 0 <= j < n - 1 && #[trigger] sources[i] is Present
                        && #[trigger] sources[j] is Present && sources[i] != sources[j];
                assert(sources[i] is Present && sources[j] is Present);
            }
        }
        assert(sources[n - 1] == sources[n - 1]);
    }
}

/// A key has the source its rows name: all that name one name the same, at least
/// one does, and none is unreadable; otherwise it has none.
pub proof fn a_source_is_what_all_rows_agree_on(
    sources: Seq<SourceRowView>,
    source: SourceIdentity,
)
    ensures
        source_of(sources) == Ok::<_, Seq<char>>(source) <==> (exists|i: int|
            0 <= i < sources.len() && #[trigger] sources[i] == SourceRowView::Present(source)) && (
        forall|i: int|
            0 <= i < sources.len() ==> #[trigger] sources[i] == SourceRowView::Absent || sources[i]
                == SourceRowView::Present(source)),
{
    let n = sources.len() as int;
    lemma_agreement(sources, n);
    if (exists|i: int|
        0 <= i < sources.len() && #[trigger] sources[i] == SourceRowView::Present(source)) && (
    forall|i: int|
        0 <= i < sources.len() ==> #[trigger] sources[i] == SourceRowView::Absent || sources[i]
            == SourceRowView::Present(source)) {
        let i = choose|i: int|
            0 <= i < sources.len() && #[trigger] sources[i] == SourceRowView::Present(source);
        assert(sources[i] != SourceRowView::Absent);
    }
}

/// A delegated conversation moves where its own source says: to the versioned
/// conversation of the same agent and channel, unless that is taken. One that is
/// versioned already, that has a sender, or that was not delegated is left
/// alone.
pub proof fn a_child_moves_where_its_source_says(
    key: ChildKeyView,
    keys: Seq<Seq<char>>,
    id: Identity,
    source: SourceIdentity,
    conversation: Seq<char>,
    target: Identity,
)
    requires
        key.key == id.name(),
    ensures
        id.sender is Some || !begins(id.channel, "subagent:"@) || begins(
            id.conversation,
            "child.v1."@,
        ) ==> child_verdict(key, keys) is Skip,
        id.sender is None && begins(id.channel, "subagent:"@) && !begins(
            id.conversation,
            "child.v1."@,
        ) ==> {
            &&& !(child_verdict(key, keys) is Skip)
            &&& source_of(key.sources) matches Err(why) ==> child_verdict(key, keys)
                == ChildVerdict::Quarantine(why)
            &&& source_of(key.sources) == Ok::<_, Seq<char>>(source) && (source.child_agent
                != id.agent || id.channel != "subagent:"@ + source.child_agent
                || source.conversation_id is None) ==> child_verdict(key, keys) is Quarantine
            &&& source_of(key.sources) == Ok::<_, Seq<char>>(source) && source.child_agent
                == id.agent && id.channel == "subagent:"@ + source.child_agent
                && source.conversation_id == Some(conversation) && target.agent == id.agent
                && target.channel == id.channel && target.conversation == conversation
                && target.sender is None ==> (if keys.contains(target.name()) {
                child_verdict(key, keys) is Quarantine
            } else {
                child_verdict(key, keys) == ChildVerdict::Candidate(target.name())
            })
        },
{
    assert(is_storage_name(key.key));
    storage_name_is_injective(named(key.key), id);
    assert(named(key.key) == id);
    if target.agent == id.agent && target.channel == id.channel && target.conversation
        == conversation && target.sender is None {
        assert(target == (Identity {
            agent: id.agent,
            channel: id.channel,
            conversation,
            sender: None,
        }));
    }
}

proof fn lemma_one_claim(keys: Seq<ChildKeyView>, target: Seq<char>, m: int, n: int)
    requires
        0 <= n <= keys.len(),
        0 <= m < keys.len(),
        child_verdict(keys[m], key_texts(keys)) == ChildVerdict::Candidate(target),
        forall|j: int|
            0 <= j < keys.len() && j != m ==> child_verdict(#[trigger] keys[j], key_texts(keys))
                != ChildVerdict::Candidate(target),
    ensures
        claims(keys, target, n) == if m < n {
            1nat
        } else {
            0nat
        },
    decreases n,
{
    if n > 0 {
        lemma_one_claim(keys, target, m, n - 1);
        if n - 1 != m {
            assert(child_verdict(keys[n - 1], key_texts(keys)) != ChildVerdict::Candidate(target));
        }
    }
}

/// What nobody contests is rekeyed: a delegated conversation that is the only
/// one to claim its target moves there, with its own items.
pub proof fn what_nobody_contests_is_rekeyed(
    keys: Seq<ChildKeyView>,
    target: Seq<char>,
    m: int,
    n: int,
)
    requires
        0 <= m < n <= keys.len(),
        child_verdict(keys[m], key_texts(keys)) == ChildVerdict::Candidate(target),
        forall|j: int|
            0 <= j < keys.len() && j != m ==> child_verdict(#[trigger] keys[j], key_texts(keys))
                != ChildVerdict::Candidate(target),
    ensures
        children_planned(keys, n).0.contains(
            RewriteView { from: keys[m].key, to: target, records: keys[m].items },
        ),
    decreases n,
{
    lemma_one_claim(keys, target, m, keys.len() as int);
    let moved = RewriteView { from: keys[m].key, to: target, records: keys[m].items };
    let before = children_planned(keys, n - 1).0;
    let after = children_planned(keys, n).0;
    if m == n - 1 {
        assert(after[before.len() as int] == moved);
    } else {
        what_nobody_contests_is_rekeyed(keys, target, m, n - 1);
        let k = choose|k: int| 0 <= k < before.len() && before[k] == moved;
        assert(after[k] == moved);
    }
}

/// What a key's items say is collected from its own items, all of them and in
/// order.
pub proof fn what_items_say_is_collected(rows: Seq<StoredItemView>, key: Seq<char>, n: int)
    requires
        0 <= n <= rows.len(),
    ensures
        sources_under(rows, key, n) == rows.take(n).filter(
            |row: StoredItemView| row.key == key,
        ).map_values(|row: StoredItemView| row.source),
    decreases n,
{
    reveal(Seq::filter);
    let own = |row: StoredItemView| row.key == key;
    let said = |row: StoredItemView| row.source;
    if n > 0 {
        what_items_say_is_collected(rows, key, n - 1);
        assert(rows.take(n).drop_last() =~= rows.take(n - 1));
        let before = rows.take(n - 1).filter(own);
        if rows[n - 1].key == key {
            assert(before.push(rows[n - 1]).map_values(said) =~= before.map_values(said).push(
                rows[n - 1].source,
            ));
        }
    }
    assert(sources_under(rows, key, n) =~= rows.take(n).filter(own).map_values(said));
}

/// Rekeying changes keys alone: an item keeps its ordinal, its content and its
/// time, and what has another key stays as it is.
pub proof fn rekeying_changes_keys_alone(t: TablesView, r: RewriteView, i: int)
    ensures
        rekeyed(t, r).items.len() == t.items.len(),
        rekeyed(t, r).epochs.len() == t.epochs.len(),
        rekeyed(t, r).schema == t.schema,
        rekeyed(t, r).schema_version == t.schema_version,
        0 <= i < t.items.len() ==> {
            &&& rekeyed(t, r).items[i].ordinal == t.items[i].ordinal
            &&& rekeyed(t, r).items[i].item == t.items[i].item
            &&& rekeyed(t, r).items[i].created_at == t.items[i].created_at
            &&& rekeyed(t, r).items[i].key == if t.items[i].key == r.from {
                r.to
            } else {
                t.items[i].key
            }
        },
        0 <= i < t.epochs.len() && t.epochs[i].key != r.from ==> rekeyed(t, r).epochs[i]
            == t.epochs[i],
        0 <= i < t.epochs.len() ==> rekeyed(t, r).epochs[i].ordinal == t.epochs[i].ordinal
            && rekeyed(t, r).epochs[i].created_at == t.epochs[i].created_at,
{
}

/// A marker follows its conversation for the same participant.
pub proof fn a_marker_stays_its_participants(
    m: MarkerView,
    from: Seq<char>,
    owner: Identity,
    target: Identity,
)
    requires
        m.key == from,
        m.principal == owner.name(),
    ensures
        ({
            let moved = renamed_marker(m, from, target.name());
            &&& moved.key == target.name()
            &&& moved.principal == (Identity {
                agent: owner.agent,
                channel: owner.channel,
                conversation: target.conversation,
                sender: owner.sender,
            }).name()
        }),
{
    assert(is_storage_name(target.name()) && is_storage_name(m.principal));
    storage_name_is_injective(named(target.name()), target);
    storage_name_is_injective(named(m.principal), owner);
}

/// A rewrite is refused exactly when it cannot be applied.
pub proof fn only_what_cannot_be_applied_is_refused(t: TablesView, r: RewriteView)
    ensures
        rekey_refusal(t, r) is None <==> can_rekey(t, r),
        row_keys(t.items).contains(r.to) ==> !can_rekey(t, r),
{
    lemma_no_refusal(t.epochs, r.from, t.epochs.len() as int);
}

proof fn lemma_no_refusal(markers: Seq<MarkerView>, from: Seq<char>, n: int)
    requires
        0 <= n <= markers.len(),
    ensures
        markers_refusal(markers, from, n) is None <==> forall|i: int|
            0 <= i < n ==> marker_is_sound(#[trigger] markers[i], from),
    decreases n,
{
    if n > 0 {
        lemma_no_refusal(markers, from, n - 1);
        if markers_refusal(markers, from, n) is None {
            assert(marker_is_sound(markers[n - 1], from));
        }
        if forall|i: int| 0 <= i < n ==> marker_is_sound(#[trigger] markers[i], from) {
            assert(marker_is_sound(markers[n - 1], from));
        }
    }
}

} // verus!
