//! Moving memory written before principals onto principal-keyed namespaces.
//!
//! A plan is made first and applied second. What the stored rows cannot decide
//! is reported and left alone; a rewrite whose target holds rows is refused,
//! so two owners are never merged.

use super::accounting::MemoryError;
use crate::identity::{component, encode_component, Identity, Principal};
use crate::lists::{
    contains_text, copy_texts, increasing, insert_sorted, joined, lemma_precedes_total, pieces,
    precedes, split,
};
use crate::text::{
    a_part_holds_for_the_whole, chars_of, decimal, holding_is_standing_between, holds,
    push_decimal, same, texts,
};
use vstd::prelude::*;

verus! {

/// Schema version written once the identity migration has run.
pub const IDENTITY_SCHEMA_VERSION: i64 = 2;

/// Version of a database that predates a recorded version.
pub const PRE_PRINCIPAL_SCHEMA_VERSION: i64 = 1;

/// The most readings of a component that are listed.
pub const MAX_CANDIDATES: usize = 8;

/// What the operator has to supply, because the stored rows cannot.
pub struct MigrationSettings {
    /// The agent legacy rows belong to.
    pub agent: String,
    /// The channel legacy conversation-owned rows arrived on.
    pub channel: String,
    /// Read an ambiguous component as it stands: `a_b` was always `a_b`.
    pub assume_literal_underscores: bool,
}

/// One namespace the migration would rewrite.
#[derive(Debug, PartialEq, Eq)]
pub struct Rewrite {
    pub from: String,
    pub to: String,
    pub records: usize,
}

/// What a [`Rewrite`] stands for.
#[verifier::ext_equal]
pub struct RewriteView {
    pub from: Seq<char>,
    pub to: Seq<char>,
    pub records: nat,
}

impl View for Rewrite {
    type V = RewriteView;

    open spec fn view(&self) -> RewriteView {
        RewriteView { from: self.from@, to: self.to@, records: self.records as nat }
    }
}

/// The rewrites of a list.
pub open spec fn rewrites_view(rewrites: Seq<Rewrite>) -> Seq<RewriteView> {
    rewrites.map_values(|r: Rewrite| r@)
}

/// Why a namespace is left alone.
#[derive(Debug, PartialEq, Eq)]
pub enum BlockedReason {
    /// The component could have been several things. They are listed, up to a
    /// cap.
    AmbiguousSeparator { candidates: Vec<String> },
    /// The namespace this would become already holds rows.
    TargetOccupied { target: String },
    /// Two namespaces would become the same one.
    TargetContested { target: String, other: String },
    /// The namespace is not in the five-part shape.
    Unrecognised,
}

/// What a [`BlockedReason`] stands for.
pub enum ReasonView {
    AmbiguousSeparator { candidates: Seq<Seq<char>> },
    TargetOccupied { target: Seq<char> },
    TargetContested { target: Seq<char>, other: Seq<char> },
    Unrecognised,
}

impl View for BlockedReason {
    type V = ReasonView;

    open spec fn view(&self) -> ReasonView {
        match *self {
            BlockedReason::AmbiguousSeparator { candidates } => ReasonView::AmbiguousSeparator {
                candidates: texts(candidates@),
            },
            BlockedReason::TargetOccupied { target } => ReasonView::TargetOccupied {
                target: target@,
            },
            BlockedReason::TargetContested { target, other } => ReasonView::TargetContested {
                target: target@,
                other: other@,
            },
            BlockedReason::Unrecognised => ReasonView::Unrecognised,
        }
    }
}

/// One namespace the migration refuses to touch, and why.
#[derive(Debug, PartialEq, Eq)]
pub struct Blocked {
    pub namespace: String,
    pub records: usize,
    pub reason: BlockedReason,
}

/// What a [`Blocked`] stands for.
#[verifier::ext_equal]
pub struct BlockedView {
    pub namespace: Seq<char>,
    pub records: nat,
    pub reason: ReasonView,
}

impl View for Blocked {
    type V = BlockedView;

    open spec fn view(&self) -> BlockedView {
        BlockedView {
            namespace: self.namespace@,
            records: self.records as nat,
            reason: self.reason@,
        }
    }
}

/// The blocked namespaces of a list.
pub open spec fn blocked_view(blocked: Seq<Blocked>) -> Seq<BlockedView> {
    blocked.map_values(|b: Blocked| b@)
}

/// What a migration would do, before it does any of it.
pub struct MigrationPlan {
    pub rewrites: Vec<Rewrite>,
    pub blocked: Vec<Blocked>,
    /// Namespaces already keyed by a principal, left alone.
    pub already_migrated: usize,
}

/// What a [`MigrationPlan`] stands for.
#[verifier::ext_equal]
pub struct PlanView {
    pub rewrites: Seq<RewriteView>,
    pub blocked: Seq<BlockedView>,
    pub already: nat,
}

impl View for MigrationPlan {
    type V = PlanView;

    open spec fn view(&self) -> PlanView {
        PlanView {
            rewrites: rewrites_view(self.rewrites@),
            blocked: blocked_view(self.blocked@),
            already: self.already_migrated as nat,
        }
    }
}

/// Each prefix continued by one character of the stored form: as it is, and an
/// underscore also as the slash it may have been.
pub open spec fn expanded(prefixes: Seq<Seq<char>>, c: char) -> Seq<Seq<char>>
    decreases prefixes.len(),
{
    if prefixes.len() == 0 {
        Seq::empty()
    } else {
        let rest = expanded(prefixes.drop_last(), c);
        if c == '_' {
            rest.push(prefixes.last().push(c)).push(prefixes.last().push('/'))
        } else {
            rest.push(prefixes.last().push(c))
        }
    }
}

/// A list cut to the most readings that are listed.
pub open spec fn capped(list: Seq<Seq<char>>) -> Seq<Seq<char>> {
    if list.len() > MAX_CANDIDATES {
        list.take(MAX_CANDIDATES as int)
    } else {
        list
    }
}

/// The readings of the first `n` characters of a stored component.
pub open spec fn readings(stored: Seq<char>, n: int) -> Seq<Seq<char>>
    decreases n,
{
    if n <= 0 {
        seq![Seq::empty()]
    } else {
        capped(expanded(readings(stored, n - 1), stored[n - 1]))
    }
}

/// The listed originals of a stored component.
pub open spec fn originals(stored: Seq<char>) -> Seq<Seq<char>> {
    readings(stored, stored.len() as int)
}

/// Whether `original` was stored as `stored` by an encoder that turned slashes
/// into underscores and kept everything else.
pub open spec fn is_reading(original: Seq<char>, stored: Seq<char>) -> bool {
    &&& original.len() == stored.len()
    &&& forall|i: int|
        0 <= i < stored.len() ==> #[trigger] original[i] == stored[i] || (original[i] == '/'
            && stored[i] == '_')
}

/// How many underscores a text holds.
pub open spec fn underscores(s: Seq<char>) -> nat
    decreases s.len(),
{
    if s.len() == 0 {
        0
    } else {
        underscores(s.drop_last()) + if s.last() == '_' {
            1nat
        } else {
            0nat
        }
    }
}

/// Two to the power of a number.
pub open spec fn doublings(n: nat) -> nat
    decreases n,
{
    if n == 0 {
        1
    } else {
        2 * doublings((n - 1) as nat)
    }
}

/// A number of readings, or the cap where there are more.
pub open spec fn at_most_cap(n: nat) -> nat {
    if n <= MAX_CANDIDATES {
        n
    } else {
        MAX_CANDIDATES as nat
    }
}

proof fn lemma_expanded(prefixes: Seq<Seq<char>>, c: char)
    ensures
        c != '_' ==> expanded(prefixes, c).len() == prefixes.len() && forall|i: int|
            0 <= i < prefixes.len() ==> #[trigger] expanded(prefixes, c)[i] == prefixes[i].push(c),
        c == '_' ==> expanded(prefixes, c).len() == 2 * prefixes.len() && forall|k: int|
            0 <= k < 2 * prefixes.len() ==> #[trigger] expanded(prefixes, c)[k] == prefixes[k / 2].push(
                if k % 2 == 0 {
                    '_'
                } else {
                    '/'
                },
            ),
    decreases prefixes.len(),
{
    if prefixes.len() > 0 {
        lemma_expanded(prefixes.drop_last(), c);
    }
}

/// Where a reading of a prefix came from, and what follows it.
proof fn lemma_reading_step(stored: Seq<char>, n: int, k: int)
    requires
        0 < n <= stored.len(),
        0 <= k < readings(stored, n).len(),
    ensures
        ({
            let i = if stored[n - 1] == '_' {
                k / 2
            } else {
                k
            };
            let last = if stored[n - 1] == '_' && k % 2 == 1 {
                '/'
            } else {
                stored[n - 1]
            };
            &&& 0 <= i < readings(stored, n - 1).len()
            &&& readings(stored, n)[k] == readings(stored, n - 1)[i].push(last)
        }),
{
    lemma_expanded(readings(stored, n - 1), stored[n - 1]);
    let grown = expanded(readings(stored, n - 1), stored[n - 1]);
    assert(readings(stored, n)[k] == grown[k]);
}

proof fn lemma_readings_sound(stored: Seq<char>, n: int, k: int)
    requires
        0 <= n <= stored.len(),
        0 <= k < readings(stored, n).len(),
    ensures
        is_reading(readings(stored, n)[k], stored.take(n)),
    decreases n,
{
    if n > 0 {
        lemma_reading_step(stored, n, k);
        let i = if stored[n - 1] == '_' {
            k / 2
        } else {
            k
        };
        lemma_readings_sound(stored, n - 1, i);
        let head = readings(stored, n - 1)[i];
        let out = readings(stored, n)[k];
        let now = stored.take(n);
        assert forall|j: int| 0 <= j < now.len() implies #[trigger] out[j] == now[j] || (out[j]
            == '/' && now[j] == '_') by {
            if j < n - 1 {
                assert(out[j] == head[j]);
                assert(stored.take(n - 1)[j] == now[j]);
            }
        }
    }
}

proof fn lemma_readings_count(stored: Seq<char>, n: int)
    requires
        0 <= n <= stored.len(),
    ensures
        1 <= readings(stored, n).len() <= MAX_CANDIDATES,
        readings(stored, n)[0] == stored.take(n),
        underscores(stored.take(n)) == 0 <==> readings(stored, n).len() == 1,
        readings(stored, n).len() == at_most_cap(doublings(underscores(stored.take(n)))),
    decreases n,
{
    if n == 0 {
        assert(stored.take(0) =~= Seq::empty());
    } else {
        lemma_readings_count(stored, n - 1);
        lemma_expanded(readings(stored, n - 1), stored[n - 1]);
        let now = stored.take(n);
        assert(now.drop_last() =~= stored.take(n - 1));
        assert(now =~= stored.take(n - 1).push(stored[n - 1]));
        lemma_reading_step(stored, n, 0);
    }
}

proof fn lemma_readings_complete(stored: Seq<char>, n: int, o: Seq<char>) -> (at: int)
    requires
        0 <= n <= stored.len(),
        is_reading(o, stored.take(n)),
        doublings(underscores(stored.take(n))) <= MAX_CANDIDATES,
    ensures
        0 <= at < readings(stored, n).len(),
        readings(stored, n)[at] == o,
    decreases n,
{
    if n == 0 {
        assert(o =~= Seq::empty());
        0
    } else {
        let now = stored.take(n);
        let before = stored.take(n - 1);
        let head = o.drop_last();
        assert(now.drop_last() =~= before);
        assert(is_reading(head, before)) by {
            assert forall|j: int| 0 <= j < before.len() implies #[trigger] head[j] == before[j] || (
            head[j] == '/' && before[j] == '_') by {
                assert(o[j] == head[j]);
                assert(before[j] == now[j]);
            }
        }
        lemma_readings_count(stored, n);
        lemma_readings_count(stored, n - 1);
        let i = lemma_readings_complete(stored, n - 1, head);
        lemma_expanded(readings(stored, n - 1), stored[n - 1]);
        assert(o[n - 1] == now[n - 1] || (o[n - 1] == '/' && now[n - 1] == '_'));
        let at = if stored[n - 1] == '_' {
            if o[n - 1] == '_' {
                2 * i
            } else {
                2 * i + 1
            }
        } else {
            i
        };
        lemma_reading_step(stored, n, at);
        assert(o =~= head.push(o[n - 1]));
        at
    }
}

proof fn lemma_readings_differ(stored: Seq<char>, n: int, j: int, k: int)
    requires
        0 <= n <= stored.len(),
        0 <= j < k < readings(stored, n).len(),
    ensures
        readings(stored, n)[j] != readings(stored, n)[k],
    decreases n,
{
    if n > 0 {
        lemma_reading_step(stored, n, j);
        lemma_reading_step(stored, n, k);
        let before = readings(stored, n - 1);
        let (a, b) = (readings(stored, n)[j], readings(stored, n)[k]);
        let halved = stored[n - 1] == '_';
        let (i, m) = if halved {
            (j / 2, k / 2)
        } else {
            (j, k)
        };
        if i < m {
            lemma_readings_differ(stored, n - 1, i, m);
            assert(a.drop_last() =~= before[i]);
            assert(b.drop_last() =~= before[m]);
        } else {
            assert(a.last() != b.last());
        }
    }
}

/// Every listed original is a reading of the stored component, the stored
/// form itself comes first, none is listed twice, and there are twice as many
/// with every underscore, up to the cap: exactly one exactly when the component
/// holds none. When all readings fit the cap, all are listed.
pub proof fn originals_are_readings(stored: Seq<char>)
    ensures
        1 <= originals(stored).len() <= MAX_CANDIDATES,
        originals(stored)[0] == stored,
        forall|k: int|
            0 <= k < originals(stored).len() ==> is_reading(#[trigger] originals(stored)[k], stored),
        originals(stored).no_duplicates(),
        originals(stored).len() == at_most_cap(doublings(underscores(stored))),
        originals(stored).len() == 1 <==> underscores(stored) == 0,
        doublings(underscores(stored)) <= MAX_CANDIDATES ==> forall|o: Seq<char>|
            is_reading(o, stored) ==> #[trigger] originals(stored).contains(o),
{
    let n = stored.len() as int;
    assert(stored.take(n) =~= stored);
    lemma_readings_count(stored, n);
    assert forall|k: int| 0 <= k < originals(stored).len() implies is_reading(
        #[trigger] originals(stored)[k],
        stored,
    ) by {
        lemma_readings_sound(stored, n, k);
    }
    assert forall|j: int, k: int|
        0 <= j < originals(stored).len() && 0 <= k < originals(stored).len() && j != k implies
        originals(stored)[j] != originals(stored)[k] by {
        if j < k {
            lemma_readings_differ(stored, n, j, k);
        } else {
            lemma_readings_differ(stored, n, k, j);
        }
    }
    if doublings(underscores(stored)) <= MAX_CANDIDATES {
        assert forall|o: Seq<char>| is_reading(o, stored) implies #[trigger] originals(
            stored,
        ).contains(o) by {
            let at = lemma_readings_complete(stored, n, o);
            assert(originals(stored)[at] == o);
        }
    }
}

/// Every original a legacy component could have had, up to a cap.
pub fn legacy_originals(encoded: &str) -> (out: Vec<String>)
    ensures
        texts(out@) == originals(encoded@),
{
    let chars = chars_of(encoded);
    let mut candidates: Vec<String> = Vec::new();
    candidates.push(String::new());
    assert(texts(candidates@) =~= readings(encoded@, 0));
    let mut i: usize = 0;
    while i < chars.len()
        invariant
            i <= chars@.len(),
            chars@ == encoded@,
            texts(candidates@) == readings(encoded@, i as int),
        decreases chars@.len() - i,
    {
        let c = chars[i];
        let ghost prefixes = texts(candidates@);
        let mut grown: Vec<String> = Vec::new();
        let mut k: usize = 0;
        assert(texts(grown@) =~= expanded(prefixes.take(0), c));
        while k < candidates.len()
            invariant
                k <= candidates@.len(),
                prefixes == texts(candidates@),
                texts(grown@) == expanded(prefixes.take(k as int), c),
            decreases candidates@.len() - k,
        {
            proof {
                assert(prefixes.take(k + 1).drop_last() =~= prefixes.take(k as int));
                assert(prefixes.take(k + 1).last() == candidates@[k as int]@);
            }
            let ghost before = texts(grown@);
            let mut same_char = candidates[k].clone();
            same_char.push(c);
            let ghost one = same_char@;
            grown.push(same_char);
            assert(texts(grown@) =~= before.push(one));
            if c == '_' {
                let mut slash = candidates[k].clone();
                slash.push('/');
                let ghost two = slash@;
                grown.push(slash);
                assert(texts(grown@) =~= before.push(one).push(two));
            }
            k = k + 1;
        }
        assert(prefixes.take(prefixes.len() as int) =~= prefixes);
        let ghost full = texts(grown@);
        if grown.len() > MAX_CANDIDATES {
            grown.truncate(MAX_CANDIDATES);
            assert(texts(grown@) =~= full.take(MAX_CANDIDATES as int));
        }
        candidates = grown;
        i = i + 1;
    }
    candidates
}

/// What the migration makes of one namespace on its own.
pub enum Verdict {
    /// Not the five-part shape.
    Unrecognised,
    /// Already principal-keyed, or already what it would become.
    Already,
    /// Several readings, none of them chosen.
    Ambiguous(Seq<Seq<char>>),
    /// Becomes this.
    Becomes(Seq<char>),
}

/// Whether some principal has a storage name.
pub open spec fn is_storage_name(s: Seq<char>) -> bool {
    exists|id: Identity| #[trigger] id.name() == s
}

/// The five fields of a namespace, put together.
pub open spec fn namespace_text(
    visibility: Seq<char>,
    kind: Seq<char>,
    owner: Seq<char>,
    store: Seq<char>,
    domain: Seq<char>,
) -> Seq<char> {
    visibility + "/"@ + kind + "/"@ + owner + "/"@ + store + "/"@ + domain
}

/// How the migration encodes an owner.
pub open spec fn encoded_owner(
    kind: Seq<char>,
    original: Seq<char>,
    agent: Seq<char>,
    channel: Seq<char>,
) -> Seq<char> {
    if kind == "conversation"@ {
        (Identity { agent, channel, conversation: original, sender: None }).name()
    } else {
        component(original)
    }
}

/// What becomes of a namespace, other namespaces aside.
pub open spec fn verdict(
    namespace: Seq<char>,
    agent: Seq<char>,
    channel: Seq<char>,
    literal: bool,
) -> Verdict {
    let parts = pieces(namespace, '/');
    if parts.len() != 5 {
        Verdict::Unrecognised
    } else if parts[1] == "conversation"@ && is_storage_name(parts[2]) {
        Verdict::Already
    } else if originals(parts[2]).len() != 1 && !literal {
        Verdict::Ambiguous(originals(parts[2]))
    } else {
        let original = if originals(parts[2]).len() == 1 {
            originals(parts[2])[0]
        } else {
            parts[2]
        };
        let target = namespace_text(
            parts[0],
            parts[1],
            encoded_owner(parts[1], original, agent, channel),
            parts[3],
            parts[4],
        );
        if target == namespace {
            Verdict::Already
        } else {
            Verdict::Becomes(target)
        }
    }
}

/// How many rows a namespace holds.
pub struct NamespaceCount {
    pub namespace: String,
    pub records: usize,
}

/// What a [`NamespaceCount`] stands for.
#[verifier::ext_equal]
pub struct CountView {
    pub namespace: Seq<char>,
    pub records: nat,
}

impl View for NamespaceCount {
    type V = CountView;

    open spec fn view(&self) -> CountView {
        CountView { namespace: self.namespace@, records: self.records as nat }
    }
}

/// The counts of a list.
pub open spec fn counts_view(counts: Seq<NamespaceCount>) -> Seq<CountView> {
    counts.map_values(|c: NamespaceCount| c@)
}

/// The namespaces of a list of counts.
pub open spec fn names_of(counts: Seq<CountView>) -> Seq<Seq<char>> {
    counts.map_values(|c: CountView| c.namespace)
}

/// The namespace that claimed a target, when one did.
pub open spec fn claimant(rewrites: Seq<RewriteView>, target: Seq<char>) -> Option<Seq<char>>
    decreases rewrites.len(),
{
    if rewrites.len() == 0 {
        None
    } else if rewrites[0].to == target {
        Some(rewrites[0].from)
    } else {
        claimant(rewrites.drop_first(), target)
    }
}

/// A plan extended by one namespace.
pub open spec fn extended(
    plan: PlanView,
    count: CountView,
    names: Seq<Seq<char>>,
    agent: Seq<char>,
    channel: Seq<char>,
    literal: bool,
) -> PlanView {
    let block = |reason: ReasonView|
        PlanView {
            blocked: plan.blocked.push(
                BlockedView { namespace: count.namespace, records: count.records, reason },
            ),
            ..plan
        };
    match verdict(count.namespace, agent, channel, literal) {
        Verdict::Unrecognised => block(ReasonView::Unrecognised),
        Verdict::Already => PlanView { already: plan.already + 1, ..plan },
        Verdict::Ambiguous(candidates) => block(ReasonView::AmbiguousSeparator { candidates }),
        Verdict::Becomes(target) => if names.contains(target) {
            block(ReasonView::TargetOccupied { target })
        } else {
            match claimant(plan.rewrites, target) {
                Some(other) => block(ReasonView::TargetContested { target, other }),
                None => PlanView {
                    rewrites: plan.rewrites.push(
                        RewriteView { from: count.namespace, to: target, records: count.records },
                    ),
                    ..plan
                },
            }
        },
    }
}

/// The plan for the first `n` namespaces.
pub open spec fn planned(
    counts: Seq<CountView>,
    agent: Seq<char>,
    channel: Seq<char>,
    literal: bool,
    n: int,
) -> PlanView
    decreases n,
{
    if n <= 0 {
        PlanView { rewrites: Seq::empty(), blocked: Seq::empty(), already: 0 }
    } else {
        extended(
            planned(counts, agent, channel, literal, n - 1),
            counts[n - 1],
            names_of(counts),
            agent,
            channel,
            literal,
        )
    }
}

fn push_field(out: &mut String, field: &str)
    ensures
        final(out)@ == old(out)@ + "/"@ + field@,
{
    out.push_str("/");
    out.push_str(field);
}

enum Decision {
    Block(BlockedReason),
    Already,
    Becomes(String),
}

spec fn decides(decision: Decision, verdict: Verdict) -> bool {
    match verdict {
        Verdict::Unrecognised => decision matches Decision::Block(reason) && reason@
            == ReasonView::Unrecognised,
        Verdict::Already => decision is Already,
        Verdict::Ambiguous(candidates) => decision matches Decision::Block(reason) && reason@ == (
        ReasonView::AmbiguousSeparator { candidates }),
        Verdict::Becomes(target) => decision matches Decision::Becomes(text) && text@ == target,
    }
}

fn decide(namespace: &str, settings: &MigrationSettings) -> (decision: Decision)
    ensures
        decides(
            decision,
            verdict(
                namespace@,
                settings.agent@,
                settings.channel@,
                settings.assume_literal_underscores,
            ),
        ),
{
    let parts = split(namespace, '/');
    let ghost fields = pieces(namespace@, '/');
    assert(texts(parts@).len() == parts@.len());
    if parts.len() != 5 {
        return Decision::Block(BlockedReason::Unrecognised);
    }
    proof {
        assert(fields[0] == parts@[0]@);
        assert(fields[1] == parts@[1]@);
        assert(fields[2] == parts@[2]@);
        assert(fields[3] == parts@[3]@);
        assert(fields[4] == parts@[4]@);
        originals_are_readings(fields[2]);
    }
    let conversation = same(parts[1].as_str(), "conversation");
    if conversation && Principal::from_storage_name(parts[2].as_str()).is_some() {
        return Decision::Already;
    }
    let candidates = legacy_originals(parts[2].as_str());
    assert(texts(candidates@).len() == candidates@.len());
    if candidates.len() != 1 && !settings.assume_literal_underscores {
        return Decision::Block(BlockedReason::AmbiguousSeparator { candidates });
    }
    let original = if candidates.len() == 1 {
        assert(texts(candidates@)[0] == candidates@[0]@);
        candidates[0].clone()
    } else {
        parts[2].clone()
    };
    let owner = if conversation {
        Principal::conversation(
            settings.agent.as_str(),
            settings.channel.as_str(),
            original.as_str(),
        ).storage_name()
    } else {
        encode_component(original.as_str())
    };
    let mut target = parts[0].clone();
    push_field(&mut target, parts[1].as_str());
    push_field(&mut target, owner.as_str());
    push_field(&mut target, parts[3].as_str());
    push_field(&mut target, parts[4].as_str());
    if same(target.as_str(), namespace) {
        Decision::Already
    } else {
        Decision::Becomes(target)
    }
}

fn find_claimant(rewrites: &Vec<Rewrite>, target: &str) -> (out: Option<String>)
    ensures
        out matches Some(from) ==> claimant(rewrites_view(rewrites@), target@) == Some(from@),
        out is None ==> claimant(rewrites_view(rewrites@), target@) is None,
{
    let ghost all = rewrites_view(rewrites@);
    let mut i: usize = 0;
    assert(all.skip(0) =~= all);
    while i < rewrites.len()
        invariant
            i <= rewrites@.len(),
            all == rewrites_view(rewrites@),
            claimant(all, target@) == claimant(all.skip(i as int), target@),
        decreases rewrites@.len() - i,
    {
        assert(all.skip(i as int)[0] == rewrites@[i as int]@);
        assert(all.skip(i as int).drop_first() =~= all.skip(i + 1));
        if same(rewrites[i].to.as_str(), target) {
            return Some(rewrites[i].from.clone());
        }
        i = i + 1;
    }
    None
}

fn has_namespace(counts: &Vec<NamespaceCount>, name: &str) -> (found: bool)
    ensures
        found == names_of(counts_view(counts@)).contains(name@),
{
    let ghost names = names_of(counts_view(counts@));
    let mut i: usize = 0;
    while i < counts.len()
        invariant
            i <= counts@.len(),
            names == names_of(counts_view(counts@)),
            forall|k: int| 0 <= k < i ==> #[trigger] names[k] != name@,
        decreases counts@.len() - i,
    {
        assert(names[i as int] == counts@[i as int].namespace@);
        if same(counts[i].namespace.as_str(), name) {
            return true;
        }
        i = i + 1;
    }
    false
}

fn extend_plan(
    plan: &mut MigrationPlan,
    counts: &Vec<NamespaceCount>,
    i: usize,
    settings: &MigrationSettings,
)
    requires
        i < counts@.len(),
        old(plan).already_migrated <= i,
    ensures
        final(plan)@ == extended(
            old(plan)@,
            counts@[i as int]@,
            names_of(counts_view(counts@)),
            settings.agent@,
            settings.channel@,
            settings.assume_literal_underscores,
        ),
        final(plan).already_migrated <= i + 1,
{
    let ghost before = plan@;
    let total: usize = counts.len();
    assert(i < total);
    let namespace = counts[i].namespace.clone();
    let records: usize = counts[i].records;
    let reason = match decide(namespace.as_str(), settings) {
        Decision::Already => {
            plan.already_migrated = plan.already_migrated + 1;
            assert(plan@ =~= PlanView { already: before.already + 1, ..before });
            return;
        },
        Decision::Block(reason) => reason,
        Decision::Becomes(target) => {
            if has_namespace(counts, target.as_str()) {
                BlockedReason::TargetOccupied { target }
            } else {
                match find_claimant(&plan.rewrites, target.as_str()) {
                    Some(other) => BlockedReason::TargetContested { target, other },
                    None => {
                        let rewrite = Rewrite { from: namespace, to: target, records };
                        let ghost view = rewrite@;
                        plan.rewrites.push(rewrite);
                        assert(plan@.rewrites =~= before.rewrites.push(view));
                        return;
                    },
                }
            }
        },
    };
    let blocked = Blocked { namespace, records, reason };
    let ghost view = blocked@;
    plan.blocked.push(blocked);
    assert(plan@.blocked =~= before.blocked.push(view));
}

/// Works out what the migration would do to these namespaces.
pub fn plan_counts(counts: &Vec<NamespaceCount>, settings: &MigrationSettings) -> (plan: MigrationPlan)
    ensures
        plan@ == planned(
            counts_view(counts@),
            settings.agent@,
            settings.channel@,
            settings.assume_literal_underscores,
            counts@.len() as int,
        ),
{
    let mut plan = MigrationPlan {
        rewrites: Vec::new(),
        blocked: Vec::new(),
        already_migrated: 0,
    };
    let ghost all = counts_view(counts@);
    let mut i: usize = 0;
    assert(plan@ =~= planned(
        all,
        settings.agent@,
        settings.channel@,
        settings.assume_literal_underscores,
        0,
    ));
    while i < counts.len()
        invariant
            i <= counts@.len(),
            all == counts_view(counts@),
            plan.already_migrated <= i,
            plan@ == planned(
                all,
                settings.agent@,
                settings.channel@,
                settings.assume_literal_underscores,
                i as int,
            ),
        decreases counts@.len() - i,
    {
        assert(all[i as int] == counts@[i as int]@);
        extend_plan(&mut plan, counts, i, settings);
        i = i + 1;
    }
    plan
}

/// The namespace of every stored record, of every row of the full-text index
/// and of every row of the access log, and the recorded schema version.
pub struct MemoryRows {
    pub namespaces: Vec<String>,
    pub full_text: Vec<String>,
    pub access_log: Vec<String>,
    pub schema_version: i64,
}

/// How many rows a namespace holds.
pub open spec fn rows_in(rows: Seq<Seq<char>>, namespace: Seq<char>) -> nat
    decreases rows.len(),
{
    if rows.len() == 0 {
        0
    } else {
        rows_in(rows.drop_last(), namespace) + if rows.last() == namespace {
            1nat
        } else {
            0nat
        }
    }
}

/// Whether counts are the tally of rows: every namespace that holds a row,
/// once, in text order, with the number of its rows.
pub open spec fn is_tally(counts: Seq<CountView>, rows: Seq<Seq<char>>) -> bool {
    &&& increasing(names_of(counts))
    &&& names_of(counts).to_set() == rows.to_set()
    &&& forall|i: int|
        0 <= i < counts.len() ==> (#[trigger] counts[i]).records == rows_in(
            rows,
            counts[i].namespace,
        )
}

fn count_rows(rows: &Vec<String>, namespace: &str) -> (count: usize)
    ensures
        count == rows_in(texts(rows@), namespace@),
{
    let ghost all = texts(rows@);
    let mut count: usize = 0;
    let mut i: usize = 0;
    while i < rows.len()
        invariant
            i <= rows@.len(),
            count <= i,
            all == texts(rows@),
            count == rows_in(all.take(i as int), namespace@),
        decreases rows@.len() - i,
    {
        proof {
            assert(all.take(i + 1).drop_last() =~= all.take(i as int));
            assert(all.take(i + 1).last() == rows@[i as int]@);
        }
        if same(rows[i].as_str(), namespace) {
            count = count + 1;
        }
        i = i + 1;
    }
    assert(all.take(all.len() as int) =~= all);
    count
}

/// The namespaces in use and how many rows each holds, in text order.
pub fn namespace_counts(rows: &Vec<String>) -> (counts: Vec<NamespaceCount>)
    ensures
        is_tally(counts_view(counts@), texts(rows@)),
{
    let ghost all = texts(rows@);
    let mut names: Vec<String> = Vec::new();
    let mut i: usize = 0;
    assert(texts(names@).to_set() =~= all.take(0).to_set());
    while i < rows.len()
        invariant
            i <= rows@.len(),
            all == texts(rows@),
            increasing(texts(names@)),
            texts(names@).to_set() == all.take(i as int).to_set(),
        decreases rows@.len() - i,
    {
        insert_sorted(&mut names, rows[i].as_str());
        proof {
            assert(all.take(i + 1) =~= all.take(i as int).push(all[i as int]));
            crate::lists::lemma_push_members(all.take(i as int), all[i as int]);
        }
        i = i + 1;
    }
    assert(all.take(all.len() as int) =~= all);
    let mut counts: Vec<NamespaceCount> = Vec::new();
    let mut k: usize = 0;
    while k < names.len()
        invariant
            k <= names@.len(),
            all == texts(rows@),
            counts@.len() == k,
            forall|j: int|
                0 <= j < k ==> (#[trigger] counts@[j])@.namespace == names@[j]@
                    && counts@[j]@.records == rows_in(all, names@[j]@),
        decreases names@.len() - k,
    {
        let records: usize = count_rows(rows, names[k].as_str());
        counts.push(NamespaceCount { namespace: names[k].clone(), records });
        k = k + 1;
    }
    assert(names_of(counts_view(counts@)) =~= texts(names@));
    counts
}

/// Works out what the migration would do. Reads only.
pub fn plan(rows: &MemoryRows, settings: &MigrationSettings) -> (plan: MigrationPlan)
    ensures
        exists|counts: Seq<CountView>| #[trigger]
            is_tally(counts, texts(rows.namespaces@)) && plan@ == planned(
                counts,
                settings.agent@,
                settings.channel@,
                settings.assume_literal_underscores,
                counts.len() as int,
            ),
{
    let counts = namespace_counts(&rows.namespaces);
    let plan = plan_counts(&counts, settings);
    assert(counts_view(counts@).len() == counts@.len());
    plan
}

/// The schema version this database is at.
pub fn schema_version(rows: &MemoryRows) -> (version: i64)
    ensures
        version == rows.schema_version,
{
    rows.schema_version
}

/// Rows with one namespace renamed.
pub open spec fn renamed(rows: Seq<Seq<char>>, from: Seq<char>, to: Seq<char>) -> Seq<Seq<char>> {
    rows.map_values(
        |n: Seq<char>|
            if n == from {
                to
            } else {
                n
            },
    )
}

/// The rows after the first `n` rewrites.
pub open spec fn rows_after(rows: Seq<Seq<char>>, rewrites: Seq<RewriteView>, n: int) -> Seq<
    Seq<char>,
>
    decreases n,
{
    if n <= 0 {
        rows
    } else {
        renamed(rows_after(rows, rewrites, n - 1), rewrites[n - 1].from, rewrites[n - 1].to)
    }
}

/// How many rows the first `n` rewrites move.
pub open spec fn moved_by(rows: Seq<Seq<char>>, rewrites: Seq<RewriteView>, n: int) -> nat
    decreases n,
{
    if n <= 0 {
        0
    } else {
        moved_by(rows, rewrites, n - 1) + rows_in(
            rows_after(rows, rewrites, n - 1),
            rewrites[n - 1].from,
        )
    }
}

/// Whether rewrite `k` finds its target empty when its turn comes.
pub open spec fn target_is_free(rows: Seq<Seq<char>>, rewrites: Seq<RewriteView>, k: int) -> bool {
    !rows_after(rows, rewrites, k).contains(rewrites[k].to)
}

/// Why an apply is refused.
pub open spec fn stale_message(rewrite: RewriteView) -> Seq<char> {
    "refusing to migrate '"@ + rewrite.from + "': '"@ + rewrite.to
        + "' gained records since the plan was made"@
}

proof fn lemma_renamed_rows(rows: Seq<Seq<char>>, from: Seq<char>, to: Seq<char>)
    requires
        !rows.contains(to),
    ensures
        forall|i: int, j: int|
            0 <= i < rows.len() && 0 <= j < rows.len() && #[trigger] rows[i] != #[trigger] rows[j]
                ==> renamed(rows, from, to)[i] != renamed(rows, from, to)[j],
{
    assert forall|i: int, j: int|
        0 <= i < rows.len() && 0 <= j < rows.len() && #[trigger] rows[i] != #[trigger] rows[j]
        implies renamed(rows, from, to)[i] != renamed(rows, from, to)[j] by {
        assert(rows[i] != to && rows[j] != to);
    }
}

proof fn lemma_rows_after_len(rows: Seq<Seq<char>>, rewrites: Seq<RewriteView>, n: int)
    ensures
        rows_after(rows, rewrites, n).len() == rows.len(),
    decreases n,
{
    if n > 0 {
        lemma_rows_after_len(rows, rewrites, n - 1);
    }
}

/// An apply never merges two owners: rows in different namespaces before are
/// in different namespaces after, as long as every target was free.
pub proof fn apply_never_merges(
    rows: Seq<Seq<char>>,
    rewrites: Seq<RewriteView>,
    n: int,
    i: int,
    j: int,
)
    requires
        0 <= n <= rewrites.len(),
        forall|k: int| 0 <= k < n ==> #[trigger] target_is_free(rows, rewrites, k),
        0 <= i < rows.len(),
        0 <= j < rows.len(),
        rows[i] != rows[j],
    ensures
        rows_after(rows, rewrites, n)[i] != rows_after(rows, rewrites, n)[j],
    decreases n,
{
    if n > 0 {
        apply_never_merges(rows, rewrites, n - 1, i, j);
        lemma_rows_after_len(rows, rewrites, n - 1);
        assert(target_is_free(rows, rewrites, n - 1));
        lemma_renamed_rows(
            rows_after(rows, rewrites, n - 1),
            rewrites[n - 1].from,
            rewrites[n - 1].to,
        );
    }
}

/// The rewrites of a plan have distinct targets, none of which is a namespace
/// in use.
pub proof fn planned_targets_are_free_and_distinct(
    counts: Seq<CountView>,
    agent: Seq<char>,
    channel: Seq<char>,
    literal: bool,
    n: int,
)
    requires
        0 <= n <= counts.len(),
    ensures
        forall|k: int|
            0 <= k < planned(counts, agent, channel, literal, n).rewrites.len()
                ==> !names_of(counts).contains(
                (#[trigger] planned(counts, agent, channel, literal, n).rewrites[k]).to,
            ),
        forall|j: int, k: int|
            0 <= j < k < planned(counts, agent, channel, literal, n).rewrites.len() ==> (
            #[trigger] planned(counts, agent, channel, literal, n).rewrites[j]).to != (
            #[trigger] planned(counts, agent, channel, literal, n).rewrites[k]).to,
    decreases n,
{
    if n > 0 {
        planned_targets_are_free_and_distinct(counts, agent, channel, literal, n - 1);
        let before = planned(counts, agent, channel, literal, n - 1);
        let after = planned(counts, agent, channel, literal, n);
        if after.rewrites.len() > before.rewrites.len() {
            let target = after.rewrites.last().to;
            assert(after.rewrites =~= before.rewrites.push(after.rewrites.last()));
            lemma_no_claimant(before.rewrites, target);
        } else {
            assert(after.rewrites == before.rewrites);
        }
    }
}

proof fn lemma_no_claimant(rewrites: Seq<RewriteView>, target: Seq<char>)
    requires
        claimant(rewrites, target) is None,
    ensures
        forall|k: int| 0 <= k < rewrites.len() ==> (#[trigger] rewrites[k]).to != target,
    decreases rewrites.len(),
{
    if rewrites.len() > 0 {
        lemma_no_claimant(rewrites.drop_first(), target);
        assert forall|k: int| 0 <= k < rewrites.len() implies (#[trigger] rewrites[k]).to
            != target by {
            if k > 0 {
                assert(rewrites.drop_first()[k - 1] == rewrites[k]);
            }
        }
    }
}

proof fn lemma_rows_after_members(
    rows: Seq<Seq<char>>,
    rewrites: Seq<RewriteView>,
    n: int,
    name: Seq<char>,
)
    requires
        0 <= n <= rewrites.len(),
        rows_after(rows, rewrites, n).contains(name),
    ensures
        rows.contains(name) || exists|k: int| 0 <= k < n && (#[trigger] rewrites[k]).to == name,
    decreases n,
{
    if n > 0 {
        let before = rows_after(rows, rewrites, n - 1);
        let after = rows_after(rows, rewrites, n);
        let i = choose|i: int| 0 <= i < after.len() && after[i] == name;
        lemma_rows_after_len(rows, rewrites, n - 1);
        if before[i] == rewrites[n - 1].from {
            assert(rewrites[n - 1].to == name);
        } else {
            assert(before[i] == name);
            lemma_rows_after_members(rows, rewrites, n - 1, name);
        }
    }
}

/// A plan applied to the very rows it was made from is never refused.
pub proof fn fresh_plan_applies(
    rows: Seq<Seq<char>>,
    counts: Seq<CountView>,
    agent: Seq<char>,
    channel: Seq<char>,
    literal: bool,
    k: int,
)
    requires
        is_tally(counts, rows),
        0 <= k < planned(counts, agent, channel, literal, counts.len() as int).rewrites.len(),
    ensures
        target_is_free(
            rows,
            planned(counts, agent, channel, literal, counts.len() as int).rewrites,
            k,
        ),
{
    let n = counts.len() as int;
    let rewrites = planned(counts, agent, channel, literal, n).rewrites;
    planned_targets_are_free_and_distinct(counts, agent, channel, literal, n);
    if rows_after(rows, rewrites, k).contains(rewrites[k].to) {
        lemma_rows_after_members(rows, rewrites, k, rewrites[k].to);
        if rows.contains(rewrites[k].to) {
            assert(rows.to_set().contains(rewrites[k].to));
            assert(names_of(counts).to_set().contains(rewrites[k].to));
        }
    }
}

/// Where a namespace is after the first `n` rewrites.
pub open spec fn landed(name: Seq<char>, rewrites: Seq<RewriteView>, n: int) -> Seq<char>
    decreases n,
{
    if n <= 0 {
        name
    } else if landed(name, rewrites, n - 1) == rewrites[n - 1].from {
        rewrites[n - 1].to
    } else {
        landed(name, rewrites, n - 1)
    }
}

/// Rows follow their namespace, whichever table they are in: where a row lands
/// depends on its namespace alone.
pub proof fn rows_follow_their_namespace(
    rows: Seq<Seq<char>>,
    rewrites: Seq<RewriteView>,
    n: int,
    i: int,
)
    requires
        0 <= n <= rewrites.len(),
        0 <= i < rows.len(),
    ensures
        rows_after(rows, rewrites, n).len() == rows.len(),
        rows_after(rows, rewrites, n)[i] == landed(rows[i], rewrites, n),
    decreases n,
{
    if n > 0 {
        rows_follow_their_namespace(rows, rewrites, n - 1, i);
    }
}

proof fn lemma_untouched(name: Seq<char>, rewrites: Seq<RewriteView>, n: int)
    requires
        0 <= n <= rewrites.len(),
        forall|k: int| 0 <= k < n ==> (#[trigger] rewrites[k]).from != name,
    ensures
        landed(name, rewrites, n) == name,
    decreases n,
{
    if n > 0 {
        lemma_untouched(name, rewrites, n - 1);
    }
}

proof fn lemma_moved_once(rewrites: Seq<RewriteView>, k: int, n: int)
    requires
        0 <= k < n <= rewrites.len(),
        forall|j: int| 0 <= j < n && j != k ==> (#[trigger] rewrites[j]).from != rewrites[k].from,
        forall|j: int| 0 <= j < n ==> (#[trigger] rewrites[j]).from != rewrites[k].to,
    ensures
        landed(rewrites[k].from, rewrites, n) == rewrites[k].to,
    decreases n,
{
    if k + 1 == n {
        lemma_untouched(rewrites[k].from, rewrites, k);
    } else {
        lemma_moved_once(rewrites, k, n - 1);
    }
}

proof fn lemma_plan_sources(
    counts: Seq<CountView>,
    agent: Seq<char>,
    channel: Seq<char>,
    literal: bool,
    n: int,
)
    requires
        0 <= n <= counts.len(),
        increasing(names_of(counts)),
    ensures
        ({
            let plan = planned(counts, agent, channel, literal, n);
            &&& forall|k: int|
                0 <= k < plan.rewrites.len() ==> names_of(counts).take(n).contains(
                    (#[trigger] plan.rewrites[k]).from,
                )
            &&& forall|b: int|
                0 <= b < plan.blocked.len() ==> names_of(counts).take(n).contains(
                    (#[trigger] plan.blocked[b]).namespace,
                )
            &&& forall|j: int, k: int|
                0 <= j < plan.rewrites.len() && 0 <= k < plan.rewrites.len() && j != k ==> (
                #[trigger] plan.rewrites[j]).from != (#[trigger] plan.rewrites[k]).from
            &&& forall|b: int, k: int|
                0 <= b < plan.blocked.len() && 0 <= k < plan.rewrites.len() ==> (
                #[trigger] plan.blocked[b]).namespace != (#[trigger] plan.rewrites[k]).from
        }),
    decreases n,
{
    if n > 0 {
        lemma_plan_sources(counts, agent, channel, literal, n - 1);
        let names = names_of(counts);
        let before = planned(counts, agent, channel, literal, n - 1);
        let after = planned(counts, agent, channel, literal, n);
        let name = counts[n - 1].namespace;
        assert(names[n - 1] == name);
        let earlier = names.take(n - 1);
        assert(names.take(n) =~= earlier.push(name));
        assert(names.take(n)[n - 1] == name);
        assert forall|x: Seq<char>| #[trigger] earlier.contains(x) implies x != name
            && names.take(n).contains(x) by {
            let m = choose|m: int| 0 <= m < earlier.len() && earlier[m] == x;
            assert(names.take(n)[m] == x);
            assert(precedes(names[m], names[n - 1]));
            lemma_precedes_total(x, name);
        }
        assert forall|k: int| 0 <= k < before.rewrites.len() implies (
        #[trigger] before.rewrites[k]).from != name by {
            assert(earlier.contains(before.rewrites[k].from));
        }
        assert forall|b: int| 0 <= b < before.blocked.len() implies (
        #[trigger] before.blocked[b]).namespace != name by {
            assert(earlier.contains(before.blocked[b].namespace));
        }
        if after.rewrites.len() > before.rewrites.len() {
            assert(after.rewrites.drop_last() =~= before.rewrites);
            assert(after.rewrites.last().from == name);
            assert(after.blocked == before.blocked);
        } else if after.blocked.len() > before.blocked.len() {
            assert(after.blocked.drop_last() =~= before.blocked);
            assert(after.blocked.last().namespace == name);
            assert(after.rewrites == before.rewrites);
        }
        assert forall|k: int| 0 <= k < after.rewrites.len() implies if k < before.rewrites.len() {
            #[trigger] after.rewrites[k] == before.rewrites[k]
        } else {
            after.rewrites[k].from == name
        } by {}
        assert forall|b: int| 0 <= b < after.blocked.len() implies if b < before.blocked.len() {
            #[trigger] after.blocked[b] == before.blocked[b]
        } else {
            after.blocked[b].namespace == name
        } by {}
    }
}

/// A plan moves a namespace whole: wherever rows carry the name of a planned
/// rewrite they end under its target, and what the plan leaves alone, a
/// blocked namespace above all, keeps its name.
pub proof fn a_plan_moves_whole_namespaces(
    counts: Seq<CountView>,
    agent: Seq<char>,
    channel: Seq<char>,
    literal: bool,
)
    requires
        increasing(names_of(counts)),
    ensures
        ({
            let plan = planned(counts, agent, channel, literal, counts.len() as int);
            let n = plan.rewrites.len() as int;
            &&& forall|k: int|
                0 <= k < n ==> landed((#[trigger] plan.rewrites[k]).from, plan.rewrites, n)
                    == plan.rewrites[k].to
            &&& forall|b: int|
                0 <= b < plan.blocked.len() ==> landed(
                    (#[trigger] plan.blocked[b]).namespace,
                    plan.rewrites,
                    n,
                ) == plan.blocked[b].namespace
            &&& forall|name: Seq<char>|
                (forall|k: int| 0 <= k < n ==> (#[trigger] plan.rewrites[k]).from != name)
                    ==> #[trigger] landed(name, plan.rewrites, n) == name
        }),
{
    let c = counts.len() as int;
    let plan = planned(counts, agent, channel, literal, c);
    let n = plan.rewrites.len() as int;
    lemma_plan_sources(counts, agent, channel, literal, c);
    planned_targets_are_free_and_distinct(counts, agent, channel, literal, c);
    assert(names_of(counts).take(c) =~= names_of(counts));
    assert forall|k: int| 0 <= k < n implies landed(
        (#[trigger] plan.rewrites[k]).from,
        plan.rewrites,
        n,
    ) == plan.rewrites[k].to by {
        assert forall|j: int| 0 <= j < n implies (#[trigger] plan.rewrites[j]).from
            != plan.rewrites[k].to by {
            assert(names_of(counts).contains(plan.rewrites[j].from));
        }
        lemma_moved_once(plan.rewrites, k, n);
    }
    assert forall|b: int| 0 <= b < plan.blocked.len() implies landed(
        (#[trigger] plan.blocked[b]).namespace,
        plan.rewrites,
        n,
    ) == plan.blocked[b].namespace by {
        lemma_untouched(plan.blocked[b].namespace, plan.rewrites, n);
    }
    assert forall|name: Seq<char>|
        (forall|k: int| 0 <= k < n ==> (#[trigger] plan.rewrites[k]).from != name) implies
        #[trigger] landed(name, plan.rewrites, n) == name by {
        lemma_untouched(name, plan.rewrites, n);
    }
}

/// Carrying out a plan moves every table alike, be it the records, the
/// full-text index or the access log: a row under a planned rewrite's name ends
/// under its target, and every other row, a blocked one above all, stays.
pub proof fn a_plan_carries_every_table(
    table: Seq<Seq<char>>,
    counts: Seq<CountView>,
    agent: Seq<char>,
    channel: Seq<char>,
    literal: bool,
    i: int,
)
    requires
        increasing(names_of(counts)),
        0 <= i < table.len(),
    ensures
        ({
            let plan = planned(counts, agent, channel, literal, counts.len() as int);
            let n = plan.rewrites.len() as int;
            let after = rows_after(table, plan.rewrites, n);
            &&& after.len() == table.len()
            &&& forall|k: int|
                0 <= k < n && (#[trigger] plan.rewrites[k]).from == table[i] ==> after[i]
                    == plan.rewrites[k].to
            &&& forall|b: int|
                0 <= b < plan.blocked.len() && (#[trigger] plan.blocked[b]).namespace == table[i]
                    ==> after[i] == table[i]
            &&& (forall|k: int| 0 <= k < n ==> (#[trigger] plan.rewrites[k]).from != table[i])
                ==> after[i] == table[i]
        }),
{
    let plan = planned(counts, agent, channel, literal, counts.len() as int);
    a_plan_moves_whole_namespaces(counts, agent, channel, literal);
    rows_follow_their_namespace(table, plan.rewrites, plan.rewrites.len() as int, i);
}

proof fn lemma_landing(name: Seq<char>, rewrites: Seq<RewriteView>, n: int)
    requires
        0 <= n <= rewrites.len(),
    ensures
        landed(name, rewrites, n) == name || exists|j: int|
            0 <= j < n && (#[trigger] rewrites[j]).to == landed(name, rewrites, n),
    decreases n,
{
    if n > 0 {
        lemma_landing(name, rewrites, n - 1);
        if landed(name, rewrites, n - 1) == rewrites[n - 1].from {
            assert(rewrites[n - 1].to == landed(name, rewrites, n));
        }
    }
}

proof fn lemma_rows_in_agree(a: Seq<Seq<char>>, b: Seq<Seq<char>>, name: Seq<char>)
    requires
        a.len() == b.len(),
        forall|i: int| 0 <= i < a.len() ==> (#[trigger] a[i] == name <==> #[trigger] b[i] == name),
    ensures
        rows_in(a, name) == rows_in(b, name),
    decreases a.len(),
{
    if a.len() > 0 {
        lemma_rows_in_agree(a.drop_last(), b.drop_last(), name);
    }
}

proof fn lemma_plan_records(
    counts: Seq<CountView>,
    agent: Seq<char>,
    channel: Seq<char>,
    literal: bool,
    n: int,
    k: int,
) -> (m: int)
    requires
        0 <= n <= counts.len(),
        0 <= k < planned(counts, agent, channel, literal, n).rewrites.len(),
    ensures
        0 <= m < n,
        counts[m].namespace == planned(counts, agent, channel, literal, n).rewrites[k].from,
        counts[m].records == planned(counts, agent, channel, literal, n).rewrites[k].records,
    decreases n,
{
    if k < planned(counts, agent, channel, literal, n - 1).rewrites.len() {
        lemma_plan_records(counts, agent, channel, literal, n - 1, k)
    } else {
        n - 1
    }
}

/// A plan says how much it moves: carried out on the very rows it was made
/// from, it moves as many records as its rewrites count.
pub proof fn a_fresh_plan_moves_what_it_counts(
    rows: Seq<Seq<char>>,
    counts: Seq<CountView>,
    agent: Seq<char>,
    channel: Seq<char>,
    literal: bool,
    k: int,
)
    requires
        is_tally(counts, rows),
        0 <= k <= planned(counts, agent, channel, literal, counts.len() as int).rewrites.len(),
    ensures
        ({
            let rewrites = planned(counts, agent, channel, literal, counts.len() as int).rewrites;
            moved_by(rows, rewrites, k) == rewritten_records(rewrites.take(k))
        }),
    decreases k,
{
    let c = counts.len() as int;
    let rewrites = planned(counts, agent, channel, literal, c).rewrites;
    if k > 0 {
        a_fresh_plan_moves_what_it_counts(rows, counts, agent, channel, literal, k - 1);
        lemma_plan_sources(counts, agent, channel, literal, c);
        planned_targets_are_free_and_distinct(counts, agent, channel, literal, c);
        assert(names_of(counts).take(c) =~= names_of(counts));
        let from = rewrites[k - 1].from;
        let m = lemma_plan_records(counts, agent, channel, literal, c, k - 1);
        let before = rows_after(rows, rewrites, k - 1);
        lemma_rows_after_len(rows, rewrites, k - 1);
        assert(names_of(counts).contains(from));
        assert forall|i: int| 0 <= i < rows.len() implies (#[trigger] before[i] == from
            <==> #[trigger] rows[i] == from) by {
            rows_follow_their_namespace(rows, rewrites, k - 1, i);
            if rows[i] == from {
                lemma_untouched(from, rewrites, k - 1);
            } else {
                lemma_landing(rows[i], rewrites, k - 1);
            }
        }
        lemma_rows_in_agree(before, rows, from);
        assert(counts[m].records == rows_in(rows, from));
        assert(rewrites.take(k).drop_last() =~= rewrites.take(k - 1));
        assert(rewrites.take(k).last() == rewrites[k - 1]);
    } else {
        assert(rewrites.take(0) =~= Seq::empty());
    }
}

/// Every namespace is accounted for: rewritten, blocked, or already migrated.
pub proof fn plan_accounts_for_every_namespace(
    counts: Seq<CountView>,
    agent: Seq<char>,
    channel: Seq<char>,
    literal: bool,
    n: int,
)
    requires
        0 <= n <= counts.len(),
    ensures
        ({
            let plan = planned(counts, agent, channel, literal, n);
            plan.rewrites.len() + plan.blocked.len() + plan.already == n
        }),
    decreases n,
{
    if n > 0 {
        plan_accounts_for_every_namespace(counts, agent, channel, literal, n - 1);
    }
}

/// How often a plan lists a namespace: to be rewritten, or as blocked.
pub open spec fn listings(plan: PlanView, name: Seq<char>) -> nat {
    rows_in(plan.rewrites.map_values(|r: RewriteView| r.from), name) + rows_in(
        plan.blocked.map_values(|b: BlockedView| b.namespace),
        name,
    )
}

/// One more row counts once, under its own namespace.
pub proof fn lemma_rows_in_push(rows: Seq<Seq<char>>, name: Seq<char>, other: Seq<char>)
    ensures
        rows_in(rows.push(other), name) == rows_in(rows, name) + if other == name {
            1nat
        } else {
            0nat
        },
{
    assert(rows.push(other).drop_last() =~= rows);
}

proof fn lemma_extended_listings(
    plan: PlanView,
    count: CountView,
    names: Seq<Seq<char>>,
    agent: Seq<char>,
    channel: Seq<char>,
    literal: bool,
    name: Seq<char>,
)
    ensures
        listings(extended(plan, count, names, agent, channel, literal), name) == listings(plan, name)
            + if count.namespace == name && !(verdict(name, agent, channel, literal) is Already) {
            1nat
        } else {
            0nat
        },
{
    let after = extended(plan, count, names, agent, channel, literal);
    let froms = plan.rewrites.map_values(|r: RewriteView| r.from);
    let blocked = plan.blocked.map_values(|b: BlockedView| b.namespace);
    lemma_rows_in_push(froms, name, count.namespace);
    lemma_rows_in_push(blocked, name, count.namespace);
    if after.rewrites.len() > plan.rewrites.len() {
        assert(after.rewrites.map_values(|r: RewriteView| r.from) =~= froms.push(count.namespace));
    } else if after.blocked.len() > plan.blocked.len() {
        assert(after.blocked.map_values(|b: BlockedView| b.namespace) =~= blocked.push(
            count.namespace,
        ));
    }
}

proof fn lemma_listings(
    counts: Seq<CountView>,
    agent: Seq<char>,
    channel: Seq<char>,
    literal: bool,
    n: int,
    m: int,
)
    requires
        0 <= n <= counts.len(),
        0 <= m < counts.len(),
        increasing(names_of(counts)),
    ensures
        listings(planned(counts, agent, channel, literal, n), counts[m].namespace) == if m < n
            && !(verdict(counts[m].namespace, agent, channel, literal) is Already) {
            1nat
        } else {
            0nat
        },
    decreases n,
{
    if n > 0 {
        lemma_listings(counts, agent, channel, literal, n - 1, m);
        lemma_extended_listings(
            planned(counts, agent, channel, literal, n - 1),
            counts[n - 1],
            names_of(counts),
            agent,
            channel,
            literal,
            counts[m].namespace,
        );
        let names = names_of(counts);
        assert(names[m] == counts[m].namespace && names[n - 1] == counts[n - 1].namespace);
        lemma_precedes_total(names[m], names[n - 1]);
        lemma_precedes_total(names[n - 1], names[m]);
        if m != n - 1 {
            assert(names[m] != names[n - 1]) by {
                if m < n - 1 {
                    assert(precedes(names[m], names[n - 1]));
                } else {
                    assert(precedes(names[n - 1], names[m]));
                }
            }
        }
    } else {
        let none = planned(counts, agent, channel, literal, 0);
        assert(none.rewrites.map_values(|r: RewriteView| r.from) =~= Seq::empty());
        assert(none.blocked.map_values(|b: BlockedView| b.namespace) =~= Seq::empty());
    }
}

proof fn lemma_plan_blocked(
    counts: Seq<CountView>,
    agent: Seq<char>,
    channel: Seq<char>,
    literal: bool,
    n: int,
    b: int,
) -> (m: int)
    requires
        0 <= n <= counts.len(),
        0 <= b < planned(counts, agent, channel, literal, n).blocked.len(),
    ensures
        0 <= m < n,
        counts[m].namespace == planned(counts, agent, channel, literal, n).blocked[b].namespace,
        counts[m].records == planned(counts, agent, channel, literal, n).blocked[b].records,
    decreases n,
{
    if b < planned(counts, agent, channel, literal, n - 1).blocked.len() {
        lemma_plan_blocked(counts, agent, channel, literal, n - 1, b)
    } else {
        n - 1
    }
}

/// Every namespace is listed once, with its own number of records: rewritten or
/// blocked, unless it is already migrated; and nothing else is listed.
pub proof fn every_namespace_is_listed_once(
    counts: Seq<CountView>,
    agent: Seq<char>,
    channel: Seq<char>,
    literal: bool,
    m: int,
)
    requires
        increasing(names_of(counts)),
        0 <= m < counts.len(),
    ensures
        ({
            let plan = planned(counts, agent, channel, literal, counts.len() as int);
            &&& listings(plan, counts[m].namespace) == if verdict(
                counts[m].namespace,
                agent,
                channel,
                literal,
            ) is Already {
                0nat
            } else {
                1nat
            }
            &&& forall|k: int|
                0 <= k < plan.rewrites.len() && (#[trigger] plan.rewrites[k]).from
                    == counts[m].namespace ==> plan.rewrites[k].records == counts[m].records
            &&& forall|b: int|
                0 <= b < plan.blocked.len() && (#[trigger] plan.blocked[b]).namespace
                    == counts[m].namespace ==> plan.blocked[b].records == counts[m].records
            &&& forall|k: int|
                0 <= k < plan.rewrites.len() ==> names_of(counts).contains(
                    (#[trigger] plan.rewrites[k]).from,
                )
            &&& forall|b: int|
                0 <= b < plan.blocked.len() ==> names_of(counts).contains(
                    (#[trigger] plan.blocked[b]).namespace,
                )
        }),
{
    let c = counts.len() as int;
    let plan = planned(counts, agent, channel, literal, c);
    let names = names_of(counts);
    lemma_listings(counts, agent, channel, literal, c, m);
    lemma_plan_sources(counts, agent, channel, literal, c);
    assert(names.take(c) =~= names);
    assert forall|k: int|
        0 <= k < plan.rewrites.len() && (#[trigger] plan.rewrites[k]).from
            == counts[m].namespace implies plan.rewrites[k].records == counts[m].records by {
        let i = lemma_plan_records(counts, agent, channel, literal, c, k);
        lemma_same_name(counts, i, m);
    }
    assert forall|b: int|
        0 <= b < plan.blocked.len() && (#[trigger] plan.blocked[b]).namespace
            == counts[m].namespace implies plan.blocked[b].records == counts[m].records by {
        let i = lemma_plan_blocked(counts, agent, channel, literal, c, b);
        lemma_same_name(counts, i, m);
    }
}

proof fn lemma_same_name(counts: Seq<CountView>, i: int, m: int)
    requires
        increasing(names_of(counts)),
        0 <= i < counts.len(),
        0 <= m < counts.len(),
        counts[i].namespace == counts[m].namespace,
    ensures
        i == m,
{
    let names = names_of(counts);
    assert(names[i] == counts[i].namespace && names[m] == counts[m].namespace);
    lemma_precedes_total(names[i], names[m]);
    if i < m {
        assert(precedes(names[i], names[m]));
    } else if m < i {
        assert(precedes(names[m], names[i]));
    }
}

/// A rewritten conversation is recognised the next time: its new namespace is
/// already migrated, so a clean run leaves nothing to do for it.
pub proof fn migrated_conversation_is_recognised(
    visibility: Seq<char>,
    owner: Identity,
    store: Seq<char>,
    domain: Seq<char>,
    agent: Seq<char>,
    channel: Seq<char>,
    literal: bool,
)
    requires
        super::scope::slashless(visibility),
        super::scope::slashless(store),
        super::scope::slashless(domain),
    ensures
        verdict(
            namespace_text(visibility, "conversation"@, owner.name(), store, domain),
            agent,
            channel,
            literal,
        ) is Already,
{
    reveal_strlit("conversation");
    super::scope::lemma_name_slashless(owner);
    super::scope::lemma_five_fields(visibility, "conversation"@, owner.name(), store, domain);
    let parts = pieces(
        namespace_text(visibility, "conversation"@, owner.name(), store, domain),
        '/',
    );
    assert(parts[2] == owner.name());
}

fn rename_rows(rows: &Vec<String>, from: &str, to: &str) -> (out: Vec<String>)
    ensures
        texts(out@) == renamed(texts(rows@), from@, to@),
{
    let mut out: Vec<String> = Vec::new();
    let mut i: usize = 0;
    while i < rows.len()
        invariant
            i <= rows@.len(),
            out@.len() == i,
            forall|k: int|
                0 <= k < i ==> (#[trigger] out@[k])@ == if rows@[k]@ == from@ {
                    to@
                } else {
                    rows@[k]@
                },
        decreases rows@.len() - i,
    {
        if same(rows[i].as_str(), from) {
            out.push(to.to_owned());
        } else {
            out.push(rows[i].clone());
        }
        i = i + 1;
    }
    assert(texts(out@) =~= renamed(texts(rows@), from@, to@));
    out
}

proof fn lemma_moved_bound(rows: Seq<Seq<char>>, rewrites: Seq<RewriteView>, n: int, k: int)
    requires
        0 <= k <= n <= rewrites.len(),
    ensures
        moved_by(rows, rewrites, k) <= moved_by(rows, rewrites, n),
    decreases n - k,
{
    if k < n {
        lemma_moved_bound(rows, rewrites, n - 1, k);
    }
}

/// Applies a plan: every rewrite lands, or none does. Refused when a target
/// holds records by the time its rewrite comes. The full-text index and the
/// access log follow the records under the names these now have. The new
/// version is claimed only when the plan left nothing behind.
pub fn apply(rows: &mut MemoryRows, plan: &MigrationPlan) -> (out: Result<usize, MemoryError>)
    requires
        moved_by(
            texts(old(rows).namespaces@),
            rewrites_view(plan.rewrites@),
            plan.rewrites@.len() as int,
        ) <= usize::MAX,
    ensures
        out is Ok <==> forall|k: int|
            0 <= k < plan.rewrites@.len() ==> #[trigger] target_is_free(
                texts(old(rows).namespaces@),
                rewrites_view(plan.rewrites@),
                k,
            ),
        out matches Ok(moved) ==> {
            &&& moved == moved_by(
                texts(old(rows).namespaces@),
                rewrites_view(plan.rewrites@),
                plan.rewrites@.len() as int,
            )
            &&& texts(final(rows).namespaces@) == rows_after(
                texts(old(rows).namespaces@),
                rewrites_view(plan.rewrites@),
                plan.rewrites@.len() as int,
            )
            &&& texts(final(rows).full_text@) == rows_after(
                texts(old(rows).full_text@),
                rewrites_view(plan.rewrites@),
                plan.rewrites@.len() as int,
            )
            &&& texts(final(rows).access_log@) == rows_after(
                texts(old(rows).access_log@),
                rewrites_view(plan.rewrites@),
                plan.rewrites@.len() as int,
            )
            &&& final(rows).schema_version == if plan.blocked@.len() == 0 {
                IDENTITY_SCHEMA_VERSION
            } else {
                old(rows).schema_version
            }
        },
        out matches Err(MemoryError::Backend(text)) ==> {
            &&& *final(rows) == *old(rows)
            &&& exists|k: int|
                0 <= k < plan.rewrites@.len() && !(#[trigger] target_is_free(
                    texts(old(rows).namespaces@),
                    rewrites_view(plan.rewrites@),
                    k,
                )) && text@ == stale_message(plan.rewrites@[k]@) && forall|j: int|
                    0 <= j < k ==> #[trigger] target_is_free(
                        texts(old(rows).namespaces@),
                        rewrites_view(plan.rewrites@),
                        j,
                    )
        },
{
    let ghost before = texts(rows.namespaces@);
    let ghost rewrites = rewrites_view(plan.rewrites@);
    let ghost indexed = texts(rows.full_text@);
    let ghost logged = texts(rows.access_log@);
    let mut current = copy_texts(&rows.namespaces);
    let mut full_text = copy_texts(&rows.full_text);
    let mut access_log = copy_texts(&rows.access_log);
    let mut moved: usize = 0;
    let mut k: usize = 0;
    while k < plan.rewrites.len()
        invariant
            k <= plan.rewrites@.len(),
            *rows == *old(rows),
            before == texts(rows.namespaces@),
            rewrites == rewrites_view(plan.rewrites@),
            indexed == texts(rows.full_text@),
            logged == texts(rows.access_log@),
            texts(current@) == rows_after(before, rewrites, k as int),
            texts(full_text@) == rows_after(indexed, rewrites, k as int),
            texts(access_log@) == rows_after(logged, rewrites, k as int),
            moved == moved_by(before, rewrites, k as int),
            moved_by(before, rewrites, plan.rewrites@.len() as int) <= usize::MAX,
            forall|j: int| 0 <= j < k ==> #[trigger] target_is_free(before, rewrites, j),
        decreases plan.rewrites@.len() - k,
    {
        let rewrite = &plan.rewrites[k];
        assert(rewrites[k as int] == rewrite@);
        if contains_text(&current, rewrite.to.as_str()) {
            let mut text = "refusing to migrate '".to_owned();
            text.push_str(rewrite.from.as_str());
            text.push_str("': '");
            text.push_str(rewrite.to.as_str());
            text.push_str("' gained records since the plan was made");
            assert(!target_is_free(before, rewrites, k as int));
            assert(text@ == stale_message(plan.rewrites@[k as int]@));
            return Err(MemoryError::Backend(text));
        }
        assert(target_is_free(before, rewrites, k as int));
        proof {
            lemma_moved_bound(before, rewrites, plan.rewrites@.len() as int, k + 1);
        }
        let here: usize = count_rows(&current, rewrite.from.as_str());
        moved = moved + here;
        current = rename_rows(&current, rewrite.from.as_str(), rewrite.to.as_str());
        full_text = rename_rows(&full_text, rewrite.from.as_str(), rewrite.to.as_str());
        access_log = rename_rows(&access_log, rewrite.from.as_str(), rewrite.to.as_str());
        k = k + 1;
    }
    rows.namespaces = current;
    rows.full_text = full_text;
    rows.access_log = access_log;
    if plan.blocked.len() == 0 {
        rows.schema_version = IDENTITY_SCHEMA_VERSION;
    }
    Ok(moved)
}

/// The rows several rewrites hold.
pub open spec fn rewritten_records(rewrites: Seq<RewriteView>) -> nat
    decreases rewrites.len(),
{
    if rewrites.len() == 0 {
        0
    } else {
        rewritten_records(rewrites.drop_last()) + rewrites.last().records
    }
}

/// The rows several blocked namespaces hold.
pub open spec fn blocked_records(blocked: Seq<BlockedView>) -> nat
    decreases blocked.len(),
{
    if blocked.len() == 0 {
        0
    } else {
        blocked_records(blocked.drop_last()) + blocked.last().records
    }
}

/// The first rewrites hold no more than all of them.
pub proof fn lemma_rewritten_records(rewrites: Seq<RewriteView>, n: int)
    requires
        0 <= n <= rewrites.len(),
    ensures
        rewritten_records(rewrites.take(n)) <= rewritten_records(rewrites),
    decreases rewrites.len() - n,
{
    if n < rewrites.len() {
        lemma_rewritten_records(rewrites, n + 1);
        assert(rewrites.take(n + 1).drop_last() =~= rewrites.take(n));
    } else {
        assert(rewrites.take(n) =~= rewrites);
    }
}

proof fn lemma_blocked_records(blocked: Seq<BlockedView>, n: int)
    requires
        0 <= n <= blocked.len(),
    ensures
        blocked_records(blocked.take(n)) <= blocked_records(blocked),
    decreases blocked.len() - n,
{
    if n < blocked.len() {
        lemma_blocked_records(blocked, n + 1);
        assert(blocked.take(n + 1).drop_last() =~= blocked.take(n));
    } else {
        assert(blocked.take(n) =~= blocked);
    }
}

/// What the operator is told about a blocked namespace.
pub open spec fn reason_text(reason: ReasonView) -> Seq<char> {
    match reason {
        ReasonView::AmbiguousSeparator { candidates } => {
            let shown = if candidates.len() < 3 {
                candidates.len()
            } else {
                3
            };
            "the owner id could have been "@ + joined(candidates.take(shown as int), " or "@) + (
            if candidates.len() > shown {
                " (or "@ + decimal((candidates.len() - shown) as nat) + " other reading(s))"@
            } else {
                Seq::empty()
            })
                + " before the old encoder replaced '/' with '_'; pass --assume-literal-underscores if this deployment's ids never contained a slash"@
        },
        ReasonView::TargetOccupied { target } => "'"@ + target
            + "' already holds records; migrating would merge two owners"@,
        ReasonView::TargetContested { target, other } => "would collide with '"@ + other
            + "' at '"@ + target + "'"@,
        ReasonView::Unrecognised => "not a namespace this encoder produced"@,
    }
}

impl BlockedReason {
    /// What to tell the operator.
    pub fn message(&self) -> (out: String)
        ensures
            out@ == reason_text(self@),
    {
        match self {
            BlockedReason::AmbiguousSeparator { candidates } => {
                let ghost all = texts(candidates@);
                let shown: usize = if candidates.len() < 3 {
                    candidates.len()
                } else {
                    3
                };
                let mut first: Vec<String> = Vec::new();
                let mut i: usize = 0;
                while i < shown
                    invariant
                        i <= shown <= candidates@.len(),
                        first@ == candidates@.take(i as int),
                    decreases shown - i,
                {
                    first.push(candidates[i].clone());
                    assert(candidates@.take(i + 1) =~= candidates@.take(i as int).push(
                        candidates@[i as int],
                    ));
                    i = i + 1;
                }
                assert(texts(first@) =~= all.take(shown as int));
                let mut out = "the owner id could have been ".to_owned();
                out.push_str(crate::lists::join(&first, " or ").as_str());
                if candidates.len() > shown {
                    out.push_str(" (or ");
                    push_decimal(&mut out, (candidates.len() - shown) as u64);
                    out.push_str(" other reading(s))");
                }
                out.push_str(
                    " before the old encoder replaced '/' with '_'; pass --assume-literal-underscores if this deployment's ids never contained a slash",
                );
                assert(out@ =~= reason_text(self@));
                out
            },
            BlockedReason::TargetOccupied { target } => {
                let mut out = "'".to_owned();
                out.push_str(target.as_str());
                out.push_str("' already holds records; migrating would merge two owners");
                out
            },
            BlockedReason::TargetContested { target, other } => {
                let mut out = "would collide with '".to_owned();
                out.push_str(other.as_str());
                out.push_str("' at '");
                out.push_str(target.as_str());
                out.push_str("'");
                out
            },
            BlockedReason::Unrecognised => "not a namespace this encoder produced".to_owned(),
        }
    }
}

/// The report's lines on blocked namespaces.
pub open spec fn blocked_lines(blocked: Seq<BlockedView>) -> Seq<char>
    decreases blocked.len(),
{
    if blocked.len() == 0 {
        Seq::empty()
    } else {
        let last = blocked.last();
        blocked_lines(blocked.drop_last()) + "  "@ + last.namespace + " ("@ + decimal(last.records)
            + " record(s))\n    "@ + reason_text(last.reason) + "\n"@
    }
}

/// The report's lines on rewrites.
pub open spec fn rewrite_lines(rewrites: Seq<RewriteView>) -> Seq<char>
    decreases rewrites.len(),
{
    if rewrites.len() == 0 {
        Seq::empty()
    } else {
        let last = rewrites.last();
        rewrite_lines(rewrites.drop_last()) + "  "@ + last.from + " -> "@ + last.to + " ("@
            + decimal(last.records) + " record(s))\n"@
    }
}

/// What the report says: first what needs a decision, then what will be
/// rewritten, then what is done already.
pub open spec fn report_text(plan: PlanView) -> Seq<char> {
    (if plan.blocked.len() > 0 {
        decimal(plan.blocked.len()) + " namespace(s) holding "@ + decimal(
            blocked_records(plan.blocked),
        ) + " record(s) will NOT be migrated:\n"@ + blocked_lines(plan.blocked) + "\n"@
    } else {
        Seq::empty()
    }) + decimal(plan.rewrites.len()) + " namespace(s) holding "@ + decimal(
        rewritten_records(plan.rewrites),
    ) + " record(s) will be rewritten:\n"@ + rewrite_lines(plan.rewrites) + (if plan.already > 0 {
        "\n"@ + decimal(plan.already) + " namespace(s) are already principal-keyed.\n"@
    } else {
        Seq::empty()
    })
}

impl MigrationPlan {
    /// Whether there is nothing to rewrite and nothing to decide.
    pub fn is_empty(&self) -> (empty: bool)
        ensures
            empty == (self@.rewrites.len() == 0 && self@.blocked.len() == 0),
    {
        self.rewrites.len() == 0 && self.blocked.len() == 0
    }

    /// Rows across every rewrite.
    pub fn records_to_move(&self) -> (total: usize)
        requires
            rewritten_records(self@.rewrites) <= usize::MAX,
        ensures
            total == rewritten_records(self@.rewrites),
    {
        let ghost all = self@.rewrites;
        let mut total: usize = 0;
        let mut i: usize = 0;
        while i < self.rewrites.len()
            invariant
                i <= self.rewrites@.len(),
                all == rewrites_view(self.rewrites@),
                rewritten_records(all) <= usize::MAX,
                total == rewritten_records(all.take(i as int)),
            decreases self.rewrites@.len() - i,
        {
            proof {
                lemma_rewritten_records(all, i + 1);
                assert(all.take(i + 1).drop_last() =~= all.take(i as int));
                assert(all[i as int] == self.rewrites@[i as int]@);
            }
            total = total + self.rewrites[i].records;
            i = i + 1;
        }
        assert(all.take(all.len() as int) =~= all);
        total
    }

    /// Rows across every blocked namespace.
    pub fn records_blocked(&self) -> (total: usize)
        requires
            blocked_records(self@.blocked) <= usize::MAX,
        ensures
            total == blocked_records(self@.blocked),
    {
        let ghost all = self@.blocked;
        let mut total: usize = 0;
        let mut i: usize = 0;
        while i < self.blocked.len()
            invariant
                i <= self.blocked@.len(),
                all == blocked_view(self.blocked@),
                blocked_records(all) <= usize::MAX,
                total == blocked_records(all.take(i as int)),
            decreases self.blocked@.len() - i,
        {
            proof {
                lemma_blocked_records(all, i + 1);
                assert(all.take(i + 1).drop_last() =~= all.take(i as int));
                assert(all[i as int] == self.blocked@[i as int]@);
            }
            total = total + self.blocked[i].records;
            i = i + 1;
        }
        assert(all.take(all.len() as int) =~= all);
        total
    }

    /// The report a dry run prints.
    pub fn report(&self) -> (out: String)
        requires
            rewritten_records(self@.rewrites) <= usize::MAX,
            blocked_records(self@.blocked) <= usize::MAX,
        ensures
            out@ == report_text(self@),
    {
        let mut out = String::new();
        if self.blocked.len() > 0 {
            let ghost all = self@.blocked;
            push_decimal(&mut out, self.blocked.len() as u64);
            out.push_str(" namespace(s) holding ");
            push_decimal(&mut out, self.records_blocked() as u64);
            out.push_str(" record(s) will NOT be migrated:\n");
            let ghost lead = out@;
            let mut i: usize = 0;
            assert(lead + blocked_lines(all.take(0)) =~= lead);
            while i < self.blocked.len()
                invariant
                    i <= self.blocked@.len(),
                    all == blocked_view(self.blocked@),
                    out@ == lead + blocked_lines(all.take(i as int)),
                decreases self.blocked@.len() - i,
            {
                let ghost now = out@;
                proof {
                    assert(all.take(i + 1).drop_last() =~= all.take(i as int));
                    assert(all.take(i + 1).last() == self.blocked@[i as int]@);
                }
                let blocked = &self.blocked[i];
                out.push_str("  ");
                out.push_str(blocked.namespace.as_str());
                out.push_str(" (");
                push_decimal(&mut out, blocked.records as u64);
                out.push_str(" record(s))\n    ");
                out.push_str(blocked.reason.message().as_str());
                out.push_str("\n");
                assert(out@ =~= lead + blocked_lines(all.take(i + 1)));
                i = i + 1;
            }
            assert(all.take(all.len() as int) =~= all);
            out.push_str("\n");
        }
        let ghost first = out@;
        let ghost all = self@.rewrites;
        push_decimal(&mut out, self.rewrites.len() as u64);
        out.push_str(" namespace(s) holding ");
        push_decimal(&mut out, self.records_to_move() as u64);
        out.push_str(" record(s) will be rewritten:\n");
        let ghost lead = out@;
        let mut i: usize = 0;
        assert(lead + rewrite_lines(all.take(0)) =~= lead);
        while i < self.rewrites.len()
            invariant
                i <= self.rewrites@.len(),
                all == rewrites_view(self.rewrites@),
                out@ == lead + rewrite_lines(all.take(i as int)),
            decreases self.rewrites@.len() - i,
        {
            proof {
                assert(all.take(i + 1).drop_last() =~= all.take(i as int));
                assert(all.take(i + 1).last() == self.rewrites@[i as int]@);
            }
            let rewrite = &self.rewrites[i];
            out.push_str("  ");
            out.push_str(rewrite.from.as_str());
            out.push_str(" -> ");
            out.push_str(rewrite.to.as_str());
            out.push_str(" (");
            push_decimal(&mut out, rewrite.records as u64);
            out.push_str(" record(s))\n");
            assert(out@ =~= lead + rewrite_lines(all.take(i + 1)));
            i = i + 1;
        }
        assert(all.take(all.len() as int) =~= all);
        if self.already_migrated > 0 {
            out.push_str("\n");
            push_decimal(&mut out, self.already_migrated as u64);
            out.push_str(" namespace(s) are already principal-keyed.\n");
        }
        assert(out@ =~= report_text(self@));
        out
    }
}

proof fn lemma_rewrite_line(rewrites: Seq<RewriteView>, i: int) -> (rest: Seq<char>)
    requires
        0 <= i < rewrites.len(),
    ensures
        rewrite_lines(rewrites) == rewrite_lines(rewrites.take(i)) + ("  "@ + rewrites[i].from + " -> "@ + rewrites[i].to + " ("@ + decimal(rewrites[i].records) + " record(s))\n"@) + rest,
    decreases rewrites.len(),
{
    let line = "  "@ + rewrites[i].from + " -> "@ + rewrites[i].to + " ("@ + decimal(rewrites[i].records) + " record(s))\n"@;
    if i == rewrites.len() - 1 {
        assert(rewrites.take(i) =~= rewrites.drop_last());
        assert(rewrite_lines(rewrites) =~= rewrite_lines(rewrites.take(i)) + line + Seq::empty());
        Seq::empty()
    } else {
        let shorter = rewrites.drop_last();
        let rest = lemma_rewrite_line(shorter, i);
        assert(shorter.take(i) =~= rewrites.take(i));
        let last = rewrites.last();
        let more = rest + "  "@ + last.from + " -> "@ + last.to + " ("@ + decimal(last.records) + " record(s))\n"@;
        assert(rewrite_lines(rewrites) =~= rewrite_lines(rewrites.take(i)) + line + more);
        more
    }
}

proof fn lemma_blocked_line(blocked: Seq<BlockedView>, i: int) -> (rest: Seq<char>)
    requires
        0 <= i < blocked.len(),
    ensures
        blocked_lines(blocked) == blocked_lines(blocked.take(i)) + ("  "@ + blocked[i].namespace + " ("@ + decimal(blocked[i].records) + " record(s))\n    "@ + reason_text(blocked[i].reason) + "\n"@) + rest,
    decreases blocked.len(),
{
    let line = "  "@ + blocked[i].namespace + " ("@ + decimal(blocked[i].records) + " record(s))\n    "@ + reason_text(blocked[i].reason) + "\n"@;
    if i == blocked.len() - 1 {
        assert(blocked.take(i) =~= blocked.drop_last());
        assert(blocked_lines(blocked) =~= blocked_lines(blocked.take(i)) + line + Seq::empty());
        Seq::empty()
    } else {
        let shorter = blocked.drop_last();
        let rest = lemma_blocked_line(shorter, i);
        assert(shorter.take(i) =~= blocked.take(i));
        let last = blocked.last();
        let more = rest + "  "@ + last.namespace + " ("@ + decimal(last.records) + " record(s))\n    "@ + reason_text(last.reason) + "\n"@;
        assert(blocked_lines(blocked) =~= blocked_lines(blocked.take(i)) + line + more);
        more
    }
}

proof fn lemma_held_lines(
    rewrites: Seq<RewriteView>,
    i: int,
    blocked: Seq<BlockedView>,
    b: int,
)
    ensures
        0 <= i < rewrites.len() ==> holds(
            rewrite_lines(rewrites),
            "  "@ + rewrites[i].from + " -> "@ + rewrites[i].to + " ("@ + decimal(
                rewrites[i].records,
            ) + " record(s))\n"@,
        ),
        0 <= b < blocked.len() ==> holds(
            blocked_lines(blocked),
            "  "@ + blocked[b].namespace + " ("@ + decimal(blocked[b].records)
                + " record(s))\n    "@ + reason_text(blocked[b].reason) + "\n"@,
        ),
{
    if 0 <= i < rewrites.len() {
        let rest = lemma_rewrite_line(rewrites, i);
        let line = "  "@ + rewrites[i].from + " -> "@ + rewrites[i].to + " ("@ + decimal(
            rewrites[i].records,
        ) + " record(s))\n"@;
        assert(rewrite_lines(rewrites) == rewrite_lines(rewrites.take(i)) + line + rest);
        holding_is_standing_between(rewrite_lines(rewrites), line);
    }
    if 0 <= b < blocked.len() {
        let rest = lemma_blocked_line(blocked, b);
        let line = "  "@ + blocked[b].namespace + " ("@ + decimal(blocked[b].records)
            + " record(s))\n    "@ + reason_text(blocked[b].reason) + "\n"@;
        assert(blocked_lines(blocked) == blocked_lines(blocked.take(b)) + line + rest);
        holding_is_standing_between(blocked_lines(blocked), line);
    }
}

/// A report names every namespace it would rewrite, with its target and how much
/// it holds, and every namespace it would leave, with the reason.
pub proof fn a_report_names_every_namespace(plan: PlanView, i: int, b: int)
    ensures
        0 <= i < plan.rewrites.len() ==> holds(
            report_text(plan),
            "  "@ + plan.rewrites[i].from + " -> "@ + plan.rewrites[i].to + " ("@ + decimal(
                plan.rewrites[i].records,
            ) + " record(s))\n"@,
        ),
        0 <= b < plan.blocked.len() ==> holds(
            report_text(plan),
            "  "@ + plan.blocked[b].namespace + " ("@ + decimal(plan.blocked[b].records)
                + " record(s))\n    "@ + reason_text(plan.blocked[b].reason) + "\n"@,
        ),
{
    lemma_held_lines(plan.rewrites, i, plan.blocked, b);
    let lead = decimal(plan.blocked.len()) + " namespace(s) holding "@ + decimal(
        blocked_records(plan.blocked),
    ) + " record(s) will NOT be migrated:\n"@;
    let first = if plan.blocked.len() > 0 {
        lead + blocked_lines(plan.blocked) + "\n"@
    } else {
        Seq::empty()
    };
    let opening = decimal(plan.rewrites.len()) + " namespace(s) holding "@ + decimal(
        rewritten_records(plan.rewrites),
    ) + " record(s) will be rewritten:\n"@;
    let tail = if plan.already > 0 {
        "\n"@ + decimal(plan.already) + " namespace(s) are already principal-keyed.\n"@
    } else {
        Seq::empty()
    };
    let body = rewrite_lines(plan.rewrites);
    let whole = report_text(plan);
    assert(whole =~= (first + opening) + body + tail);
    if 0 <= i < plan.rewrites.len() {
        a_part_holds_for_the_whole(
            first + opening,
            body,
            tail,
            "  "@ + plan.rewrites[i].from + " -> "@ + plan.rewrites[i].to + " ("@ + decimal(
                plan.rewrites[i].records,
            ) + " record(s))\n"@,
        );
    }
    if 0 <= b < plan.blocked.len() {
        let line = "  "@ + plan.blocked[b].namespace + " ("@ + decimal(plan.blocked[b].records)
            + " record(s))\n    "@ + reason_text(plan.blocked[b].reason) + "\n"@;
        a_part_holds_for_the_whole(lead, blocked_lines(plan.blocked), "\n"@, line);
        a_part_holds_for_the_whole(Seq::empty(), first, opening + body + tail, line);
        assert(whole =~= Seq::<char>::empty() + first + (opening + body + tail));
    }
}

/// Underscores are counted, all of them and nothing else; so are the rows of a
/// namespace; and the records of several rewrites, or of several that are left,
/// are those of each.
pub proof fn counts_are_of_what_is_there(
    s: Seq<char>,
    rows: Seq<Seq<char>>,
    name: Seq<char>,
    rewrites: Seq<RewriteView>,
    rewrite: RewriteView,
    blocked: Seq<BlockedView>,
    left: BlockedView,
)
    ensures
        underscores(s) == s.filter(|c: char| c == '_').len(),
        rows_in(rows, name) == rows.filter(|row: Seq<char>| row == name).len(),
        rewritten_records(Seq::empty()) == 0,
        rewritten_records(rewrites.push(rewrite)) == rewritten_records(rewrites) + rewrite.records,
        blocked_records(Seq::empty()) == 0,
        blocked_records(blocked.push(left)) == blocked_records(blocked) + left.records,
{
    lemma_underscores_filter(s);
    lemma_rows_filter(rows, name);
    assert(rewrites.push(rewrite).drop_last() =~= rewrites);
    assert(blocked.push(left).drop_last() =~= blocked);
}

proof fn lemma_underscores_filter(s: Seq<char>)
    ensures
        underscores(s) == s.filter(|c: char| c == '_').len(),
    decreases s.len(),
{
    reveal(Seq::filter);
    if s.len() > 0 {
        lemma_underscores_filter(s.drop_last());
    }
}

proof fn lemma_rows_filter(rows: Seq<Seq<char>>, name: Seq<char>)
    ensures
        rows_in(rows, name) == rows.filter(|row: Seq<char>| row == name).len(),
    decreases rows.len(),
{
    reveal(Seq::filter);
    if rows.len() > 0 {
        lemma_rows_filter(rows.drop_last(), name);
    }
}

proof fn lemma_no_underscores(s: Seq<char>)
    ensures
        underscores(s) == 0 <==> forall|k: int| 0 <= k < s.len() ==> #[trigger] s[k] != '_',
    decreases s.len(),
{
    if s.len() > 0 {
        lemma_no_underscores(s.drop_last());
        if underscores(s) == 0 {
            assert forall|k: int| 0 <= k < s.len() implies #[trigger] s[k] != '_' by {
                if k < s.len() - 1 {
                    assert(s.drop_last()[k] == s[k]);
                }
            }
        }
        if forall|k: int| 0 <= k < s.len() ==> #[trigger] s[k] != '_' {
            assert(s[s.len() - 1] != '_');
            assert forall|k: int| 0 <= k < s.drop_last().len() implies #[trigger] s.drop_last()[k]
                != '_' by {
                assert(s.drop_last()[k] == s[k]);
            }
        }
    }
}

/// What becomes of a namespace is told by its fields: without five it is not
/// recognised; a conversation under its participant's name is done already; an
/// owner that may have lost a slash is not guessed, unless its underscores are
/// to be taken as they are; and any other gets its owner's new form, with the
/// other fields as they were.
pub proof fn a_namespace_gets_its_owners_new_form(
    namespace: Seq<char>,
    agent: Seq<char>,
    channel: Seq<char>,
    literal: bool,
    id: Identity,
)
    ensures
        ({
            let parts = pieces(namespace, '/');
            let done = parts[1] == "conversation"@ && exists|some: Identity|
                #[trigger] some.name() == parts[2];
            let plain = forall|k: int| 0 <= k < parts[2].len() ==> #[trigger] parts[2][k] != '_';
            let owner = if parts[1] == "conversation"@ {
                (Identity { agent, channel, conversation: parts[2], sender: None }).name()
            } else {
                component(parts[2])
            };
            let target = parts[0] + "/"@ + parts[1] + "/"@ + owner + "/"@ + parts[3] + "/"@
                + parts[4];
            let told = verdict(namespace, agent, channel, literal);
            &&& parts.len() != 5 <==> told == Verdict::Unrecognised
            &&& parts.len() == 5 && done ==> told == Verdict::Already
            &&& parts.len() == 5 && !done && !plain && !literal ==> (told matches
                Verdict::Ambiguous(candidates) && candidates[0] == parts[2] && candidates.len() >= 2
                && candidates.len() <= 8)
            &&& parts.len() == 5 && !done && (plain || literal) ==> told == if target == namespace {
                Verdict::Already
            } else {
                Verdict::Becomes(target)
            }
        }),
{
    let parts = pieces(namespace, '/');
    if parts.len() == 5 {
        lemma_no_underscores(parts[2]);
        originals_are_readings(parts[2]);
    }
}

proof fn lemma_rewrite_verdicts(
    counts: Seq<CountView>,
    agent: Seq<char>,
    channel: Seq<char>,
    literal: bool,
    n: int,
    k: int,
) -> (j: int)
    requires
        0 <= n <= counts.len(),
        0 <= k < planned(counts, agent, channel, literal, n).rewrites.len(),
    ensures
        0 <= j < n,
        verdict(counts[j].namespace, agent, channel, literal) == Verdict::Becomes(
            planned(counts, agent, channel, literal, n).rewrites[k].to,
        ),
    decreases n,
{
    if k < planned(counts, agent, channel, literal, n - 1).rewrites.len() {
        lemma_rewrite_verdicts(counts, agent, channel, literal, n - 1, k)
    } else {
        n - 1
    }
}

/// A target is claimed by the first rewrite that has it, and by none where none
/// has.
pub proof fn the_first_rewrite_claims_its_target(rewrites: Seq<RewriteView>, target: Seq<char>)
    ensures
        claimant(rewrites, target) is None <==> forall|k: int|
            0 <= k < rewrites.len() ==> (#[trigger] rewrites[k]).to != target,
        claimant(rewrites, target) matches Some(other) ==> exists|k: int|
            0 <= k < rewrites.len() && (#[trigger] rewrites[k]).to == target && rewrites[k].from
                == other,
    decreases rewrites.len(),
{
    if rewrites.len() > 0 {
        let rest = rewrites.drop_first();
        the_first_rewrite_claims_its_target(rest, target);
        if rewrites[0].to == target {
            assert(rewrites[0].from == claimant(rewrites, target)->0);
        } else {
            if claimant(rest, target) is Some {
                let k = choose|k: int|
                    0 <= k < rest.len() && (#[trigger] rest[k]).to == target && rest[k].from
                        == claimant(rest, target)->0;
                assert(rewrites[k + 1] == rest[k]);
            } else {
                assert forall|k: int| 0 <= k < rewrites.len() implies (#[trigger] rewrites[k]).to
                    != target by {
                    if k > 0 {
                        assert(rest[k - 1] == rewrites[k]);
                    }
                }
            }
        }
    }
}

/// What can be moved is moved: a namespace whose target nobody has, and no other
/// namespace would take, is rewritten to it, with its own records.
pub proof fn what_can_be_moved_is_moved(
    counts: Seq<CountView>,
    agent: Seq<char>,
    channel: Seq<char>,
    literal: bool,
    m: int,
    target: Seq<char>,
)
    requires
        0 <= m < counts.len(),
        verdict(counts[m].namespace, agent, channel, literal) == Verdict::Becomes(target),
        !names_of(counts).contains(target),
        forall|j: int|
            0 <= j < counts.len() && j != m ==> verdict(
                (#[trigger] counts[j]).namespace,
                agent,
                channel,
                literal,
            ) != Verdict::Becomes(target),
    ensures
        planned(counts, agent, channel, literal, counts.len() as int).rewrites.contains(
            RewriteView { from: counts[m].namespace, to: target, records: counts[m].records },
        ),
{
    let before = planned(counts, agent, channel, literal, m);
    the_first_rewrite_claims_its_target(before.rewrites, target);
    assert forall|k: int| 0 <= k < before.rewrites.len() implies (#[trigger] before.rewrites[k]).to
        != target by {
        let j = lemma_rewrite_verdicts(counts, agent, channel, literal, m, k);
        assert(counts[j].namespace == counts[j].namespace);
    }
    let now = planned(counts, agent, channel, literal, m + 1);
    let moved = RewriteView { from: counts[m].namespace, to: target, records: counts[m].records };
    assert(now.rewrites == before.rewrites.push(moved));
    assert(now.rewrites[before.rewrites.len() as int] == moved);
    lemma_rewrites_grow(counts, agent, channel, literal, m + 1, counts.len() as int);
    let end = planned(counts, agent, channel, literal, counts.len() as int);
    assert(end.rewrites.take(now.rewrites.len() as int)[before.rewrites.len() as int] == moved);
    assert(end.rewrites[before.rewrites.len() as int] == moved);
}

proof fn lemma_rewrites_grow(
    counts: Seq<CountView>,
    agent: Seq<char>,
    channel: Seq<char>,
    literal: bool,
    m: int,
    n: int,
)
    requires
        0 <= m <= n <= counts.len(),
    ensures
        ({
            let early = planned(counts, agent, channel, literal, m).rewrites;
            let late = planned(counts, agent, channel, literal, n).rewrites;
            early.len() <= late.len() && late.take(early.len() as int) == early
        }),
    decreases n - m,
{
    let early = planned(counts, agent, channel, literal, m).rewrites;
    if m < n {
        lemma_rewrites_grow(counts, agent, channel, literal, m, n - 1);
        let before = planned(counts, agent, channel, literal, n - 1).rewrites;
        let late = planned(counts, agent, channel, literal, n).rewrites;
        assert(late.take(early.len() as int) =~= before.take(early.len() as int));
    } else {
        assert(early.take(early.len() as int) =~= early);
    }
}

/// An operator is told the readings an ambiguous owner may have had, the first
/// three of them and how many more there are.
pub proof fn an_ambiguous_owner_is_told_by_its_readings(candidates: Seq<Seq<char>>)
    requires
        candidates.len() > 0,
    ensures
        ({
            let told = reason_text(ReasonView::AmbiguousSeparator { candidates });
            &&& candidates.len() <= 3 ==> holds(told, joined(candidates, " or "@))
            &&& candidates.len() > 3 ==> holds(
                told,
                joined(candidates.take(3), " or "@) + " (or "@ + decimal(
                    (candidates.len() - 3) as nat,
                ) + " other reading(s))"@,
            )
        }),
{
    let told = reason_text(ReasonView::AmbiguousSeparator { candidates });
    let lead = "the owner id could have been "@;
    let tail =
        " before the old encoder replaced '/' with '_'; pass --assume-literal-underscores if this deployment's ids never contained a slash"@;
    if candidates.len() <= 3 {
        assert(candidates.take(candidates.len() as int) =~= candidates);
        let part = joined(candidates, " or "@);
        assert(told =~= lead + part + tail);
        holding_is_standing_between(told, part);
    } else {
        let part = joined(candidates.take(3), " or "@) + " (or "@ + decimal(
            (candidates.len() - 3) as nat,
        ) + " other reading(s))"@;
        assert(told =~= lead + part + tail);
        holding_is_standing_between(told, part);
    }
}

} // verus!
