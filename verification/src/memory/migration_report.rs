//! What a persistence migration reports: how many rows go where, which legacy
//! keys split over several owners, and which rows are set aside and why.

use super::migration::{
    analyze_memories, analyze_sessions, check_version, disagree, is_memory_verdict, is_verdict,
    legacy_view, principals_of, resolved_principals, row_owner, CURRENT_PERSISTENCE_VERSION,
    LegacyRow, LegacyView, MemoryFacts, MemoryVerdict, SessionVerdict, VersionCheck,
};
use crate::lists::{increasing, insert_sorted, lemma_precedes_total, precedes};
use crate::text::{opt_view, same, texts};
use vstd::prelude::*;

verus! {

/// A legacy key whose rows belong to several owners.
#[derive(Debug, PartialEq, Eq)]
pub struct MigrationCollision {
    pub kind: String,
    pub legacy_key: String,
    pub target_keys: Vec<String>,
    pub row_count: usize,
}

/// Rows that are set aside for one reason.
#[derive(Debug, PartialEq, Eq)]
pub struct MigrationIssue {
    pub kind: String,
    pub legacy_key: String,
    pub row_count: usize,
    pub reason: String,
}

/// What a migration would do, or did.
#[derive(Debug, PartialEq, Eq)]
pub struct MigrationReport {
    pub database_path: String,
    pub from_version: u32,
    pub to_version: u32,
    pub already_current: bool,
    pub backup_required: bool,
    pub session_rows: usize,
    pub session_rows_to_migrate: usize,
    pub session_rows_to_quarantine: usize,
    pub memory_rows: usize,
    pub memory_rows_to_migrate: usize,
    pub memory_rows_to_quarantine: usize,
    pub collisions: Vec<MigrationCollision>,
    pub issues: Vec<MigrationIssue>,
}

/// Why a migration does not start.
#[derive(Debug)]
pub enum MigrationError {
    FutureVersion { found: u32, supported: u32 },
    BackupExists(String),
    PreparedBackupMissing(String),
}

/// One row of a legacy key: where it goes, or why nowhere.
pub struct Landing {
    pub legacy_key: String,
    pub target: Option<String>,
    pub reason: Option<String>,
}

/// What a [`Landing`] stands for.
#[verifier::ext_equal]
pub struct LandingView {
    pub legacy_key: Seq<char>,
    pub target: Option<Seq<char>>,
    pub reason: Option<Seq<char>>,
}

impl View for Landing {
    type V = LandingView;

    open spec fn view(&self) -> LandingView {
        LandingView {
            legacy_key: self.legacy_key@,
            target: opt_view(self.target),
            reason: opt_view(self.reason),
        }
    }
}

/// The landings of a list.
pub open spec fn landings_view(landings: Seq<Landing>) -> Seq<LandingView> {
    landings.map_values(|l: Landing| l@)
}

/// How many of the first `n` rows have a key.
pub open spec fn rows_under(landings: Seq<LandingView>, key: Seq<char>, n: int) -> nat
    decreases n,
{
    if n <= 0 {
        0
    } else {
        rows_under(landings, key, n - 1) + if landings[n - 1].legacy_key == key {
            1nat
        } else {
            0nat
        }
    }
}

/// How many of the first `n` rows have a key and a reason.
pub open spec fn rows_refused(
    landings: Seq<LandingView>,
    key: Seq<char>,
    reason: Seq<char>,
    n: int,
) -> nat
    decreases n,
{
    if n <= 0 {
        0
    } else {
        rows_refused(landings, key, reason, n - 1) + if landings[n - 1].legacy_key == key
            && landings[n - 1].reason == Some(reason) {
            1nat
        } else {
            0nat
        }
    }
}

/// Where the first `n` rows of a key go.
pub open spec fn targets_of(landings: Seq<LandingView>, key: Seq<char>, n: int) -> Set<Seq<char>>
    decreases n,
{
    if n <= 0 {
        Set::empty()
    } else {
        let before = targets_of(landings, key, n - 1);
        match landings[n - 1].target {
            Some(target) => if landings[n - 1].legacy_key == key {
                before.insert(target)
            } else {
                before
            },
            None => before,
        }
    }
}

/// Why the first `n` rows of a key are set aside.
pub open spec fn reasons_of(landings: Seq<LandingView>, key: Seq<char>, n: int) -> Set<Seq<char>>
    decreases n,
{
    if n <= 0 {
        Set::empty()
    } else {
        let before = reasons_of(landings, key, n - 1);
        match landings[n - 1].reason {
            Some(reason) => if landings[n - 1].legacy_key == key {
                before.insert(reason)
            } else {
                before
            },
            None => before,
        }
    }
}

/// The keys of the first `n` rows.
pub open spec fn keys_of(landings: Seq<LandingView>, n: int) -> Set<Seq<char>>
    decreases n,
{
    if n <= 0 {
        Set::empty()
    } else {
        keys_of(landings, n - 1).insert(landings[n - 1].legacy_key)
    }
}

/// Whether a collision reports one key of the rows.
pub open spec fn reports_split(
    collision: MigrationCollision,
    kind: Seq<char>,
    landings: Seq<LandingView>,
) -> bool {
    let n = landings.len() as int;
    let key = collision.legacy_key@;
    &&& collision.kind@ == kind
    &&& keys_of(landings, n).contains(key)
    &&& disagree(targets_of(landings, key, n))
    &&& increasing(texts(collision.target_keys@))
    &&& texts(collision.target_keys@).to_set() == targets_of(landings, key, n)
    &&& collision.row_count == rows_under(landings, key, n)
}

/// Whether collisions report every key whose rows go to more than one place,
/// once each, in key order.
pub open spec fn reports_splits(
    collisions: Seq<MigrationCollision>,
    kind: Seq<char>,
    landings: Seq<LandingView>,
) -> bool {
    let n = landings.len() as int;
    &&& forall|i: int| 0 <= i < collisions.len() ==> reports_split(#[trigger] collisions[i], kind, landings)
    &&& forall|i: int, j: int|
        0 <= i < j < collisions.len() ==> precedes(
            (#[trigger] collisions[i]).legacy_key@,
            (#[trigger] collisions[j]).legacy_key@,
        )
    &&& forall|key: Seq<char>|
        #[trigger] keys_of(landings, n).contains(key) && disagree(targets_of(landings, key, n))
            ==> exists|i: int| 0 <= i < collisions.len() && (#[trigger] collisions[i]).legacy_key@ == key
}

fn distinct_keys(landings: &Vec<Landing>) -> (keys: Vec<String>)
    ensures
        increasing(texts(keys@)),
        texts(keys@).to_set() == keys_of(landings_view(landings@), landings@.len() as int),
{
    let ghost all = landings_view(landings@);
    let mut keys: Vec<String> = Vec::new();
    let mut i: usize = 0;
    assert(texts(keys@).to_set() =~= Set::empty());
    while i < landings.len()
        invariant
            i <= landings@.len(),
            all == landings_view(landings@),
            increasing(texts(keys@)),
            texts(keys@).to_set() == keys_of(all, i as int),
        decreases landings@.len() - i,
    {
        assert(all[i as int] == landings@[i as int]@);
        insert_sorted(&mut keys, landings[i].legacy_key.as_str());
        i = i + 1;
    }
    keys
}

fn count_under(landings: &Vec<Landing>, key: &str) -> (count: usize)
    ensures
        count == rows_under(landings_view(landings@), key@, landings@.len() as int),
{
    let ghost all = landings_view(landings@);
    let mut count: usize = 0;
    let mut i: usize = 0;
    while i < landings.len()
        invariant
            i <= landings@.len(),
            count <= i,
            all == landings_view(landings@),
            count == rows_under(all, key@, i as int),
        decreases landings@.len() - i,
    {
        assert(all[i as int] == landings@[i as int]@);
        if same(landings[i].legacy_key.as_str(), key) {
            count = count + 1;
        }
        i = i + 1;
    }
    count
}

fn count_refused(landings: &Vec<Landing>, key: &str, reason: &str) -> (count: usize)
    ensures
        count == rows_refused(landings_view(landings@), key@, reason@, landings@.len() as int),
{
    let ghost all = landings_view(landings@);
    let mut count: usize = 0;
    let mut i: usize = 0;
    while i < landings.len()
        invariant
            i <= landings@.len(),
            count <= i,
            all == landings_view(landings@),
            count == rows_refused(all, key@, reason@, i as int),
        decreases landings@.len() - i,
    {
        assert(all[i as int] == landings@[i as int]@);
        if same(landings[i].legacy_key.as_str(), key) {
            if let Some(why) = &landings[i].reason {
                if same(why.as_str(), reason) {
                    count = count + 1;
                }
            }
        }
        i = i + 1;
    }
    count
}

fn distinct_targets(landings: &Vec<Landing>, key: &str) -> (targets: Vec<String>)
    ensures
        increasing(texts(targets@)),
        texts(targets@).to_set() == targets_of(
            landings_view(landings@),
            key@,
            landings@.len() as int,
        ),
{
    let ghost all = landings_view(landings@);
    let mut targets: Vec<String> = Vec::new();
    let mut i: usize = 0;
    assert(texts(targets@).to_set() =~= Set::empty());
    while i < landings.len()
        invariant
            i <= landings@.len(),
            all == landings_view(landings@),
            increasing(texts(targets@)),
            texts(targets@).to_set() == targets_of(all, key@, i as int),
        decreases landings@.len() - i,
    {
        assert(all[i as int] == landings@[i as int]@);
        if same(landings[i].legacy_key.as_str(), key) {
            if let Some(target) = &landings[i].target {
                insert_sorted(&mut targets, target.as_str());
            }
        }
        i = i + 1;
    }
    targets
}

fn distinct_reasons(landings: &Vec<Landing>, key: &str) -> (reasons: Vec<String>)
    ensures
        increasing(texts(reasons@)),
        texts(reasons@).to_set() == reasons_of(
            landings_view(landings@),
            key@,
            landings@.len() as int,
        ),
{
    let ghost all = landings_view(landings@);
    let mut reasons: Vec<String> = Vec::new();
    let mut i: usize = 0;
    assert(texts(reasons@).to_set() =~= Set::empty());
    while i < landings.len()
        invariant
            i <= landings@.len(),
            all == landings_view(landings@),
            increasing(texts(reasons@)),
            texts(reasons@).to_set() == reasons_of(all, key@, i as int),
        decreases landings@.len() - i,
    {
        assert(all[i as int] == landings@[i as int]@);
        if same(landings[i].legacy_key.as_str(), key) {
            if let Some(reason) = &landings[i].reason {
                insert_sorted(&mut reasons, reason.as_str());
            }
        }
        i = i + 1;
    }
    reasons
}

proof fn lemma_several(list: Seq<Seq<char>>)
    requires
        increasing(list),
    ensures
        list.len() > 1 <==> disagree(list.to_set()),
{
    if list.len() > 1 {
        assert(precedes(list[0], list[1]));
        lemma_precedes_total(list[0], list[1]);
        assert(list.to_set().contains(list[0]));
        assert(list.to_set().contains(list[1]));
    }
    if disagree(list.to_set()) {
        let (a, b) = choose|a: Seq<char>, b: Seq<char>|
            a != b && #[trigger] list.to_set().contains(a) && #[trigger] list.to_set().contains(b);
        assert(list.contains(a) && list.contains(b));
    }
}

/// Reports the keys whose rows go to more than one place.
pub fn split_keys(kind: &str, landings: &Vec<Landing>) -> (out: Vec<MigrationCollision>)
    ensures
        reports_splits(out@, kind@, landings_view(landings@)),
{
    let ghost all = landings_view(landings@);
    let ghost n = landings@.len() as int;
    let keys = distinct_keys(landings);
    let ghost names = texts(keys@);
    let mut out: Vec<MigrationCollision> = Vec::new();
    // Which key each reported collision is about, and which report each key got.
    let ghost mut source: Seq<int> = Seq::empty();
    let ghost mut report: Seq<int> = Seq::empty();
    let mut i: usize = 0;
    while i < keys.len()
        invariant
            i <= keys@.len(),
            names == texts(keys@),
            increasing(names),
            all == landings_view(landings@),
            n == landings@.len(),
            n == all.len(),
            names.to_set() == keys_of(all, n),
            source.len() == out@.len(),
            report.len() == i,
            forall|k: int| 0 <= k < out@.len() ==> reports_split(#[trigger] out@[k], kind@, all),
            forall|k: int|
                #![trigger out@[k]]
                #![trigger source[k]]
                0 <= k < out@.len() ==> 0 <= source[k] < i && names[source[k]] == out@[k].legacy_key@,
            forall|j: int, k: int|
                0 <= j < k < out@.len() ==> #[trigger] source[j] < #[trigger] source[k],
            forall|m: int|
                0 <= m < i && disagree(targets_of(all, names[m], n)) ==> 0 <= #[trigger] report[m]
                    < out@.len() && out@[report[m]].legacy_key@ == names[m],
        decreases keys@.len() - i,
    {
        let key = keys[i].as_str();
        assert(names[i as int] == key@);
        let targets = distinct_targets(landings, key);
        proof {
            lemma_several(texts(targets@));
            assert(texts(targets@).len() == targets@.len());
            assert(names.to_set().contains(key@));
            report = report.push(out@.len() as int);
        }
        if targets.len() > 1 {
            let row_count: usize = count_under(landings, key);
            out.push(
                MigrationCollision {
                    kind: kind.to_owned(),
                    legacy_key: key.to_owned(),
                    target_keys: targets,
                    row_count,
                },
            );
            proof {
                source = source.push(i as int);
            }
        }
        i = i + 1;
    }
    proof {
        assert forall|j: int, k: int| 0 <= j < k < out@.len() implies precedes(
            (#[trigger] out@[j]).legacy_key@,
            (#[trigger] out@[k]).legacy_key@,
        ) by {
            assert(names.len() == keys@.len());
            assert(names[source[j]] == out@[j].legacy_key@);
            assert(names[source[k]] == out@[k].legacy_key@);
            assert(source[j] < source[k]);
            assert(precedes(names[source[j]], names[source[k]]));
        }
        assert forall|key: Seq<char>|
            #[trigger] keys_of(all, n).contains(key) && disagree(
                targets_of(all, key, n),
            ) implies exists|k: int|
            0 <= k < out@.len() && (#[trigger] out@[k]).legacy_key@ == key by {
            assert(names.to_set().contains(key));
            let m = choose|m: int| 0 <= m < names.len() && names[m] == key;
            assert(disagree(targets_of(all, names[m], n)));
            assert(out@[report[m]].legacy_key@ == key);
        }
    }
    out
}

/// Whether an issue reports one key and reason of the rows.
pub open spec fn reports_issue(
    issue: MigrationIssue,
    kind: Seq<char>,
    landings: Seq<LandingView>,
) -> bool {
    let n = landings.len() as int;
    &&& issue.kind@ == kind
    &&& keys_of(landings, n).contains(issue.legacy_key@)
    &&& reasons_of(landings, issue.legacy_key@, n).contains(issue.reason@)
    &&& issue.row_count == rows_refused(landings, issue.legacy_key@, issue.reason@, n)
}

/// Whether an issue comes before another: by key, then by reason.
pub open spec fn issue_precedes(a: MigrationIssue, b: MigrationIssue) -> bool {
    precedes(a.legacy_key@, b.legacy_key@) || (a.legacy_key@ == b.legacy_key@ && precedes(
        a.reason@,
        b.reason@,
    ))
}

/// Whether issues report every key and reason with the number of its rows,
/// once each, by key and then by reason.
pub open spec fn reports_issues(
    issues: Seq<MigrationIssue>,
    kind: Seq<char>,
    landings: Seq<LandingView>,
) -> bool {
    let n = landings.len() as int;
    &&& forall|i: int| 0 <= i < issues.len() ==> reports_issue(#[trigger] issues[i], kind, landings)
    &&& forall|i: int, j: int|
        0 <= i < j < issues.len() ==> issue_precedes(#[trigger] issues[i], #[trigger] issues[j])
    &&& forall|key: Seq<char>, reason: Seq<char>|
        keys_of(landings, n).contains(key) && #[trigger] reasons_of(landings, key, n).contains(
            reason,
        ) ==> exists|i: int|
            0 <= i < issues.len() && (#[trigger] issues[i]).legacy_key@ == key && issues[i].reason@
                == reason
}

fn push_issues(
    out: &mut Vec<MigrationIssue>,
    kind: &str,
    landings: &Vec<Landing>,
    key: &str,
)
    requires
        keys_of(landings_view(landings@), landings@.len() as int).contains(key@),
        forall|i: int|
            0 <= i < old(out)@.len() ==> reports_issue(
                #[trigger] old(out)@[i],
                kind@,
                landings_view(landings@),
            ) && precedes(old(out)@[i].legacy_key@, key@),
        forall|i: int, j: int|
            0 <= i < j < old(out)@.len() ==> issue_precedes(
                #[trigger] old(out)@[i],
                #[trigger] old(out)@[j],
            ),
    ensures
        final(out)@.len() >= old(out)@.len(),
        forall|i: int| 0 <= i < old(out)@.len() ==> #[trigger] final(out)@[i] == old(out)@[i],
        forall|i: int|
            0 <= i < final(out)@.len() ==> reports_issue(
                #[trigger] final(out)@[i],
                kind@,
                landings_view(landings@),
            ) && (i >= old(out)@.len() ==> final(out)@[i].legacy_key@ == key@),
        forall|i: int, j: int|
            0 <= i < j < final(out)@.len() ==> issue_precedes(
                #[trigger] final(out)@[i],
                #[trigger] final(out)@[j],
            ),
        forall|reason: Seq<char>|
            #[trigger] reasons_of(
                landings_view(landings@),
                key@,
                landings@.len() as int,
            ).contains(reason) ==> exists|i: int|
                0 <= i < final(out)@.len() && (#[trigger] final(out)@[i]).legacy_key@ == key@
                    && final(out)@[i].reason@ == reason,
{
    let ghost all = landings_view(landings@);
    let ghost n = landings@.len() as int;
    let ghost start = out@;
    let reasons = distinct_reasons(landings, key);
    let ghost names = texts(reasons@);
    let mut i: usize = 0;
    while i < reasons.len()
        invariant
            i <= reasons@.len(),
            names == texts(reasons@),
            increasing(names),
            all == landings_view(landings@),
            n == landings@.len(),
            n == all.len(),
            keys_of(all, n).contains(key@),
            names.to_set() == reasons_of(all, key@, n),
            out@.len() == start.len() + i,
            forall|k: int| 0 <= k < start.len() ==> #[trigger] out@[k] == start[k],
            forall|k: int|
                0 <= k < start.len() ==> precedes((#[trigger] start[k]).legacy_key@, key@),
            forall|k: int| 0 <= k < out@.len() ==> reports_issue(#[trigger] out@[k], kind@, all),
            forall|k: int|
                start.len() <= k < out@.len() ==> (#[trigger] out@[k]).legacy_key@ == key@
                    && out@[k].reason@ == names[k - start.len()],
            forall|j: int, k: int|
                0 <= j < k < out@.len() ==> issue_precedes(#[trigger] out@[j], #[trigger] out@[k]),
        decreases reasons@.len() - i,
    {
        let reason = reasons[i].as_str();
        assert(names[i as int] == reason@);
        assert(names.to_set().contains(reason@));
        let issue = MigrationIssue {
            kind: kind.to_owned(),
            legacy_key: key.to_owned(),
            row_count: count_refused(landings, key, reason),
            reason: reason.to_owned(),
        };
        let ghost before = out@;
        out.push(issue);
        proof {
            assert forall|j: int, k: int| 0 <= j < k < out@.len() implies issue_precedes(
                #[trigger] out@[j],
                #[trigger] out@[k],
            ) by {
                assert(out@[j] == before[j]);
                if k < before.len() {
                    assert(out@[k] == before[k]);
                } else if j < start.len() {
                    assert(out@[j] == start[j]);
                } else {
                    assert(precedes(names[j - start.len()], names[i as int]));
                }
            }
        }
        i = i + 1;
    }
    proof {
        assert forall|reason: Seq<char>| #[trigger]
            reasons_of(all, key@, n).contains(reason) implies exists|k: int|
            0 <= k < out@.len() && (#[trigger] out@[k]).legacy_key@ == key@ && out@[k].reason@
                == reason by {
            assert(names.to_set().contains(reason));
            let m = choose|m: int| 0 <= m < names.len() && names[m] == reason;
            assert(out@[start.len() + m].reason@ == reason);
        }
    }
}

/// Reports why rows are set aside, by key and reason.
pub fn grouped_issues(kind: &str, landings: &Vec<Landing>) -> (out: Vec<MigrationIssue>)
    ensures
        reports_issues(out@, kind@, landings_view(landings@)),
{
    let ghost all = landings_view(landings@);
    let ghost n = landings@.len() as int;
    let keys = distinct_keys(landings);
    let ghost names = texts(keys@);
    let mut out: Vec<MigrationIssue> = Vec::new();
    let mut i: usize = 0;
    while i < keys.len()
        invariant
            i <= keys@.len(),
            names == texts(keys@),
            increasing(names),
            all == landings_view(landings@),
            n == landings@.len(),
            n == all.len(),
            names.to_set() == keys_of(all, n),
            forall|k: int| 0 <= k < out@.len() ==> reports_issue(#[trigger] out@[k], kind@, all),
            forall|k: int|
                0 <= k < out@.len() ==> exists|m: int|
                    0 <= m < i && #[trigger] names[m] == (#[trigger] out@[k]).legacy_key@,
            forall|j: int, k: int|
                0 <= j < k < out@.len() ==> issue_precedes(#[trigger] out@[j], #[trigger] out@[k]),
            forall|m: int, reason: Seq<char>|
                0 <= m < i && #[trigger] reasons_of(all, names[m], n).contains(reason)
                    ==> exists|k: int|
                    0 <= k < out@.len() && (#[trigger] out@[k]).legacy_key@ == names[m]
                        && out@[k].reason@ == reason,
        decreases keys@.len() - i,
    {
        let key = keys[i].as_str();
        let ghost before = out@;
        proof {
            assert(names[i as int] == key@);
            assert(names.to_set().contains(key@));
            assert forall|k: int| 0 <= k < out@.len() implies precedes(
                (#[trigger] out@[k]).legacy_key@,
                key@,
            ) by {
                let m = choose|m: int| 0 <= m < i && #[trigger] names[m] == out@[k].legacy_key@;
                assert(precedes(names[m], names[i as int]));
            }
        }
        push_issues(&mut out, kind, landings, key);
        proof {
            assert forall|k: int| 0 <= k < out@.len() implies exists|m: int|
                0 <= m < i + 1 && #[trigger] names[m] == (#[trigger] out@[k]).legacy_key@ by {
                if k < before.len() {
                    assert(out@[k] == before[k]);
                    let m = choose|m: int|
                        0 <= m < i && #[trigger] names[m] == before[k].legacy_key@;
                    assert(names[m] == out@[k].legacy_key@);
                } else {
                    assert(names[i as int] == out@[k].legacy_key@);
                }
            }
            assert forall|m: int, reason: Seq<char>|
                0 <= m < i + 1 && #[trigger] reasons_of(all, names[m], n).contains(
                    reason,
                ) implies exists|k: int|
                0 <= k < out@.len() && (#[trigger] out@[k]).legacy_key@ == names[m]
                    && out@[k].reason@ == reason by {
                if m < i {
                    let k = choose|k: int|
                        0 <= k < before.len() && (#[trigger] before[k]).legacy_key@ == names[m]
                            && before[k].reason@ == reason;
                    assert(out@[k] == before[k]);
                }
            }
        }
        i = i + 1;
    }
    proof {
        assert forall|key: Seq<char>, reason: Seq<char>|
            keys_of(all, n).contains(key) && #[trigger] reasons_of(all, key, n).contains(
                reason,
            ) implies exists|k: int|
            0 <= k < out@.len() && (#[trigger] out@[k]).legacy_key@ == key && out@[k].reason@
                == reason by {
            assert(names.to_set().contains(key));
            let m = choose|m: int| 0 <= m < names.len() && names[m] == key;
            assert(reasons_of(all, names[m], n).contains(reason));
        }
    }
    out
}

/// Where a session row lands.
pub open spec fn session_landing(row: LegacyView, verdict: SessionVerdict) -> LandingView {
    LandingView {
        legacy_key: row.legacy_key,
        target: match verdict.target {
            Some(principal) => Some(principal@.name()),
            None => None,
        },
        reason: opt_view(verdict.reason),
    }
}

/// Where a memory row lands.
pub open spec fn memory_landing(facts: MemoryFacts, verdict: MemoryVerdict) -> LandingView {
    LandingView {
        legacy_key: facts.namespace@,
        target: match verdict {
            MemoryVerdict::Keep => Some(facts.namespace@),
            MemoryVerdict::Move(scope) => Some(scope@.namespace()),
            MemoryVerdict::Quarantine(_) => None,
        },
        reason: match verdict {
            MemoryVerdict::Quarantine(why) => Some(why@),
            _ => None,
        },
    }
}

/// Where session rows land.
pub open spec fn session_landings(rows: Seq<LegacyView>, verdicts: Seq<SessionVerdict>) -> Seq<
    LandingView,
> {
    Seq::new(verdicts.len(), |i: int| session_landing(rows[i], verdicts[i]))
}

/// Where memory rows land.
pub open spec fn memory_landings(rows: Seq<MemoryFacts>, verdicts: Seq<MemoryVerdict>) -> Seq<
    LandingView,
> {
    Seq::new(verdicts.len(), |i: int| memory_landing(rows[i], verdicts[i]))
}

/// How many of the first `n` session rows have an owner.
pub open spec fn sessions_owned(verdicts: Seq<SessionVerdict>, n: int) -> nat
    decreases n,
{
    if n <= 0 {
        0
    } else {
        sessions_owned(verdicts, n - 1) + if verdicts[n - 1].target is Some {
            1nat
        } else {
            0nat
        }
    }
}

/// How many of the first `n` memory rows move.
pub open spec fn memories_moved(verdicts: Seq<MemoryVerdict>, n: int) -> nat
    decreases n,
{
    if n <= 0 {
        0
    } else {
        memories_moved(verdicts, n - 1) + if verdicts[n - 1] is Move {
            1nat
        } else {
            0nat
        }
    }
}

/// How many of the first `n` memory rows are set aside.
pub open spec fn memories_refused(verdicts: Seq<MemoryVerdict>, n: int) -> nat
    decreases n,
{
    if n <= 0 {
        0
    } else {
        memories_refused(verdicts, n - 1) + if verdicts[n - 1] is Quarantine {
            1nat
        } else {
            0nat
        }
    }
}

/// What was found out about a database: the report, and what becomes of every
/// row.
pub struct Analysis {
    pub report: MigrationReport,
    pub sessions: Vec<SessionVerdict>,
    pub memories: Vec<MemoryVerdict>,
}

fn land_sessions(rows: &Vec<LegacyRow>, verdicts: &Vec<SessionVerdict>) -> (out: Vec<Landing>)
    requires
        rows@.len() == verdicts@.len(),
    ensures
        landings_view(out@) == session_landings(legacy_view(rows@), verdicts@),
{
    let mut out: Vec<Landing> = Vec::new();
    let mut i: usize = 0;
    while i < verdicts.len()
        invariant
            i <= verdicts@.len(),
            rows@.len() == verdicts@.len(),
            out@.len() == i,
            forall|k: int|
                0 <= k < i ==> (#[trigger] out@[k])@ == session_landing(rows@[k]@, verdicts@[k]),
        decreases verdicts@.len() - i,
    {
        let target = match &verdicts[i].target {
            Some(principal) => Some(principal.storage_name()),
            None => None,
        };
        let reason = match &verdicts[i].reason {
            Some(why) => Some(why.clone()),
            None => None,
        };
        out.push(Landing { legacy_key: rows[i].legacy_key.clone(), target, reason });
        i = i + 1;
    }
    assert(landings_view(out@) =~= session_landings(legacy_view(rows@), verdicts@));
    out
}

fn land_memories(rows: &Vec<MemoryFacts>, verdicts: &Vec<MemoryVerdict>) -> (out: Vec<Landing>)
    requires
        rows@.len() == verdicts@.len(),
    ensures
        landings_view(out@) == memory_landings(rows@, verdicts@),
{
    let mut out: Vec<Landing> = Vec::new();
    let mut i: usize = 0;
    while i < verdicts.len()
        invariant
            i <= verdicts@.len(),
            rows@.len() == verdicts@.len(),
            out@.len() == i,
            forall|k: int|
                0 <= k < i ==> (#[trigger] out@[k])@ == memory_landing(rows@[k], verdicts@[k]),
        decreases verdicts@.len() - i,
    {
        let landing = match &verdicts[i] {
            MemoryVerdict::Keep => Landing {
                legacy_key: rows[i].namespace.clone(),
                target: Some(rows[i].namespace.clone()),
                reason: None,
            },
            MemoryVerdict::Move(scope) => Landing {
                legacy_key: rows[i].namespace.clone(),
                target: Some(scope.namespace()),
                reason: None,
            },
            MemoryVerdict::Quarantine(why) => Landing {
                legacy_key: rows[i].namespace.clone(),
                target: None,
                reason: Some(why.clone()),
            },
        };
        out.push(landing);
        i = i + 1;
    }
    assert(landings_view(out@) =~= memory_landings(rows@, verdicts@));
    out
}

/// Whether a report accounts for an analysis of a database still to be
/// migrated.
pub open spec fn accounts_for(
    analysis: Analysis,
    version: u32,
    path: Seq<char>,
    rows: Seq<LegacyView>,
    memories: Seq<MemoryFacts>,
) -> bool {
    let report = analysis.report;
    let s = analysis.sessions@;
    let m = analysis.memories@;
    &&& report.database_path@ == path
    &&& report.from_version == version
    &&& report.to_version == CURRENT_PERSISTENCE_VERSION
    &&& !report.already_current
    &&& report.backup_required
    &&& report.session_rows == rows.len()
    &&& report.session_rows_to_migrate == sessions_owned(s, s.len() as int)
    &&& report.session_rows_to_quarantine == rows.len() - sessions_owned(s, s.len() as int)
    &&& report.memory_rows == memories.len()
    &&& report.memory_rows_to_migrate == memories_moved(m, m.len() as int)
    &&& report.memory_rows_to_quarantine == memories_refused(m, m.len() as int)
    &&& exists|a: Seq<MigrationCollision>, b: Seq<MigrationCollision>| #[trigger]
        splits_are(report.collisions@, a, b, session_landings(rows, s), memory_landings(memories, m))
    &&& exists|a: Seq<MigrationIssue>, b: Seq<MigrationIssue>| #[trigger]
        issues_are(report.issues@, a, b, session_landings(rows, s), memory_landings(memories, m))
}

/// Whether a list is the session collisions followed by the memory ones.
pub open spec fn splits_are(
    all: Seq<MigrationCollision>,
    a: Seq<MigrationCollision>,
    b: Seq<MigrationCollision>,
    sessions: Seq<LandingView>,
    memories: Seq<LandingView>,
) -> bool {
    &&& all == a + b
    &&& reports_splits(a, "session_principal_split"@, sessions)
    &&& reports_splits(b, "memory_namespace_split"@, memories)
}

/// Whether a list is the session issues followed by the memory ones.
pub open spec fn issues_are(
    all: Seq<MigrationIssue>,
    a: Seq<MigrationIssue>,
    b: Seq<MigrationIssue>,
    sessions: Seq<LandingView>,
    memories: Seq<LandingView>,
) -> bool {
    &&& all == a + b
    &&& reports_issues(a, "session"@, sessions)
    &&& reports_issues(b, "memory"@, memories)
}

/// Whether a report says there is nothing to do.
pub open spec fn is_current_report(
    report: MigrationReport,
    version: u32,
    path: Seq<char>,
    session_rows: nat,
    memory_rows: nat,
) -> bool {
    &&& report.database_path@ == path
    &&& report.from_version == version
    &&& report.to_version == version
    &&& report.already_current
    &&& !report.backup_required
    &&& report.session_rows == session_rows
    &&& report.session_rows_to_migrate == 0
    &&& report.session_rows_to_quarantine == 0
    &&& report.memory_rows == memory_rows
    &&& report.memory_rows_to_migrate == 0
    &&& report.memory_rows_to_quarantine == 0
    &&& report.collisions@.len() == 0
    &&& report.issues@.len() == 0
}

/// What is reported of a database there is nothing to do to.
pub fn current_report(version: u32, path: &str, session_rows: usize, memory_rows: usize) -> (out:
    MigrationReport)
    ensures
        is_current_report(out, version, path@, session_rows as nat, memory_rows as nat),
{
    MigrationReport {
        database_path: path.to_owned(),
        from_version: version,
        to_version: version,
        already_current: true,
        backup_required: false,
        session_rows,
        session_rows_to_migrate: 0,
        session_rows_to_quarantine: 0,
        memory_rows,
        memory_rows_to_migrate: 0,
        memory_rows_to_quarantine: 0,
        collisions: Vec::new(),
        issues: Vec::new(),
    }
}

fn count_owned(verdicts: &Vec<SessionVerdict>) -> (count: usize)
    ensures
        count == sessions_owned(verdicts@, verdicts@.len() as int),
        count <= verdicts@.len(),
{
    let mut count: usize = 0;
    let mut i: usize = 0;
    while i < verdicts.len()
        invariant
            i <= verdicts@.len(),
            count <= i,
            count == sessions_owned(verdicts@, i as int),
        decreases verdicts@.len() - i,
    {
        if verdicts[i].target.is_some() {
            count = count + 1;
        }
        i = i + 1;
    }
    count
}

fn count_memories(verdicts: &Vec<MemoryVerdict>) -> (counts: (usize, usize))
    ensures
        counts.0 == memories_moved(verdicts@, verdicts@.len() as int),
        counts.1 == memories_refused(verdicts@, verdicts@.len() as int),
{
    let mut moved: usize = 0;
    let mut refused: usize = 0;
    let mut i: usize = 0;
    while i < verdicts.len()
        invariant
            i <= verdicts@.len(),
            moved <= i,
            refused <= i,
            moved == memories_moved(verdicts@, i as int),
            refused == memories_refused(verdicts@, i as int),
        decreases verdicts@.len() - i,
    {
        match &verdicts[i] {
            MemoryVerdict::Move(_) => {
                moved = moved + 1;
            },
            MemoryVerdict::Quarantine(_) => {
                refused = refused + 1;
            },
            MemoryVerdict::Keep => {},
        }
        i = i + 1;
    }
    (moved, refused)
}

/// Works out what a migration would do to a database, changing nothing. A
/// database from a newer build is refused, a current one has nothing to do.
pub fn analyze(
    version: u32,
    path: &str,
    rows: &Vec<LegacyRow>,
    memories: &Vec<MemoryFacts>,
    default_agent: &str,
) -> (out: Result<Analysis, MigrationError>)
    ensures
        version > CURRENT_PERSISTENCE_VERSION ==> (out matches Err(
            MigrationError::FutureVersion { found, supported },
        ) && found == version && supported == CURRENT_PERSISTENCE_VERSION),
        version == CURRENT_PERSISTENCE_VERSION ==> (out matches Ok(analysis) && is_current_report(
            analysis.report,
            version,
            path@,
            rows@.len(),
            memories@.len(),
        ) && analysis.sessions@.len() == 0 && analysis.memories@.len() == 0),
        version < CURRENT_PERSISTENCE_VERSION ==> (out matches Ok(analysis) && {
            &&& analysis.sessions@.len() == rows@.len()
            &&& forall|i: int|
                0 <= i < rows@.len() ==> is_verdict(
                    #[trigger] analysis.sessions@[i],
                    row_owner(legacy_view(rows@), default_agent@, i),
                )
            &&& analysis.memories@.len() == memories@.len()
            &&& forall|i: int|
                0 <= i < memories@.len() ==> is_memory_verdict(
                    #[trigger] analysis.memories@[i],
                    memories@[i],
                    resolved_principals(
                        analysis.sessions@,
                        analysis.sessions@.len() as int,
                    ),
                )
            &&& accounts_for(analysis, version, path@, legacy_view(rows@), memories@)
        }),
{
    match check_version(version) {
        VersionCheck::Future => {
            return Err(
                MigrationError::FutureVersion {
                    found: version,
                    supported: CURRENT_PERSISTENCE_VERSION,
                },
            );
        },
        VersionCheck::Current => {
            let report = current_report(version, path, rows.len(), memories.len());
            return Ok(Analysis { report, sessions: Vec::new(), memories: Vec::new() });
        },
        VersionCheck::Legacy => {},
    }
    let sessions = analyze_sessions(rows, default_agent);
    let principals = principals_of(&sessions);
    let verdicts = analyze_memories(memories, &principals);
    let session_rows = land_sessions(rows, &sessions);
    let memory_rows = land_memories(memories, &verdicts);
    let mut collisions = split_keys("session_principal_split", &session_rows);
    let ghost split_a = collisions@;
    let mut more = split_keys("memory_namespace_split", &memory_rows);
    let ghost split_b = more@;
    collisions.append(&mut more);
    let mut issues = grouped_issues("session", &session_rows);
    let ghost issue_a = issues@;
    let mut others = grouped_issues("memory", &memory_rows);
    let ghost issue_b = others@;
    issues.append(&mut others);
    let owned: usize = count_owned(&sessions);
    let (moved, refused) = count_memories(&verdicts);
    let report = MigrationReport {
        database_path: path.to_owned(),
        from_version: version,
        to_version: CURRENT_PERSISTENCE_VERSION,
        already_current: false,
        backup_required: true,
        session_rows: rows.len(),
        session_rows_to_migrate: owned,
        session_rows_to_quarantine: sessions.len() - owned,
        memory_rows: memories.len(),
        memory_rows_to_migrate: moved,
        memory_rows_to_quarantine: refused,
        collisions,
        issues,
    };
    proof {
        assert(report.collisions@ =~= split_a + split_b);
        assert(report.issues@ =~= issue_a + issue_b);
        assert(legacy_view(rows@).len() == rows@.len());
    }
    let analysis = Analysis { report, sessions, memories: verdicts };
    proof {
        let s = analysis.sessions@;
        let m = analysis.memories@;
        assert(splits_are(
            analysis.report.collisions@,
            split_a,
            split_b,
            session_landings(legacy_view(rows@), s),
            memory_landings(memories@, m),
        ));
        assert(issues_are(
            analysis.report.issues@,
            issue_a,
            issue_b,
            session_landings(legacy_view(rows@), s),
            memory_landings(memories@, m),
        ));
    }
    Ok(analysis)
}

/// Every session row is accounted for: migrated or quarantined.
pub proof fn every_session_row_is_accounted_for(
    analysis: Analysis,
    version: u32,
    path: Seq<char>,
    rows: Seq<LegacyView>,
    memories: Seq<MemoryFacts>,
)
    requires
        accounts_for(analysis, version, path, rows, memories),
    ensures
        analysis.report.session_rows_to_migrate + analysis.report.session_rows_to_quarantine
            == analysis.report.session_rows,
{
}

/// The rows of a key are counted, and so are those set aside for one reason; and
/// where they go, and why not, is what some row of the key says.
pub proof fn a_report_is_of_its_rows(
    landings: Seq<LandingView>,
    key: Seq<char>,
    text: Seq<char>,
    n: int,
)
    requires
        0 <= n <= landings.len(),
    ensures
        rows_under(landings, key, n) == landings.take(n).filter(
            |l: LandingView| l.legacy_key == key,
        ).len(),
        rows_refused(landings, key, text, n) == landings.take(n).filter(
            |l: LandingView| l.legacy_key == key && l.reason == Some(text),
        ).len(),
        targets_of(landings, key, n).contains(text) <==> exists|i: int|
            0 <= i < n && (#[trigger] landings[i]).legacy_key == key && landings[i].target == Some(
                text,
            ),
        reasons_of(landings, key, n).contains(text) <==> exists|i: int|
            0 <= i < n && (#[trigger] landings[i]).legacy_key == key && landings[i].reason == Some(
                text,
            ),
        keys_of(landings, n).contains(text) <==> exists|i: int|
            0 <= i < n && (#[trigger] landings[i]).legacy_key == text,
    decreases n,
{
    reveal(Seq::filter);
    if n > 0 {
        a_report_is_of_its_rows(landings, key, text, n - 1);
        assert(landings.take(n).drop_last() =~= landings.take(n - 1));
        let last = landings[n - 1];
        if targets_of(landings, key, n - 1).contains(text) {
            let i = choose|i: int|
                0 <= i < n - 1 && (#[trigger] landings[i]).legacy_key == key && landings[i].target
                    == Some(text);
            assert(landings[i].legacy_key == key);
        }
        if reasons_of(landings, key, n - 1).contains(text) {
            let i = choose|i: int|
                0 <= i < n - 1 && (#[trigger] landings[i]).legacy_key == key && landings[i].reason
                    == Some(text);
            assert(landings[i].legacy_key == key);
        }
        if keys_of(landings, n - 1).contains(text) {
            let i = choose|i: int| 0 <= i < n - 1 && (#[trigger] landings[i]).legacy_key == text;
            assert(landings[i].legacy_key == text);
        }
    }
}

/// Every row is counted once, as what became of it.
pub proof fn every_row_is_counted_once(
    sessions: Seq<SessionVerdict>,
    memories: Seq<MemoryVerdict>,
    s: int,
    m: int,
)
    requires
        0 <= s <= sessions.len(),
        0 <= m <= memories.len(),
    ensures
        sessions_owned(sessions, s) == sessions.take(s).filter(
            |v: SessionVerdict| v.target is Some,
        ).len(),
        memories_moved(memories, m) == memories.take(m).filter(|v: MemoryVerdict| v is Move).len(),
        memories_refused(memories, m) == memories.take(m).filter(
            |v: MemoryVerdict| v is Quarantine,
        ).len(),
{
    lemma_sessions_counted(sessions, s);
    lemma_memories_counted(memories, m);
}

proof fn lemma_sessions_counted(sessions: Seq<SessionVerdict>, s: int)
    requires
        0 <= s <= sessions.len(),
    ensures
        sessions_owned(sessions, s) == sessions.take(s).filter(
            |v: SessionVerdict| v.target is Some,
        ).len(),
    decreases s,
{
    reveal(Seq::filter);
    if s > 0 {
        lemma_sessions_counted(sessions, s - 1);
        assert(sessions.take(s).drop_last() =~= sessions.take(s - 1));
    }
}

proof fn lemma_memories_counted(memories: Seq<MemoryVerdict>, m: int)
    requires
        0 <= m <= memories.len(),
    ensures
        memories_moved(memories, m) == memories.take(m).filter(|v: MemoryVerdict| v is Move).len(),
        memories_refused(memories, m) == memories.take(m).filter(
            |v: MemoryVerdict| v is Quarantine,
        ).len(),
    decreases m,
{
    reveal(Seq::filter);
    if m > 0 {
        lemma_memories_counted(memories, m - 1);
        assert(memories.take(m).drop_last() =~= memories.take(m - 1));
    }
}

/// A row lands under what it was resolved to, or is set aside with the reason;
/// one that is kept lands where it was.
pub proof fn a_row_lands_where_it_was_resolved_to(
    row: LegacyView,
    verdict: SessionVerdict,
    facts: MemoryFacts,
    told: MemoryVerdict,
)
    ensures
        session_landing(row, verdict).legacy_key == row.legacy_key,
        verdict.target matches Some(principal) ==> session_landing(row, verdict).target == Some(
            principal@.name(),
        ),
        verdict.target is None ==> session_landing(row, verdict).target is None,
        session_landing(row, verdict).reason == opt_view(verdict.reason),
        memory_landing(facts, told).legacy_key == facts.namespace@,
        told is Keep ==> memory_landing(facts, told).target == Some(facts.namespace@),
        told matches MemoryVerdict::Move(scope) ==> memory_landing(facts, told).target == Some(
            scope@.namespace(),
        ),
        told matches MemoryVerdict::Quarantine(why) ==> memory_landing(facts, told).target is None
            && memory_landing(facts, told).reason == Some(why@),
        !(told is Quarantine) ==> memory_landing(facts, told).reason is None,
{
}

/// What is reported says which table it is about.
pub proof fn what_is_reported_says_which_table(
    analysis: Analysis,
    version: u32,
    path: Seq<char>,
    rows: Seq<LegacyView>,
    memories: Seq<MemoryFacts>,
    i: int,
)
    requires
        accounts_for(analysis, version, path, rows, memories),
    ensures
        0 <= i < analysis.report.issues@.len() ==> analysis.report.issues@[i].kind@ == "session"@
            || analysis.report.issues@[i].kind@ == "memory"@,
        0 <= i < analysis.report.collisions@.len() ==> analysis.report.collisions@[i].kind@
            == "session_principal_split"@ || analysis.report.collisions@[i].kind@
            == "memory_namespace_split"@,
        analysis.report.from_version == version,
        analysis.report.to_version == 1,
        analysis.report.session_rows == rows.len(),
        analysis.report.memory_rows == memories.len(),
{
    let report = analysis.report;
    let sessions = session_landings(rows, analysis.sessions@);
    let others = memory_landings(memories, analysis.memories@);
    let (a, b) = choose|a: Seq<MigrationCollision>, b: Seq<MigrationCollision>| #[trigger]
        splits_are(report.collisions@, a, b, sessions, others);
    let (c, d) = choose|c: Seq<MigrationIssue>, d: Seq<MigrationIssue>| #[trigger]
        issues_are(report.issues@, c, d, sessions, others);
    if 0 <= i < report.collisions@.len() {
        if i < a.len() {
            assert(reports_split(a[i], "session_principal_split"@, sessions));
        } else {
            assert(reports_split(b[i - a.len()], "memory_namespace_split"@, others));
        }
    }
    if 0 <= i < report.issues@.len() {
        if i < c.len() {
            assert(reports_issue(c[i], "session"@, sessions));
        } else {
            assert(reports_issue(d[i - c.len()], "memory"@, others));
        }
    }
}

} // verus!
