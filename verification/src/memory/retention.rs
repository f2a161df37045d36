//! Retention: what a maintenance sweep is allowed to keep.
//!
//! Records over a budget are archived, least worth keeping first, each at most
//! once; nothing is deleted. Age is applied before the other ceilings, because
//! a record past its age is gone whatever they say.

use super::scope::MemoryStore;
use crate::text::{trim, trimmed};
use vstd::prelude::*;

verus! {

/// What a retention pass is allowed to keep. An unset ceiling keeps
/// everything.
pub struct RetentionRequest {
    pub store_budgets: Vec<StoreRetentionBudget>,
    /// Ceiling on active records across every store.
    pub max_records: Option<usize>,
    /// Ceiling on the stored size of active records.
    pub max_bytes: Option<usize>,
    /// Ceiling on a record's age in days.
    pub max_age_days: Option<u64>,
}

/// How many active records one store may hold.
#[derive(Clone, Copy, Debug, PartialEq, Eq, Structural)]
pub struct StoreRetentionBudget {
    pub store: MemoryStore,
    pub max_active_records: usize,
}

impl Default for RetentionRequest {
    fn default() -> (out: RetentionRequest)
        ensures
            out.store_budgets@.len() == 0,
            out.max_records is None,
            out.max_bytes is None,
            out.max_age_days is None,
    {
        RetentionRequest {
            store_budgets: Vec::new(),
            max_records: None,
            max_bytes: None,
            max_age_days: None,
        }
    }
}

impl RetentionRequest {
    /// Whether this request would do nothing at all.
    pub fn is_empty(&self) -> (empty: bool)
        ensures
            empty == (self.store_budgets@.len() == 0 && self.max_records is None && self.max_bytes
                is None && self.max_age_days is None),
    {
        self.store_budgets.len() == 0 && self.max_records.is_none() && self.max_bytes.is_none()
            && self.max_age_days.is_none()
    }
}

/// Why a record was archived.
#[derive(Clone, Copy, Debug, PartialEq, Eq, Structural)]
pub enum ArchiveReason {
    StoreBudget,
    Age,
    Records,
    Bytes,
}

/// The stable name of a reason.
pub open spec fn reason_name(reason: ArchiveReason) -> Seq<char> {
    match reason {
        ArchiveReason::StoreBudget => "retention_budget"@,
        ArchiveReason::Age => "retention_age"@,
        ArchiveReason::Records => "retention_records"@,
        ArchiveReason::Bytes => "retention_bytes"@,
    }
}

impl ArchiveReason {
    /// The stable name of this reason.
    pub fn as_str(self) -> (name: &'static str)
        ensures
            name@ == reason_name(self),
    {
        match self {
            ArchiveReason::StoreBudget => "retention_budget",
            ArchiveReason::Age => "retention_age",
            ArchiveReason::Records => "retention_records",
            ArchiveReason::Bytes => "retention_bytes",
        }
    }
}

/// An active record, as far as retention looks at it.
#[derive(Clone, Copy, Debug, PartialEq, Eq, Structural)]
pub struct RetentionCandidate {
    pub row_id: i64,
    /// The store it is filed under, when it says.
    pub store: Option<MemoryStore>,
    /// Where the record's importance stands among all; a higher number is more
    /// important.
    pub importance_rank: u64,
    pub access_count: i64,
    /// Stored size of body and metadata.
    pub bytes: usize,
    /// Age in whole days; `None` when it cannot be told, which is never too
    /// old.
    pub age_days: Option<u64>,
}

/// Whether one record goes before another: less important, then less read,
/// then older.
pub open spec fn goes_before(a: RetentionCandidate, b: RetentionCandidate) -> bool {
    a.importance_rank < b.importance_rank || (a.importance_rank == b.importance_rank && (
    a.access_count < b.access_count || (a.access_count == b.access_count && a.row_id < b.row_id)))
}

fn goes_first(a: &RetentionCandidate, b: &RetentionCandidate) -> (yes: bool)
    ensures
        yes == goes_before(*a, *b),
{
    a.importance_rank < b.importance_rank || (a.importance_rank == b.importance_rank && (
    a.access_count < b.access_count || (a.access_count == b.access_count && a.row_id < b.row_id)))
}

/// Whether a record is still active and of the store in question, if one is.
pub open spec fn in_play(
    records: Seq<RetentionCandidate>,
    gone: Seq<bool>,
    store: Option<MemoryStore>,
    i: int,
) -> bool {
    0 <= i < records.len() && !gone[i] && (store matches Some(s) ==> records[i].store == Some(s))
}

/// Whether a record is the next to go: nothing in play goes before it, and of
/// equals it is the first.
pub open spec fn is_next(
    records: Seq<RetentionCandidate>,
    gone: Seq<bool>,
    store: Option<MemoryStore>,
    i: int,
) -> bool {
    &&& in_play(records, gone, store, i)
    &&& forall|j: int| #[trigger]
        in_play(records, gone, store, j) ==> goes_before(records[i], records[j]) || (!goes_before(
            records[j],
            records[i],
        ) && i <= j)
}

/// The next record to go.
pub open spec fn next_of(
    records: Seq<RetentionCandidate>,
    gone: Seq<bool>,
    store: Option<MemoryStore>,
) -> int {
    choose|i: int| is_next(records, gone, store, i)
}

/// How many of the first `n` records are in play.
pub open spec fn play_count(
    records: Seq<RetentionCandidate>,
    gone: Seq<bool>,
    store: Option<MemoryStore>,
    n: int,
) -> nat
    decreases n,
{
    if n <= 0 {
        0
    } else {
        play_count(records, gone, store, n - 1) + if in_play(records, gone, store, n - 1) {
            1nat
        } else {
            0nat
        }
    }
}

/// How many bytes the first `n` records hold, of those in play.
pub open spec fn play_bytes(records: Seq<RetentionCandidate>, gone: Seq<bool>, n: int) -> nat
    decreases n,
{
    if n <= 0 {
        0
    } else {
        play_bytes(records, gone, n - 1) + if in_play(records, gone, None, n - 1) {
            records[n - 1].bytes as nat
        } else {
            0nat
        }
    }
}

/// A sweep so far: which records are archived, in which order and why, and how
/// many were looked at.
#[verifier::ext_equal]
pub struct Sweep {
    pub gone: Seq<bool>,
    pub log: Seq<(int, ArchiveReason)>,
    pub checked: nat,
}

impl Sweep {
    /// The sweep with one more record archived.
    pub open spec fn archive(self, i: int, reason: ArchiveReason) -> Sweep {
        Sweep { gone: self.gone.update(i, true), log: self.log.push((i, reason)), ..self }
    }

    /// The sweep with more records looked at.
    pub open spec fn look(self, count: nat) -> Sweep {
        Sweep { checked: self.checked + count, ..self }
    }
}

/// A sweep that has done nothing.
pub open spec fn fresh_sweep(len: nat) -> Sweep {
    Sweep { gone: Seq::new(len, |i: int| false), log: Seq::empty(), checked: 0 }
}

/// Archives the next `n` records of a store, or of all.
pub open spec fn evict(
    records: Seq<RetentionCandidate>,
    sweep: Sweep,
    store: Option<MemoryStore>,
    reason: ArchiveReason,
    n: nat,
) -> Sweep
    decreases n,
{
    if n == 0 {
        sweep
    } else {
        evict(
            records,
            sweep.archive(next_of(records, sweep.gone, store), reason),
            store,
            reason,
            (n - 1) as nat,
        )
    }
}

/// How many records are over a ceiling.
pub open spec fn over(count: nat, max: nat) -> nat {
    if count > max {
        (count - max) as nat
    } else {
        0
    }
}

/// Applies one store's budget.
pub open spec fn apply_budget(
    records: Seq<RetentionCandidate>,
    sweep: Sweep,
    budget: StoreRetentionBudget,
) -> Sweep {
    let count = play_count(records, sweep.gone, Some(budget.store), records.len() as int);
    evict(
        records,
        sweep.look(count),
        Some(budget.store),
        ArchiveReason::StoreBudget,
        over(count, budget.max_active_records as nat),
    )
}

/// Applies the first `n` store budgets.
pub open spec fn apply_budgets(
    records: Seq<RetentionCandidate>,
    budgets: Seq<StoreRetentionBudget>,
    n: int,
) -> Sweep
    decreases n,
{
    if n <= 0 {
        fresh_sweep(records.len())
    } else {
        apply_budget(records, apply_budgets(records, budgets, n - 1), budgets[n - 1])
    }
}

/// Archives what is too old among the first `n` records.
pub open spec fn apply_age(records: Seq<RetentionCandidate>, sweep: Sweep, max: u64, n: int) -> Sweep
    decreases n,
{
    if n <= 0 {
        sweep
    } else {
        let before = apply_age(records, sweep, max, n - 1);
        if !before.gone[n - 1] && (records[n - 1].age_days matches Some(age) && age > max) {
            before.archive(n - 1, ArchiveReason::Age)
        } else {
            before
        }
    }
}

/// Archives the next records until what is left fits `max` bytes; at most
/// `fuel` of them.
pub open spec fn apply_bytes(records: Seq<RetentionCandidate>, sweep: Sweep, max: nat, fuel: nat) -> Sweep
    decreases fuel,
{
    if fuel == 0 || play_bytes(records, sweep.gone, records.len() as int) <= max {
        sweep
    } else {
        apply_bytes(
            records,
            sweep.archive(next_of(records, sweep.gone, None), ArchiveReason::Bytes),
            max,
            (fuel - 1) as nat,
        )
    }
}

/// The records ceiling, once age was applied.
pub open spec fn apply_records(records: Seq<RetentionCandidate>, sweep: Sweep, max: Option<usize>) -> Sweep {
    match max {
        Some(max) => evict(
            records,
            sweep,
            None,
            ArchiveReason::Records,
            over(play_count(records, sweep.gone, None, records.len() as int), max as nat),
        ),
        None => sweep,
    }
}

/// A whole sweep: store budgets in order, then age, count and size over every
/// store.
pub open spec fn swept(
    records: Seq<RetentionCandidate>,
    budgets: Seq<StoreRetentionBudget>,
    max_records: Option<usize>,
    max_bytes: Option<usize>,
    max_age_days: Option<u64>,
) -> Sweep {
    let after_budgets = apply_budgets(records, budgets, budgets.len() as int);
    if max_records is None && max_bytes is None && max_age_days is None {
        after_budgets
    } else {
        let looked = after_budgets.look(
            play_count(records, after_budgets.gone, None, records.len() as int),
        );
        let after_age = match max_age_days {
            Some(max) => apply_age(records, looked, max, records.len() as int),
            None => looked,
        };
        let after_records = apply_records(records, after_age, max_records);
        match max_bytes {
            Some(max) => apply_bytes(
                records,
                after_records,
                max as nat,
                play_count(records, after_records.gone, None, records.len() as int),
            ),
            None => after_records,
        }
    }
}

proof fn lemma_play_count(
    records: Seq<RetentionCandidate>,
    gone: Seq<bool>,
    store: Option<MemoryStore>,
    n: int,
)
    requires
        0 <= n <= records.len(),
        gone.len() == records.len(),
    ensures
        play_count(records, gone, store, n) <= n,
        play_count(records, gone, store, n) > 0 <==> exists|i: int|
            i < n && #[trigger] in_play(records, gone, store, i),
    decreases n,
{
    if n > 0 {
        lemma_play_count(records, gone, store, n - 1);
        if in_play(records, gone, store, n - 1) {
            assert(n - 1 < n && in_play(records, gone, store, n - 1));
        } else if play_count(records, gone, store, n - 1) > 0 {
            let i = choose|i: int| i < n - 1 && #[trigger] in_play(records, gone, store, i);
            assert(i < n && in_play(records, gone, store, i));
        }
    }
}

proof fn lemma_archive_counts(
    records: Seq<RetentionCandidate>,
    gone: Seq<bool>,
    at: int,
    store: Option<MemoryStore>,
    n: int,
)
    requires
        0 <= n <= records.len(),
        gone.len() == records.len(),
        0 <= at < records.len(),
        !gone[at],
    ensures
        play_count(records, gone.update(at, true), store, n) == play_count(records, gone, store, n)
            - (if at < n && in_play(records, gone, store, at) {
            1int
        } else {
            0int
        }),
        play_bytes(records, gone.update(at, true), n) == play_bytes(records, gone, n) - (if at < n {
            records[at].bytes as int
        } else {
            0int
        }),
    decreases n,
{
    if n > 0 {
        lemma_archive_counts(records, gone, at, store, n - 1);
        let after = gone.update(at, true);
        if n - 1 != at {
            assert(after[n - 1] == gone[n - 1]);
        }
    }
}

fn find_next(records: &Vec<RetentionCandidate>, gone: &Vec<bool>, store: Option<MemoryStore>) -> (at: Option<
    usize,
>)
    requires
        gone@.len() == records@.len(),
    ensures
        at matches Some(i) ==> is_next(records@, gone@, store, i as int) && next_of(
            records@,
            gone@,
            store,
        ) == i,
        at is None ==> forall|i: int| !#[trigger] in_play(records@, gone@, store, i),
{
    let mut best: Option<usize> = None;
    let mut i: usize = 0;
    while i < records.len()
        invariant
            i <= records@.len(),
            gone@.len() == records@.len(),
            best matches Some(b) ==> b < i && in_play(records@, gone@, store, b as int) && forall|
                j: int,
            |
                j < i && #[trigger] in_play(records@, gone@, store, j) ==> goes_before(
                    records@[b as int],
                    records@[j],
                ) || (!goes_before(records@[j], records@[b as int]) && b <= j),
            best is None ==> forall|j: int|
                j < i ==> !#[trigger] in_play(records@, gone@, store, j),
        decreases records@.len() - i,
    {
        let fits = match store {
            Some(s) => records[i].store == Some(s),
            None => true,
        };
        if !gone[i] && fits {
            best = match best {
                None => Some(i),
                Some(b) => {
                    if goes_first(&records[i], &records[b]) {
                        Some(i)
                    } else {
                        Some(b)
                    }
                },
            };
        }
        i = i + 1;
    }
    proof {
        if let Some(b) = best {
            assert(is_next(records@, gone@, store, b as int));
            let chosen = next_of(records@, gone@, store);
            assert(is_next(records@, gone@, store, chosen));
            assert(in_play(records@, gone@, store, chosen));
            assert(in_play(records@, gone@, store, b as int));
        }
    }
    best
}

fn count_play(records: &Vec<RetentionCandidate>, gone: &Vec<bool>, store: Option<MemoryStore>) -> (count:
    usize)
    requires
        gone@.len() == records@.len(),
    ensures
        count == play_count(records@, gone@, store, records@.len() as int),
        count <= records@.len(),
{
    let mut count: usize = 0;
    let mut i: usize = 0;
    while i < records.len()
        invariant
            i <= records@.len(),
            count <= i,
            gone@.len() == records@.len(),
            count == play_count(records@, gone@, store, i as int),
        decreases records@.len() - i,
    {
        let fits = match store {
            Some(s) => records[i].store == Some(s),
            None => true,
        };
        if !gone[i] && fits {
            count = count + 1;
        }
        i = i + 1;
    }
    count
}

/// One archived record: its position among the candidates, and why.
#[derive(Clone, Copy, Debug, PartialEq, Eq, Structural)]
pub struct Archived {
    pub position: usize,
    pub reason: ArchiveReason,
}

/// What a retention pass did.
pub struct RetentionReport {
    pub checked_records: usize,
    /// The archived records, in the order they were archived.
    pub archived: Vec<Archived>,
    /// The records that were deleted outright: none, since what does not fit is
    /// archived.
    pub pruned_records: Vec<String>,
}

/// The archived records of a list.
pub open spec fn archived_view(archived: Seq<Archived>) -> Seq<(int, ArchiveReason)> {
    archived.map_values(|a: Archived| (a.position as int, a.reason))
}

fn archive_once(
    gone: &mut Vec<bool>,
    archived: &mut Vec<Archived>,
    position: usize,
    reason: ArchiveReason,
)
    requires
        position < old(gone)@.len(),
    ensures
        final(gone)@ == old(gone)@.update(position as int, true),
        archived_view(final(archived)@) == archived_view(old(archived)@).push(
            (position as int, reason),
        ),
{
    gone.set(position, true);
    let ghost before = archived_view(archived@);
    archived.push(Archived { position, reason });
    assert(archived_view(archived@) =~= before.push((position as int, reason)));
}

fn evict_next(
    records: &Vec<RetentionCandidate>,
    gone: &mut Vec<bool>,
    archived: &mut Vec<Archived>,
    store: Option<MemoryStore>,
    reason: ArchiveReason,
    n: usize,
    Ghost(sweep): Ghost<Sweep>,
)
    requires
        old(gone)@.len() == records@.len(),
        sweep.gone == old(gone)@,
        sweep.log == archived_view(old(archived)@),
        n <= play_count(records@, old(gone)@, store, records@.len() as int),
    ensures
        final(gone)@ == evict(records@, sweep, store, reason, n as nat).gone,
        final(gone)@.len() == records@.len(),
        archived_view(final(archived)@) == evict(records@, sweep, store, reason, n as nat).log,
        evict(records@, sweep, store, reason, n as nat).checked == sweep.checked,
{
    let ghost mut now = sweep;
    let mut left: usize = n;
    while left > 0
        invariant
            left <= n,
            gone@.len() == records@.len(),
            now.gone == gone@,
            now.log == archived_view(archived@),
            now.checked == sweep.checked,
            left <= play_count(records@, gone@, store, records@.len() as int),
            evict(records@, now, store, reason, left as nat) == evict(
                records@,
                sweep,
                store,
                reason,
                n as nat,
            ),
        decreases left,
    {
        proof {
            lemma_play_count(records@, gone@, store, records@.len() as int);
        }
        match find_next(records, gone, store) {
            Some(i) => {
                proof {
                    lemma_archive_counts(
                        records@,
                        gone@,
                        i as int,
                        store,
                        records@.len() as int,
                    );
                    now = now.archive(i as int, reason);
                }
                archive_once(gone, archived, i, reason);
            },
            None => {
                assert(false);
            },
        }
        left = left - 1;
    }
}

fn archive_old(
    records: &Vec<RetentionCandidate>,
    gone: &mut Vec<bool>,
    archived: &mut Vec<Archived>,
    max: u64,
    Ghost(sweep): Ghost<Sweep>,
)
    requires
        old(gone)@.len() == records@.len(),
        sweep.gone == old(gone)@,
        sweep.log == archived_view(old(archived)@),
    ensures
        final(gone)@ == apply_age(records@, sweep, max, records@.len() as int).gone,
        final(gone)@.len() == records@.len(),
        archived_view(final(archived)@) == apply_age(
            records@,
            sweep,
            max,
            records@.len() as int,
        ).log,
        apply_age(records@, sweep, max, records@.len() as int).checked == sweep.checked,
{
    let mut i: usize = 0;
    while i < records.len()
        invariant
            i <= records@.len(),
            gone@.len() == records@.len(),
            gone@ == apply_age(records@, sweep, max, i as int).gone,
            archived_view(archived@) == apply_age(records@, sweep, max, i as int).log,
            apply_age(records@, sweep, max, i as int).checked == sweep.checked,
        decreases records@.len() - i,
    {
        let old_enough = match records[i].age_days {
            Some(age) => age > max,
            None => false,
        };
        if !gone[i] && old_enough {
            archive_once(gone, archived, i, ArchiveReason::Age);
        }
        i = i + 1;
    }
}

fn sum_bytes(records: &Vec<RetentionCandidate>, gone: &Vec<bool>) -> (total: usize)
    requires
        gone@.len() == records@.len(),
        play_bytes(records@, gone@, records@.len() as int) <= usize::MAX,
    ensures
        total == play_bytes(records@, gone@, records@.len() as int),
{
    let mut total: usize = 0;
    let mut i: usize = 0;
    while i < records.len()
        invariant
            i <= records@.len(),
            gone@.len() == records@.len(),
            play_bytes(records@, gone@, records@.len() as int) <= usize::MAX,
            total == play_bytes(records@, gone@, i as int),
        decreases records@.len() - i,
    {
        proof {
            lemma_bytes_grow(records@, gone@, i + 1, records@.len() as int);
        }
        if !gone[i] {
            total = total + records[i].bytes;
        }
        i = i + 1;
    }
    total
}

proof fn lemma_bytes_grow(records: Seq<RetentionCandidate>, gone: Seq<bool>, i: int, n: int)
    requires
        0 <= i <= n,
    ensures
        play_bytes(records, gone, i) <= play_bytes(records, gone, n),
    decreases n - i,
{
    if i < n {
        lemma_bytes_grow(records, gone, i, n - 1);
    }
}

fn archive_bytes(
    records: &Vec<RetentionCandidate>,
    gone: &mut Vec<bool>,
    archived: &mut Vec<Archived>,
    max: usize,
    Ghost(sweep): Ghost<Sweep>,
)
    requires
        old(gone)@.len() == records@.len(),
        sweep.gone == old(gone)@,
        sweep.log == archived_view(old(archived)@),
        play_bytes(records@, old(gone)@, records@.len() as int) <= usize::MAX,
    ensures
        ({
            let fuel = play_count(records@, old(gone)@, None, records@.len() as int);
            let after = apply_bytes(records@, sweep, max as nat, fuel);
            &&& final(gone)@ == after.gone
            &&& final(gone)@.len() == records@.len()
            &&& archived_view(final(archived)@) == after.log
            &&& after.checked == sweep.checked
        }),
{
    let ghost fuel = play_count(records@, gone@, None, records@.len() as int);
    let ghost mut now = sweep;
    let mut left: usize = count_play(records, gone, None);
    let mut total: usize = sum_bytes(records, gone);
    while total > max && left > 0
        invariant
            gone@.len() == records@.len(),
            now.gone == gone@,
            now.log == archived_view(archived@),
            now.checked == sweep.checked,
            left == play_count(records@, gone@, None, records@.len() as int),
            total == play_bytes(records@, gone@, records@.len() as int),
            apply_bytes(records@, now, max as nat, left as nat) == apply_bytes(
                records@,
                sweep,
                max as nat,
                fuel,
            ),
        decreases left,
    {
        proof {
            lemma_play_count(records@, gone@, None, records@.len() as int);
        }
        match find_next(records, gone, None) {
            Some(i) => {
                proof {
                    lemma_archive_counts(
                        records@,
                        gone@,
                        i as int,
                        None,
                        records@.len() as int,
                    );
                    now = now.archive(i as int, ArchiveReason::Bytes);
                }
                archive_once(gone, archived, i, ArchiveReason::Bytes);
                total = total - records[i].bytes;
            },
            None => {
                assert(false);
            },
        }
        left = left - 1;
    }
}

/// The sum of a request's looks stays within machine limits.
pub open spec fn looks_fit(records: nat, budgets: nat) -> bool {
    records * (budgets + 1) <= usize::MAX
}

/// Applies every configured ceiling, archiving what does not fit.
pub fn apply_retention_budgets(request: &RetentionRequest, records: &Vec<RetentionCandidate>) -> (report:
    RetentionReport)
    requires
        looks_fit(records@.len(), request.store_budgets@.len()),
        play_bytes(
            records@,
            Seq::new(records@.len(), |i: int| false),
            records@.len() as int,
        ) <= usize::MAX,
    ensures
        ({
            let sweep = swept(
                records@,
                request.store_budgets@,
                request.max_records,
                request.max_bytes,
                request.max_age_days,
            );
            &&& report.checked_records == sweep.checked
            &&& archived_view(report.archived@) == sweep.log
            &&& report.pruned_records@.len() == 0
        }),
{
    let ghost len = records@.len() as int;
    let ghost budgets = request.store_budgets@;
    let mut gone: Vec<bool> = Vec::new();
    let mut k: usize = 0;
    while k < records.len()
        invariant
            k <= records@.len(),
            gone@.len() == k,
            forall|i: int| 0 <= i < k ==> !#[trigger] gone@[i],
        decreases records@.len() - k,
    {
        gone.push(false);
        k = k + 1;
    }
    let mut archived: Vec<Archived> = Vec::new();
    let mut checked: usize = 0;
    let mut b: usize = 0;
    proof {
        assert(gone@ =~= fresh_sweep(records@.len()).gone);
        assert(archived_view(archived@) =~= Seq::empty());
        assert(records@.len() * (0 as int) == 0) by (nonlinear_arith);
    }
    while b < request.store_budgets.len()
        invariant
            b <= budgets.len(),
            budgets == request.store_budgets@,
            len == records@.len(),
            looks_fit(records@.len(), budgets.len()),
            gone@.len() == records@.len(),
            gone@ == apply_budgets(records@, budgets, b as int).gone,
            archived_view(archived@) == apply_budgets(records@, budgets, b as int).log,
            checked == apply_budgets(records@, budgets, b as int).checked,
            checked <= records@.len() * b,
            play_bytes(records@, gone@, len) <= usize::MAX,
        decreases budgets.len() - b,
    {
        let budget = request.store_budgets[b];
        let ghost before = apply_budgets(records@, budgets, b as int);
        let count: usize = count_play(records, &gone, Some(budget.store));
        let overflow: usize = if count > budget.max_active_records {
            count - budget.max_active_records
        } else {
            0
        };
        proof {
            assert(records@.len() * b + records@.len() <= records@.len() * (budgets.len() + 1))
                by (nonlinear_arith)
                requires
                    b < budgets.len(),
            ;
            assert(records@.len() * (b + 1) == records@.len() * b + records@.len())
                by (nonlinear_arith);
        }
        checked = checked + count;
        let ghost looked = before.look(count as nat);
        let ghost had = gone@;
        evict_next(
            records,
            &mut gone,
            &mut archived,
            Some(budget.store),
            ArchiveReason::StoreBudget,
            overflow,
            Ghost(looked),
        );
        proof {
            lemma_evict_bytes(
                records@,
                looked,
                Some(budget.store),
                ArchiveReason::StoreBudget,
                overflow as nat,
            );
        }
        b = b + 1;
    }
    if request.max_records.is_none() && request.max_bytes.is_none()
        && request.max_age_days.is_none() {
        return RetentionReport { checked_records: checked, archived, pruned_records: Vec::new() };
    }
    let ghost after_budgets = apply_budgets(records@, budgets, budgets.len() as int);
    let count: usize = count_play(records, &gone, None);
    proof {
        assert(records@.len() * budgets.len() + records@.len() == records@.len() * (budgets.len()
            + 1)) by (nonlinear_arith);
    }
    checked = checked + count;
    let ghost mut now = after_budgets.look(count as nat);
    if let Some(max) = request.max_age_days {
        archive_old(records, &mut gone, &mut archived, max, Ghost(now));
        proof {
            lemma_age_bytes(records@, now, max, len);
            now = apply_age(records@, now, max, len);
        }
    }
    if let Some(max) = request.max_records {
        let count: usize = count_play(records, &gone, None);
        let overflow: usize = if count > max {
            count - max
        } else {
            0
        };
        evict_next(
            records,
            &mut gone,
            &mut archived,
            None,
            ArchiveReason::Records,
            overflow,
            Ghost(now),
        );
        proof {
            lemma_evict_bytes(records@, now, None, ArchiveReason::Records, overflow as nat);
            now = evict(records@, now, None, ArchiveReason::Records, overflow as nat);
        }
    }
    if let Some(max) = request.max_bytes {
        archive_bytes(records, &mut gone, &mut archived, max, Ghost(now));
    }
    RetentionReport { checked_records: checked, archived, pruned_records: Vec::new() }
}

proof fn lemma_evict_bytes(
    records: Seq<RetentionCandidate>,
    sweep: Sweep,
    store: Option<MemoryStore>,
    reason: ArchiveReason,
    n: nat,
)
    requires
        sweep.gone.len() == records.len(),
        n <= play_count(records, sweep.gone, store, records.len() as int),
    ensures
        play_bytes(
            records,
            evict(records, sweep, store, reason, n).gone,
            records.len() as int,
        ) <= play_bytes(records, sweep.gone, records.len() as int),
        play_count(
            records,
            evict(records, sweep, store, reason, n).gone,
            store,
            records.len() as int,
        ) == play_count(records, sweep.gone, store, records.len() as int) - n,
        evict(records, sweep, store, reason, n).gone.len() == records.len(),
    decreases n,
{
    if n > 0 {
        let len = records.len() as int;
        lemma_play_count(records, sweep.gone, store, len);
        let i = next_of(records, sweep.gone, store);
        lemma_next_exists(records, sweep.gone, store);
        lemma_archive_counts(records, sweep.gone, i, store, len);
        lemma_evict_bytes(records, sweep.archive(i, reason), store, reason, (n - 1) as nat);
    }
}

proof fn lemma_next_exists(records: Seq<RetentionCandidate>, gone: Seq<bool>, store: Option<MemoryStore>)
    requires
        gone.len() == records.len(),
        exists|i: int| #[trigger] in_play(records, gone, store, i),
    ensures
        is_next(records, gone, store, next_of(records, gone, store)),
{
    let i = choose|i: int| #[trigger] in_play(records, gone, store, i);
    let b = lemma_next_below(records, gone, store, records.len() as int);
    assert(in_play(records, gone, store, i));
    assert(is_next(records, gone, store, b));
}

proof fn lemma_next_below(
    records: Seq<RetentionCandidate>,
    gone: Seq<bool>,
    store: Option<MemoryStore>,
    n: int,
) -> (b: int)
    requires
        0 <= n <= records.len(),
        gone.len() == records.len(),
    ensures
        (exists|i: int| i < n && #[trigger] in_play(records, gone, store, i)) ==> b < n && in_play(
            records,
            gone,
            store,
            b,
        ) && forall|j: int|
            j < n && #[trigger] in_play(records, gone, store, j) ==> goes_before(
                records[b],
                records[j],
            ) || (!goes_before(records[j], records[b]) && b <= j),
    decreases n,
{
    if n <= 0 {
        -1
    } else {
        let c = lemma_next_below(records, gone, store, n - 1);
        if !in_play(records, gone, store, n - 1) {
            if exists|i: int| i < n && #[trigger] in_play(records, gone, store, i) {
                let i = choose|i: int| i < n && #[trigger] in_play(records, gone, store, i);
                assert(i < n - 1 && in_play(records, gone, store, i));
            }
            c
        } else if exists|i: int| i < n - 1 && #[trigger] in_play(records, gone, store, i) {
            if goes_before(records[n - 1], records[c]) {
                n - 1
            } else {
                c
            }
        } else {
            n - 1
        }
    }
}

proof fn lemma_age_bytes(records: Seq<RetentionCandidate>, sweep: Sweep, max: u64, n: int)
    requires
        sweep.gone.len() == records.len(),
        0 <= n <= records.len(),
    ensures
        apply_age(records, sweep, max, n).gone.len() == records.len(),
        play_bytes(records, apply_age(records, sweep, max, n).gone, records.len() as int)
            <= play_bytes(records, sweep.gone, records.len() as int),
    decreases n,
{
    if n > 0 {
        lemma_age_bytes(records, sweep, max, n - 1);
        let before = apply_age(records, sweep, max, n - 1);
        if !before.gone[n - 1] {
            lemma_archive_counts(records, before.gone, n - 1, None, records.len() as int);
        }
    }
}

/// Whether one state archives all that another does.
pub open spec fn covers(more: Seq<bool>, less: Seq<bool>) -> bool {
    more.len() == less.len() && forall|i: int| 0 <= i < less.len() && #[trigger] less[i] ==> more[i]
}

proof fn lemma_covers_counts(
    records: Seq<RetentionCandidate>,
    more: Seq<bool>,
    less: Seq<bool>,
    store: Option<MemoryStore>,
    n: int,
)
    requires
        0 <= n <= records.len(),
        less.len() == records.len(),
        covers(more, less),
    ensures
        play_count(records, more, store, n) <= play_count(records, less, store, n),
        play_bytes(records, more, n) <= play_bytes(records, less, n),
    decreases n,
{
    if n > 0 {
        lemma_covers_counts(records, more, less, store, n - 1);
    }
}

/// Whether a sweep's log is sound: every archived record is marked gone, and
/// none is there twice.
pub open spec fn log_is_sound(sweep: Sweep) -> bool {
    &&& forall|k: int|
        0 <= k < sweep.log.len() ==> 0 <= (#[trigger] sweep.log[k]).0 < sweep.gone.len()
            && sweep.gone[sweep.log[k].0]
    &&& forall|j: int, k: int|
        0 <= j < k < sweep.log.len() ==> (#[trigger] sweep.log[j]).0 != (#[trigger] sweep.log[k]).0
}

proof fn lemma_archive_sound(sweep: Sweep, i: int, reason: ArchiveReason)
    requires
        log_is_sound(sweep),
        0 <= i < sweep.gone.len(),
        !sweep.gone[i],
    ensures
        log_is_sound(sweep.archive(i, reason)),
        covers(sweep.archive(i, reason).gone, sweep.gone),
{
}

proof fn lemma_evict_sound(
    records: Seq<RetentionCandidate>,
    sweep: Sweep,
    store: Option<MemoryStore>,
    reason: ArchiveReason,
    n: nat,
)
    requires
        sweep.gone.len() == records.len(),
        log_is_sound(sweep),
        n <= play_count(records, sweep.gone, store, records.len() as int),
    ensures
        log_is_sound(evict(records, sweep, store, reason, n)),
        covers(evict(records, sweep, store, reason, n).gone, sweep.gone),
    decreases n,
{
    if n > 0 {
        let len = records.len() as int;
        lemma_play_count(records, sweep.gone, store, len);
        lemma_next_exists(records, sweep.gone, store);
        let i = next_of(records, sweep.gone, store);
        lemma_archive_counts(records, sweep.gone, i, store, len);
        lemma_archive_sound(sweep, i, reason);
        lemma_evict_sound(records, sweep.archive(i, reason), store, reason, (n - 1) as nat);
    }
}

proof fn lemma_age_sound(records: Seq<RetentionCandidate>, sweep: Sweep, max: u64, n: int)
    requires
        sweep.gone.len() == records.len(),
        log_is_sound(sweep),
        0 <= n <= records.len(),
    ensures
        log_is_sound(apply_age(records, sweep, max, n)),
        covers(apply_age(records, sweep, max, n).gone, sweep.gone),
    decreases n,
{
    if n > 0 {
        lemma_age_sound(records, sweep, max, n - 1);
        let before = apply_age(records, sweep, max, n - 1);
        if !before.gone[n - 1] {
            lemma_archive_sound(before, n - 1, ArchiveReason::Age);
        }
    }
}

proof fn lemma_bytes_sound(records: Seq<RetentionCandidate>, sweep: Sweep, max: nat, fuel: nat)
    requires
        sweep.gone.len() == records.len(),
        log_is_sound(sweep),
        fuel == play_count(records, sweep.gone, None, records.len() as int),
    ensures
        log_is_sound(apply_bytes(records, sweep, max, fuel)),
        covers(apply_bytes(records, sweep, max, fuel).gone, sweep.gone),
        play_bytes(
            records,
            apply_bytes(records, sweep, max, fuel).gone,
            records.len() as int,
        ) <= max,
    decreases fuel,
{
    let len = records.len() as int;
    lemma_play_count(records, sweep.gone, None, len);
    if fuel == 0 {
        lemma_no_bytes(records, sweep.gone, len);
    } else if play_bytes(records, sweep.gone, len) > max {
        lemma_next_exists(records, sweep.gone, None);
        let i = next_of(records, sweep.gone, None);
        lemma_archive_counts(records, sweep.gone, i, None, len);
        lemma_archive_sound(sweep, i, ArchiveReason::Bytes);
        lemma_bytes_sound(
            records,
            sweep.archive(i, ArchiveReason::Bytes),
            max,
            (fuel - 1) as nat,
        );
    }
}

proof fn lemma_no_bytes(records: Seq<RetentionCandidate>, gone: Seq<bool>, n: int)
    requires
        0 <= n <= records.len(),
        gone.len() == records.len(),
        play_count(records, gone, None, n) == 0,
    ensures
        play_bytes(records, gone, n) == 0,
    decreases n,
{
    if n > 0 {
        lemma_no_bytes(records, gone, n - 1);
    }
}

proof fn lemma_budgets_hold(
    records: Seq<RetentionCandidate>,
    budgets: Seq<StoreRetentionBudget>,
    n: int,
)
    requires
        0 <= n <= budgets.len(),
    ensures
        apply_budgets(records, budgets, n).gone.len() == records.len(),
        log_is_sound(apply_budgets(records, budgets, n)),
        forall|b: int|
            0 <= b < n ==> play_count(
                records,
                apply_budgets(records, budgets, n).gone,
                Some((#[trigger] budgets[b]).store),
                records.len() as int,
            ) <= budgets[b].max_active_records,
    decreases n,
{
    if n > 0 {
        lemma_budgets_hold(records, budgets, n - 1);
        let len = records.len() as int;
        let before = apply_budgets(records, budgets, n - 1);
        let after = apply_budgets(records, budgets, n);
        let budget = budgets[n - 1];
        let count = play_count(records, before.gone, Some(budget.store), len);
        let overflow = over(count, budget.max_active_records as nat);
        lemma_evict_sound(
            records,
            before.look(count),
            Some(budget.store),
            ArchiveReason::StoreBudget,
            overflow,
        );
        lemma_evict_bytes(
            records,
            before.look(count),
            Some(budget.store),
            ArchiveReason::StoreBudget,
            overflow,
        );
        assert forall|b: int| 0 <= b < n implies play_count(
            records,
            after.gone,
            Some((#[trigger] budgets[b]).store),
            len,
        ) <= budgets[b].max_active_records by {
            lemma_covers_counts(records, after.gone, before.gone, Some(budgets[b].store), len);
        }
    }
}

/// After a sweep every ceiling holds: each store is within its budget, and the
/// records that are left are within the count and the size that were set; and
/// no record was archived twice.
pub proof fn every_ceiling_holds_after_a_sweep(
    records: Seq<RetentionCandidate>,
    budgets: Seq<StoreRetentionBudget>,
    max_records: Option<usize>,
    max_bytes: Option<usize>,
    max_age_days: Option<u64>,
)
    ensures
        ({
            let after = swept(records, budgets, max_records, max_bytes, max_age_days);
            let len = records.len() as int;
            &&& log_is_sound(after)
            &&& after.gone.len() == records.len()
            &&& forall|b: int|
                0 <= b < budgets.len() ==> play_count(
                    records,
                    after.gone,
                    Some((#[trigger] budgets[b]).store),
                    len,
                ) <= budgets[b].max_active_records
            &&& max_records matches Some(max) ==> play_count(records, after.gone, None, len) <= max
            &&& max_bytes matches Some(max) ==> play_bytes(records, after.gone, len) <= max
        }),
{
    let len = records.len() as int;
    let after = swept(records, budgets, max_records, max_bytes, max_age_days);
    let s0 = apply_budgets(records, budgets, budgets.len() as int);
    lemma_budgets_hold(records, budgets, budgets.len() as int);
    if !(max_records is None && max_bytes is None && max_age_days is None) {
        let s1 = s0.look(play_count(records, s0.gone, None, len));
        let s2 = match max_age_days {
            Some(max) => apply_age(records, s1, max, len),
            None => s1,
        };
        if let Some(max) = max_age_days {
            lemma_age_sound(records, s1, max, len);
        }
        let s3 = apply_records(records, s2, max_records);
        let count = play_count(records, s2.gone, None, len);
        if let Some(max) = max_records {
            let overflow = over(count, max as nat);
            lemma_evict_sound(records, s2, None, ArchiveReason::Records, overflow);
            lemma_evict_bytes(records, s2, None, ArchiveReason::Records, overflow);
        }
        let fuel = play_count(records, s3.gone, None, len);
        if let Some(max) = max_bytes {
            lemma_bytes_sound(records, s3, max as nat, fuel);
        }
        lemma_covers_counts(records, after.gone, s3.gone, None, len);
        assert(covers(after.gone, s0.gone));
        assert forall|b: int| 0 <= b < budgets.len() implies play_count(
            records,
            after.gone,
            Some((#[trigger] budgets[b]).store),
            len,
        ) <= budgets[b].max_active_records by {
            lemma_covers_counts(records, after.gone, s0.gone, Some(budgets[b].store), len);
        }
    }
}

/// A record of unknown age is never archived for its age.
pub proof fn unknown_age_is_never_too_old(
    records: Seq<RetentionCandidate>,
    sweep: Sweep,
    max: u64,
    n: int,
    k: int,
)
    requires
        sweep.gone.len() == records.len(),
        0 <= n <= records.len(),
        sweep.log.len() <= k < apply_age(records, sweep, max, n).log.len(),
    ensures
        apply_age(records, sweep, max, n).log[k].1 == ArchiveReason::Age,
        0 <= apply_age(records, sweep, max, n).log[k].0 < n,
        records[apply_age(records, sweep, max, n).log[k].0].age_days matches Some(age) && age > max,
    decreases n,
{
    if n > 0 {
        let before = apply_age(records, sweep, max, n - 1);
        if k < before.log.len() {
            unknown_age_is_never_too_old(records, sweep, max, n - 1, k);
        }
    }
}

/// How the database writes a timestamp, in `chrono`'s notation.
pub const SQL_TIMESTAMP_FORMAT: &'static str = "%Y-%m-%d %H:%M:%S";

/// What `chrono` reads a text in a format as, taken as UTC: seconds and
/// nanoseconds since the Unix epoch, or nothing when it does not parse.
pub uninterp spec fn naive_timestamp(text: Seq<char>, format: Seq<char>) -> Option<(i64, u32)>;

/// `chrono::NaiveDateTime::parse_from_str`, taken as UTC: a function of the
/// text and the format alone.
#[verifier::external_body]
fn parse_naive_timestamp(text: &str, format: &str) -> (out: Option<(i64, u32)>)
    ensures
        out == naive_timestamp(text@, format@),
{
    chrono::NaiveDateTime::parse_from_str(text, format).ok().map(
        |naive| (naive.and_utc().timestamp(), naive.and_utc().timestamp_subsec_nanos()),
    )
}

/// What `chrono` reads an RFC 3339 text as: seconds and nanoseconds since the
/// Unix epoch, or nothing when it does not parse.
pub uninterp spec fn rfc3339_timestamp(text: Seq<char>) -> Option<(i64, u32)>;

/// `chrono::DateTime::parse_from_rfc3339`: a function of the text alone.
#[verifier::external_body]
fn parse_rfc3339(text: &str) -> (out: Option<(i64, u32)>)
    ensures
        out == rfc3339_timestamp(text@),
{
    chrono::DateTime::parse_from_rfc3339(text).ok().map(
        |fixed| (fixed.timestamp(), fixed.timestamp_subsec_nanos()),
    )
}

/// The seconds of its day at which a moment lies.
pub open spec fn second_of_day(moment: (i64, u32)) -> int {
    moment.0 as int % 86_400
}

/// Whether a moment lies in a leap second, which is counted as more than a
/// second's nanoseconds in the second before it.
pub open spec fn in_leap_second(moment: (i64, u32)) -> bool {
    moment.1 >= 1_000_000_000
}

/// The leap second between two moments that their seconds do not count: the
/// earlier one, by the time of day, lies in it.
pub open spec fn leap_between(from: (i64, u32), to: (i64, u32)) -> int {
    if second_of_day(to) > second_of_day(from) && in_leap_second(from) {
        1
    } else if second_of_day(to) < second_of_day(from) && in_leap_second(to) {
        -1
    } else {
        0
    }
}

/// The nanoseconds from one moment to a later one, negative when it is earlier,
/// as `chrono` counts them.
pub open spec fn elapsed(from: (i64, u32), to: (i64, u32)) -> int {
    (to.0 - from.0 + leap_between(from, to)) * 1_000_000_000 + (to.1 - from.1)
}

fn day_second(moment: (i64, u32)) -> (second: i64)
    ensures
        second == second_of_day(moment),
{
    match moment.0.checked_rem_euclid(86_400) {
        Some(second) => second,
        None => 0,
    }
}

/// The nanoseconds of a day.
pub open spec fn day() -> int {
    86_400_000_000_000
}

/// The whole days between two moments: none when the first lies a day or more
/// in the future.
pub open spec fn whole_days(from: (i64, u32), to: (i64, u32)) -> Option<u64> {
    let span = elapsed(from, to);
    if span >= 0 {
        Some((span / day()) as u64)
    } else if span > -day() {
        Some(0)
    } else {
        None
    }
}

/// Computes [`whole_days`].
pub fn days_between(from: (i64, u32), to: (i64, u32)) -> (days: Option<u64>)
    ensures
        days == whole_days(from, to),
{
    let before: i64 = day_second(from);
    let after: i64 = day_second(to);
    let leap: i128 = if after > before && from.1 >= 1_000_000_000 {
        1
    } else if after < before && to.1 >= 1_000_000_000 {
        -1
    } else {
        0
    };
    let span: i128 = (to.0 as i128 - from.0 as i128 + leap) * 1_000_000_000 + (to.1 as i128
        - from.1 as i128);
    if span >= 0 {
        Some((span / 86_400_000_000_000) as u64)
    } else if span > -86_400_000_000_000 {
        Some(0)
    } else {
        None
    }
}

/// The moment a stored timestamp stands for: as the database writes it, or as
/// RFC 3339.
pub open spec fn stored_moment(text: Seq<char>) -> Option<(i64, u32)> {
    match naive_timestamp(trimmed(text), SQL_TIMESTAMP_FORMAT@) {
        Some(moment) => Some(moment),
        None => rfc3339_timestamp(trimmed(text)),
    }
}

/// Whole days between a stored timestamp and `now`. `None` for anything that
/// does not parse or lies a day or more in the future.
pub fn age_in_days(created_at: &str, now: (i64, u32)) -> (days: Option<u64>)
    ensures
        days == match stored_moment(created_at@) {
            Some(moment) => whole_days(moment, now),
            None => None,
        },
{
    let text = trim(created_at);
    let moment = match parse_naive_timestamp(text.as_str(), SQL_TIMESTAMP_FORMAT) {
        Some(moment) => Some(moment),
        None => parse_rfc3339(text.as_str()),
    };
    match moment {
        Some(moment) => days_between(moment, now),
        None => None,
    }
}

/// The least important record goes first, of equally important ones the one
/// least read, and of those the oldest row.
pub proof fn the_least_important_goes_first(
    records: Seq<RetentionCandidate>,
    gone: Seq<bool>,
    store: Option<MemoryStore>,
    i: int,
    j: int,
)
    requires
        is_next(records, gone, store, i),
        0 <= j < records.len(),
        !gone[j],
        store is None || records[j].store == store,
    ensures
        0 <= i < records.len() && !gone[i] && (store is None || records[i].store == store),
        records[i].importance_rank <= records[j].importance_rank,
        records[i].importance_rank == records[j].importance_rank ==> records[i].access_count
            <= records[j].access_count,
        records[i].importance_rank == records[j].importance_rank && records[i].access_count
            == records[j].access_count ==> records[i].row_id <= records[j].row_id,
{
    assert(in_play(records, gone, store, j));
}

/// What is in play is counted, and measured, as what is neither archived nor of
/// another store.
pub proof fn what_is_in_play_is_counted(
    records: Seq<RetentionCandidate>,
    gone: Seq<bool>,
    store: Option<MemoryStore>,
    n: int,
)
    requires
        0 <= n <= records.len(),
    ensures
        play_count(records, gone, store, n) == Seq::new(n as nat, |i: int| i).filter(
            |i: int| !gone[i] && (store is None || records[i].store == store),
        ).len(),
        play_bytes(records, gone, 0) == 0,
        n < records.len() ==> play_bytes(records, gone, n + 1) == play_bytes(records, gone, n) + (
        if gone[n] {
            0
        } else {
            records[n].bytes as int
        }),
    decreases n,
{
    reveal(Seq::filter);
    if n > 0 {
        what_is_in_play_is_counted(records, gone, store, n - 1);
        assert(Seq::new(n as nat, |i: int| i).drop_last() =~= Seq::new((n - 1) as nat, |i: int| i));
    }
}

/// Nothing that is left goes before anything that was archived to meet a
/// ceiling: it is at least as important, and where it is equally important at
/// least as much read.
pub proof fn what_is_left_is_worth_more(
    records: Seq<RetentionCandidate>,
    sweep: Sweep,
    store: Option<MemoryStore>,
    reason: ArchiveReason,
    n: nat,
    k: int,
    i: int,
)
    requires
        sweep.gone.len() == records.len(),
        n <= play_count(records, sweep.gone, store, records.len() as int),
        sweep.log.len() <= k < evict(records, sweep, store, reason, n).log.len(),
        0 <= i < records.len(),
        !evict(records, sweep, store, reason, n).gone[i],
        store is None || records[i].store == store,
    ensures
        ({
            let archived = records[evict(records, sweep, store, reason, n).log[k].0];
            &&& evict(records, sweep, store, reason, n).log[k].1 == reason
            &&& store is None || archived.store == store
            &&& archived.importance_rank <= records[i].importance_rank
            &&& archived.importance_rank == records[i].importance_rank ==> archived.access_count
                <= records[i].access_count
            &&& archived.importance_rank == records[i].importance_rank && archived.access_count
                == records[i].access_count ==> archived.row_id <= records[i].row_id
        }),
    decreases n,
{
    if n > 0 {
        let len = records.len() as int;
        lemma_play_count(records, sweep.gone, store, len);
        lemma_next_exists(records, sweep.gone, store);
        let x = next_of(records, sweep.gone, store);
        lemma_archive_counts(records, sweep.gone, x, store, len);
        let next = sweep.archive(x, reason);
        lemma_evict_log(records, next, store, reason, (n - 1) as nat);
        if k == sweep.log.len() {
            assert(next.log[k] == (x, reason));
            assert(!next.gone[i]);
            the_least_important_goes_first(records, sweep.gone, store, x, i);
        } else {
            what_is_left_is_worth_more(records, next, store, reason, (n - 1) as nat, k, i);
        }
    }
}

proof fn lemma_evict_log(
    records: Seq<RetentionCandidate>,
    sweep: Sweep,
    store: Option<MemoryStore>,
    reason: ArchiveReason,
    n: nat,
)
    requires
        sweep.gone.len() == records.len(),
        n <= play_count(records, sweep.gone, store, records.len() as int),
    ensures
        evict(records, sweep, store, reason, n).log.len() == sweep.log.len() + n,
        evict(records, sweep, store, reason, n).log.take(sweep.log.len() as int) == sweep.log,
        evict(records, sweep, store, reason, n).gone.len() == records.len(),
        forall|i: int|
            0 <= i < records.len() && sweep.gone[i] ==> #[trigger] evict(
                records,
                sweep,
                store,
                reason,
                n,
            ).gone[i],
        evict(records, sweep, store, reason, n).checked == sweep.checked,
    decreases n,
{
    if n > 0 {
        let len = records.len() as int;
        lemma_play_count(records, sweep.gone, store, len);
        lemma_next_exists(records, sweep.gone, store);
        let x = next_of(records, sweep.gone, store);
        lemma_archive_counts(records, sweep.gone, x, store, len);
        let next = sweep.archive(x, reason);
        lemma_evict_log(records, next, store, reason, (n - 1) as nat);
        let end = evict(records, next, store, reason, (n - 1) as nat);
        assert(end.log.take(sweep.log.len() as int) =~= next.log.take(sweep.log.len() as int)) by {
            assert forall|q: int| 0 <= q < sweep.log.len() implies end.log[q] == next.log[q] by {
                assert(end.log.take(next.log.len() as int)[q] == end.log[q]);
            }
        }
        assert(next.log.take(sweep.log.len() as int) =~= sweep.log);
    } else {
        assert(sweep.log.take(sweep.log.len() as int) =~= sweep.log);
    }
}

/// A budget takes exactly what is over it: a store within its budget loses
/// nothing, and one over it is left with as many as it may hold.
pub proof fn a_budget_takes_exactly_what_is_over(
    records: Seq<RetentionCandidate>,
    sweep: Sweep,
    budget: StoreRetentionBudget,
    max: usize,
)
    requires
        sweep.gone.len() == records.len(),
    ensures
        ({
            let len = records.len() as int;
            let count = play_count(records, sweep.gone, Some(budget.store), len);
            let after = apply_budget(records, sweep, budget);
            &&& count <= budget.max_active_records ==> after.gone == sweep.gone && after.log
                == sweep.log
            &&& count > budget.max_active_records ==> play_count(
                records,
                after.gone,
                Some(budget.store),
                len,
            ) == budget.max_active_records
            &&& after.checked == sweep.checked + count
        }),
        ({
            let len = records.len() as int;
            let count = play_count(records, sweep.gone, None, len);
            let after = apply_records(records, sweep, Some(max));
            &&& count <= max ==> after == sweep
            &&& count > max ==> play_count(records, after.gone, None, len) == max
            &&& apply_records(records, sweep, None) == sweep
        }),
{
    let len = records.len() as int;
    let count = play_count(records, sweep.gone, Some(budget.store), len);
    let looked = sweep.look(count);
    let overflow = over(count, budget.max_active_records as nat);
    lemma_evict_bytes(
        records,
        looked,
        Some(budget.store),
        ArchiveReason::StoreBudget,
        overflow,
    );
    lemma_evict_log(records, looked, Some(budget.store), ArchiveReason::StoreBudget, overflow);
    let all = play_count(records, sweep.gone, None, len);
    lemma_evict_bytes(records, sweep, None, ArchiveReason::Records, over(all, max as nat));
}

/// A size ceiling stops in time: what fits loses nothing, and without the last
/// record archived for it what is left would not fit.
pub proof fn a_size_ceiling_stops_in_time(
    records: Seq<RetentionCandidate>,
    sweep: Sweep,
    max: nat,
    fuel: nat,
)
    requires
        sweep.gone.len() == records.len(),
        fuel == play_count(records, sweep.gone, None, records.len() as int),
    ensures
        ({
            let len = records.len() as int;
            let after = apply_bytes(records, sweep, max, fuel);
            &&& after.log.len() >= sweep.log.len()
            &&& play_bytes(records, sweep.gone, len) <= max ==> after == sweep
            &&& after.log.len() > sweep.log.len() ==> after.log.last().1 == ArchiveReason::Bytes
                && play_bytes(records, after.gone.update(after.log.last().0, false), len) > max
        }),
    decreases fuel,
{
    let len = records.len() as int;
    lemma_play_count(records, sweep.gone, None, len);
    if fuel > 0 && play_bytes(records, sweep.gone, len) > max {
        lemma_next_exists(records, sweep.gone, None);
        let x = next_of(records, sweep.gone, None);
        lemma_archive_counts(records, sweep.gone, x, None, len);
        let next = sweep.archive(x, ArchiveReason::Bytes);
        a_size_ceiling_stops_in_time(records, next, max, (fuel - 1) as nat);
        let after = apply_bytes(records, next, max, (fuel - 1) as nat);
        if after.log.len() == next.log.len() {
            lemma_bytes_log(records, next, max, (fuel - 1) as nat);
            assert(next.log.last() == (x, ArchiveReason::Bytes));
            assert(next.gone.update(x, false) =~= sweep.gone);
        }
    }
}

proof fn lemma_bytes_log(records: Seq<RetentionCandidate>, sweep: Sweep, max: nat, fuel: nat)
    ensures
        apply_bytes(records, sweep, max, fuel).log.len() >= sweep.log.len(),
        apply_bytes(records, sweep, max, fuel).log.len() == sweep.log.len() ==> apply_bytes(
            records,
            sweep,
            max,
            fuel,
        ) == sweep,
    decreases fuel,
{
    if fuel > 0 && play_bytes(records, sweep.gone, records.len() as int) > max {
        lemma_bytes_log(
            records,
            sweep.archive(next_of(records, sweep.gone, None), ArchiveReason::Bytes),
            max,
            (fuel - 1) as nat,
        );
    }
}

/// Whatever is known to be too old is archived.
pub proof fn whatever_is_too_old_is_archived(
    records: Seq<RetentionCandidate>,
    sweep: Sweep,
    max: u64,
    n: int,
    i: int,
)
    requires
        sweep.gone.len() == records.len(),
        0 <= i < n <= records.len(),
        records[i].age_days matches Some(age) && age > max,
    ensures
        apply_age(records, sweep, max, n).gone[i],
    decreases n,
{
    lemma_age_bytes(records, sweep, max, n - 1);
    if i < n - 1 {
        whatever_is_too_old_is_archived(records, sweep, max, n - 1, i);
    }
}

/// What fits every ceiling loses nothing.
pub proof fn what_fits_loses_nothing(
    records: Seq<RetentionCandidate>,
    budgets: Seq<StoreRetentionBudget>,
    max_records: Option<usize>,
    max_bytes: Option<usize>,
    max_age_days: Option<u64>,
)
    requires
        forall|b: int|
            0 <= b < budgets.len() ==> play_count(
                records,
                Seq::new(records.len(), |i: int| false),
                Some((#[trigger] budgets[b]).store),
                records.len() as int,
            ) <= budgets[b].max_active_records,
        max_records matches Some(max) ==> records.len() <= max,
        max_bytes matches Some(max) ==> play_bytes(
            records,
            Seq::new(records.len(), |i: int| false),
            records.len() as int,
        ) <= max,
        max_age_days matches Some(max) ==> forall|i: int|
            0 <= i < records.len() ==> ((#[trigger] records[i]).age_days matches Some(age) ==> age
                <= max),
    ensures
        swept(records, budgets, max_records, max_bytes, max_age_days).log.len() == 0,
        max_records is Some || max_bytes is Some || max_age_days is Some ==> swept(
            records,
            Seq::empty(),
            max_records,
            max_bytes,
            max_age_days,
        ).checked == records.len(),
{
    lemma_budgets_idle(records, budgets, budgets.len() as int);
    lemma_budgets_idle(records, Seq::empty(), 0);
    let len = records.len() as int;
    let s0 = apply_budgets(records, budgets, budgets.len() as int);
    let e0 = apply_budgets(records, Seq::empty(), 0);
    lemma_all_in_play(records, len);
    let s1 = s0.look(play_count(records, s0.gone, None, len));
    let e1 = e0.look(play_count(records, e0.gone, None, len));
    if let Some(max) = max_age_days {
        lemma_none_too_old(records, s1, max, len);
        lemma_none_too_old(records, e1, max, len);
    }
}

proof fn lemma_all_in_play(records: Seq<RetentionCandidate>, n: int)
    requires
        0 <= n <= records.len(),
    ensures
        play_count(records, Seq::new(records.len(), |i: int| false), None, n) == n,
    decreases n,
{
    if n > 0 {
        lemma_all_in_play(records, n - 1);
    }
}

proof fn lemma_none_too_old(records: Seq<RetentionCandidate>, sweep: Sweep, max: u64, n: int)
    requires
        0 <= n <= records.len(),
        forall|i: int|
            0 <= i < records.len() ==> ((#[trigger] records[i]).age_days matches Some(age) ==> age
                <= max),
    ensures
        apply_age(records, sweep, max, n) == sweep,
    decreases n,
{
    if n > 0 {
        lemma_none_too_old(records, sweep, max, n - 1);
        assert(records[n - 1].age_days matches Some(age) ==> age <= max);
    }
}

proof fn lemma_budgets_idle(
    records: Seq<RetentionCandidate>,
    budgets: Seq<StoreRetentionBudget>,
    n: int,
)
    requires
        0 <= n <= budgets.len(),
        forall|b: int|
            0 <= b < budgets.len() ==> play_count(
                records,
                Seq::new(records.len(), |i: int| false),
                Some((#[trigger] budgets[b]).store),
                records.len() as int,
            ) <= budgets[b].max_active_records,
    ensures
        apply_budgets(records, budgets, n).gone == Seq::new(records.len(), |i: int| false),
        apply_budgets(records, budgets, n).log.len() == 0,
        n == 0 ==> apply_budgets(records, budgets, n).checked == 0,
    decreases n,
{
    if n > 0 {
        lemma_budgets_idle(records, budgets, n - 1);
        let before = apply_budgets(records, budgets, n - 1);
        let fresh = Seq::new(records.len(), |i: int| false);
        assert(before.gone =~= fresh);
        assert(play_count(records, fresh, Some(budgets[n - 1].store), records.len() as int)
            <= budgets[n - 1].max_active_records);
    } else {
        assert(apply_budgets(records, budgets, n).gone =~= Seq::new(
            records.len(),
            |i: int| false,
        ));
    }
}

/// Each record is archived for the ceiling it does not fit.
pub proof fn a_record_goes_for_the_ceiling_it_does_not_fit(
    records: Seq<RetentionCandidate>,
    max: usize,
    age: u64,
    k: int,
)
    ensures
        0 <= k < swept(records, Seq::empty(), Some(max), None, None).log.len() ==> swept(
            records,
            Seq::empty(),
            Some(max),
            None,
            None,
        ).log[k].1 == ArchiveReason::Records,
        swept(records, Seq::empty(), Some(max), None, None).log.len() == if records.len() > max {
            records.len() - max
        } else {
            0
        },
        0 <= k < swept(records, Seq::empty(), None, None, Some(age)).log.len() ==> ({
            let entry = swept(records, Seq::empty(), None, None, Some(age)).log[k];
            entry.1 == ArchiveReason::Age && 0 <= entry.0 < records.len() && (
            records[entry.0].age_days matches Some(days) && days > age)
        }),
{
    let len = records.len() as int;
    let fresh = fresh_sweep(records.len());
    lemma_all_in_play(records, len);
    let looked = fresh.look(play_count(records, fresh.gone, None, len));
    let overflow = over(records.len(), max as nat);
    lemma_evict_log(records, looked, None, ArchiveReason::Records, overflow);
    lemma_evict_reason(records, looked, None, ArchiveReason::Records, overflow, k);
    let aged = apply_age(records, looked, age, len);
    if 0 <= k < aged.log.len() {
        unknown_age_is_never_too_old(records, looked, age, len, k);
    }
}

proof fn lemma_evict_reason(
    records: Seq<RetentionCandidate>,
    sweep: Sweep,
    store: Option<MemoryStore>,
    reason: ArchiveReason,
    n: nat,
    k: int,
)
    requires
        sweep.gone.len() == records.len(),
        n <= play_count(records, sweep.gone, store, records.len() as int),
    ensures
        sweep.log.len() <= k < evict(records, sweep, store, reason, n).log.len() ==> evict(
            records,
            sweep,
            store,
            reason,
            n,
        ).log[k].1 == reason,
    decreases n,
{
    if n > 0 {
        let len = records.len() as int;
        lemma_play_count(records, sweep.gone, store, len);
        lemma_next_exists(records, sweep.gone, store);
        let x = next_of(records, sweep.gone, store);
        lemma_archive_counts(records, sweep.gone, x, store, len);
        let next = sweep.archive(x, reason);
        lemma_evict_log(records, next, store, reason, (n - 1) as nat);
        lemma_evict_reason(records, next, store, reason, (n - 1) as nat, k);
        if k == sweep.log.len() {
            let end = evict(records, next, store, reason, (n - 1) as nat);
            assert(end.log.take(next.log.len() as int)[k] == end.log[k]);
        }
    }
}

/// The names of reasons tell them apart.
pub proof fn reason_names_tell_apart(a: ArchiveReason, b: ArchiveReason)
    ensures
        reason_name(a) == reason_name(b) ==> a == b,
{
    reveal_strlit("retention_budget");
    reveal_strlit("retention_age");
    reveal_strlit("retention_records");
    reveal_strlit("retention_bytes");
    assert("retention_budget"@.len() == 16);
    assert("retention_age"@.len() == 13);
    assert("retention_records"@.len() == 17);
    assert("retention_bytes"@.len() == 15);
}

/// An age is whole days that have passed, and no more; what lies a day or more
/// in the future has none, and what lies less than a day ahead is new.
pub proof fn an_age_is_whole_days(from: (i64, u32), to: (i64, u32))
    requires
        from.1 < 1_000_000_000,
        to.1 < 1_000_000_000,
    ensures
        ({
            let passed = (to.0 - from.0) * 1_000_000_000 + (to.1 - from.1);
            &&& passed >= 0 ==> (whole_days(from, to) matches Some(days) && days
                * 86_400_000_000_000 <= passed < (days + 1) * 86_400_000_000_000)
            &&& -86_400_000_000_000 < passed < 0 ==> whole_days(from, to) == Some(0u64)
            &&& passed <= -86_400_000_000_000 ==> whole_days(from, to) is None
        }),
{
    let passed = (to.0 - from.0) * 1_000_000_000 + (to.1 - from.1);
    assert(elapsed(from, to) == passed);
    if passed >= 0 {
        let days = passed / 86_400_000_000_000;
        assert(passed <= 0x1_0000_0000_0000_0000 * 1_000_000_000);
        assert(0 <= days <= u64::MAX);
    }
}

/// A stored timestamp is read as the database writes it, and only else as
/// RFC 3339; the space around it is no part of it.
pub proof fn a_timestamp_is_read_as_it_is_written(text: Seq<char>)
    ensures
        naive_timestamp(trimmed(text), "%Y-%m-%d %H:%M:%S"@) matches Some(moment) ==> stored_moment(
            text,
        ) == Some(moment),
        naive_timestamp(trimmed(text), "%Y-%m-%d %H:%M:%S"@) is None ==> stored_moment(text)
            == rfc3339_timestamp(trimmed(text)),
{
}

/// From one moment to another is as long as the way back, leap seconds and all.
pub proof fn the_way_back_is_as_long(a: (i64, u32), b: (i64, u32))
    ensures
        elapsed(a, b) == -elapsed(b, a),
        elapsed(a, a) == 0,
        a.1 >= 1_000_000_000 && b.1 < 1_000_000_000 && a.0 as int % 86_400 < b.0 as int % 86_400
            ==> elapsed(a, b) == (b.0 - a.0 + 1) * 1_000_000_000 + (b.1 - a.1),
{
    assert((b.0 - a.0 + leap_between(a, b)) * 1_000_000_000 == -((a.0 - b.0 + leap_between(b, a))
        * 1_000_000_000));
}

/// Of two records the less important goes first. Of two as important, the one
/// read less often, and of two read as often, the one stored first. None goes
/// before itself.
pub proof fn two_records_are_ordered(a: RetentionCandidate, b: RetentionCandidate)
    ensures
        a.importance_rank < b.importance_rank ==> goes_before(a, b) && !goes_before(b, a),
        a.importance_rank == b.importance_rank && a.access_count < b.access_count ==> goes_before(
            a,
            b,
        ) && !goes_before(b, a),
        a.importance_rank == b.importance_rank && a.access_count == b.access_count && a.row_id
            < b.row_id ==> goes_before(a, b) && !goes_before(b, a),
        !goes_before(a, a),
{
}

} // verus!
