//! Age and byte ceilings over a directory the runtime owns outright.
//!
//! A unit is kept or removed whole. Units past the age ceiling go first, then
//! the oldest of the rest until what is left fits. Removing is the caller's;
//! this decides what to try next and keeps the count.

use vstd::prelude::*;

verus! {

/// One thing that is kept or removed whole.
#[derive(Clone, Copy, Debug, PartialEq, Eq, Structural)]
pub struct Unit {
    /// The newest write anywhere inside it, in nanoseconds since the Unix
    /// epoch.
    pub newest: i128,
    pub bytes: u64,
}

/// What one sweep did.
#[derive(Clone, Copy, Debug, PartialEq, Eq, Structural)]
pub struct SweepCount {
    pub removed: usize,
    pub bytes: u64,
}

/// The sizes of units.
pub open spec fn total_bytes(units: Seq<Unit>) -> nat
    decreases units.len(),
{
    if units.len() == 0 {
        0
    } else {
        total_bytes(units.drop_last()) + units.last().bytes as nat
    }
}

/// Whether a unit is past the age ceiling, when there is one.
pub open spec fn is_expired(unit: Unit, cutoff: Option<i128>) -> bool {
    cutoff matches Some(limit) && unit.newest < limit
}

/// The positions of expired units among the first `n`, in order.
pub open spec fn expired_among(units: Seq<Unit>, cutoff: Option<i128>, n: int) -> Seq<int>
    decreases n,
{
    if n <= 0 {
        Seq::empty()
    } else if is_expired(units[n - 1], cutoff) {
        expired_among(units, cutoff, n - 1).push(n - 1)
    } else {
        expired_among(units, cutoff, n - 1)
    }
}

/// Whether a unit is older than another; of equals the earlier listed.
pub open spec fn older(units: Seq<Unit>, a: int, b: int) -> bool {
    units[a].newest < units[b].newest || (units[a].newest == units[b].newest && a < b)
}

/// Whether positions are listed oldest first, each once.
pub open spec fn oldest_first(units: Seq<Unit>, queue: Seq<int>) -> bool {
    &&& forall|i: int| 0 <= i < queue.len() ==> 0 <= #[trigger] queue[i] < units.len()
    &&& forall|i: int, j: int|
        0 <= i < j < queue.len() ==> older(units, #[trigger] queue[i], #[trigger] queue[j])
}

/// Whether a queue holds exactly the units among the first `n` that have not
/// expired.
pub open spec fn holds_kept(units: Seq<Unit>, cutoff: Option<i128>, queue: Seq<int>, n: int) -> bool {
    forall|p: int|
        0 <= p < n ==> (#[trigger] queue.contains(p) <==> !is_expired(units[p], cutoff))
}

/// The sizes of the first `n` units that have not expired.
pub open spec fn kept_bytes(units: Seq<Unit>, cutoff: Option<i128>, n: int) -> nat
    decreases n,
{
    if n <= 0 {
        0
    } else {
        kept_bytes(units, cutoff, n - 1) + if is_expired(units[n - 1], cutoff) {
            0nat
        } else {
            units[n - 1].bytes as nat
        }
    }
}

/// The sizes of the units at some positions.
pub open spec fn bytes_of(units: Seq<Unit>, list: Seq<usize>) -> nat
    decreases list.len(),
{
    if list.len() == 0 {
        0
    } else {
        bytes_of(units, list.drop_last()) + units[list.last() as int].bytes as nat
    }
}

proof fn lemma_bytes_of_concat(units: Seq<Unit>, a: Seq<usize>, b: Seq<usize>)
    ensures
        bytes_of(units, a + b) == bytes_of(units, a) + bytes_of(units, b),
    decreases b.len(),
{
    if b.len() == 0 {
        assert(a + b =~= a);
    } else {
        assert((a + b).drop_last() =~= a + b.drop_last());
        lemma_bytes_of_concat(units, a, b.drop_last());
    }
}

proof fn lemma_bytes_of_one(units: Seq<Unit>, p: usize)
    ensures
        bytes_of(units, seq![p]) == units[p as int].bytes,
{
    assert(seq![p].drop_last() =~= Seq::<usize>::empty());
    assert(bytes_of(units, Seq::<usize>::empty()) == 0);
}

proof fn lemma_bytes_of_next(units: Seq<Unit>, list: Seq<usize>, n: int)
    requires
        0 <= n < list.len(),
    ensures
        bytes_of(units, list.skip(n)) == units[list[n] as int].bytes + bytes_of(
            units,
            list.skip(n + 1),
        ),
{
    assert(list.skip(n) =~= seq![list[n]] + list.skip(n + 1));
    lemma_bytes_of_concat(units, seq![list[n]], list.skip(n + 1));
    lemma_bytes_of_one(units, list[n]);
}

proof fn lemma_bytes_of_taken(units: Seq<Unit>, list: Seq<usize>, n: int)
    requires
        0 <= n < list.len(),
    ensures
        bytes_of(units, list.take(n + 1)) == bytes_of(units, list.take(n))
            + units[list[n] as int].bytes,
        bytes_of(units, list.take(n + 1)) <= bytes_of(units, list),
{
    assert(list.take(n + 1).drop_last() =~= list.take(n));
    assert(list =~= list.take(n + 1) + list.skip(n + 1));
    lemma_bytes_of_concat(units, list.take(n + 1), list.skip(n + 1));
}

/// The view of positions.
pub open spec fn places(list: Seq<usize>) -> Seq<int> {
    list.map_values(|p: usize| p as int)
}

/// A sweep under way.
pub struct FileSweep {
    pub units: Vec<Unit>,
    /// Units past the age ceiling, in the order they were found.
    pub expired: Vec<usize>,
    /// The other units, oldest first.
    pub queue: Vec<usize>,
    pub max_bytes: Option<u64>,
    /// How many expired units were tried.
    pub aged: usize,
    /// How many queued units were tried.
    pub tried: usize,
    /// The bytes the queued units still hold.
    pub total: u64,
    /// The bytes of the queued units that were removed.
    pub evicted: u64,
    pub count: SweepCount,
}

impl FileSweep {
    /// What has been removed so far fits in what there was.
    pub open spec fn wf(&self) -> bool {
        &&& total_bytes(self.units@) <= u64::MAX
        &&& self.expired@.len() + self.queue@.len() <= usize::MAX
        &&& self.count.removed <= self.aged + self.tried
        &&& self.count.bytes + bytes_of(self.units@, self.expired@.skip(self.aged as int))
            + bytes_of(self.units@, self.queue@.skip(self.tried as int)) <= total_bytes(self.units@)
        &&& self.total + self.evicted == bytes_of(self.units@, self.queue@)
        &&& bytes_of(self.units@, self.queue@) <= total_bytes(self.units@)
        &&& self.evicted <= bytes_of(self.units@, self.queue@.take(self.tried as int))
        &&& self.aged <= self.expired@.len()
        &&& self.tried <= self.queue@.len()
        &&& forall|i: int| 0 <= i < self.expired@.len() ==> #[trigger] self.expired@[i] < self.units@.len()
        &&& forall|i: int| 0 <= i < self.queue@.len() ==> #[trigger] self.queue@[i] < self.units@.len()
    }

    /// The unit to try next, if any.
    pub open spec fn next_unit(&self) -> Option<int> {
        if self.aged < self.expired@.len() {
            Some(self.expired@[self.aged as int] as int)
        } else {
            match self.max_bytes {
                Some(max) => if self.tried < self.queue@.len() && self.total > max {
                    Some(self.queue@[self.tried as int] as int)
                } else {
                    None
                },
                None => None,
            }
        }
    }

    /// Starts a sweep: everything written before `cutoff` goes, then the
    /// oldest of the rest until at most `max_bytes` are left. Without either
    /// ceiling nothing goes.
    pub fn new(units: Vec<Unit>, cutoff: Option<i128>, max_bytes: Option<u64>) -> (out: FileSweep)
        requires
            total_bytes(units@) <= u64::MAX,
        ensures
            out.wf(),
            out.units == units,
            out.max_bytes == max_bytes,
            places(out.expired@) == expired_among(units@, cutoff, units@.len() as int),
            oldest_first(units@, places(out.queue@)),
            holds_kept(units@, cutoff, places(out.queue@), units@.len() as int),
            out.aged == 0,
            out.tried == 0,
            out.total == kept_bytes(units@, cutoff, units@.len() as int),
            out.evicted == 0,
            out.count == (SweepCount { removed: 0, bytes: 0 }),
    {
        let mut expired: Vec<usize> = Vec::new();
        let mut queue: Vec<usize> = Vec::new();
        let mut total: u64 = 0;
        let mut i: usize = 0;
        assert(places(expired@) =~= expired_among(units@, cutoff, 0));
        while i < units.len()
            invariant
                i <= units@.len(),
                total_bytes(units@) <= u64::MAX,
                places(expired@) == expired_among(units@, cutoff, i as int),
                forall|k: int| 0 <= k < expired@.len() ==> #[trigger] expired@[k] < i,
                oldest_first(units@, places(queue@)),
                forall|k: int| 0 <= k < queue@.len() ==> #[trigger] queue@[k] < i,
                holds_kept(units@, cutoff, places(queue@), i as int),
                total == kept_bytes(units@, cutoff, i as int),
                total == bytes_of(units@, queue@),
                expired@.len() + queue@.len() == i,
                bytes_of(units@, expired@) + bytes_of(units@, queue@) == total_bytes(
                    units@.take(i as int),
                ),
            decreases units@.len() - i,
        {
            proof {
                assert(units@.take(i + 1).drop_last() =~= units@.take(i as int));
            }
            let old_enough = match cutoff {
                Some(limit) => units[i].newest < limit,
                None => false,
            };
            if old_enough {
                let ghost before = places(expired@);
                proof {
                    assert(expired@.push(i) =~= expired@ + seq![i]);
                    lemma_bytes_of_concat(units@, expired@, seq![i]);
                    lemma_bytes_of_one(units@, i);
                }
                expired.push(i);
                assert(places(expired@) =~= before.push(i as int));
                proof {
                    assert forall|p: int| 0 <= p < i + 1 implies (#[trigger] places(
                        queue@,
                    ).contains(p) <==> !is_expired(units@[p], cutoff)) by {
                        if p == i && places(queue@).contains(p) {
                            let k = choose|k: int|
                                0 <= k < places(queue@).len() && places(queue@)[k] == p;
                            assert(queue@[k] < i);
                        }
                    }
                }
            } else {
                proof {
                    lemma_kept_bytes(units@, cutoff, i + 1);
                }
                total = total + units[i].bytes;
                insert_oldest_first(&units, &mut queue, i);
                proof {
                    assert forall|p: int| 0 <= p < i + 1 implies (#[trigger] places(
                        queue@,
                    ).contains(p) <==> !is_expired(units@[p], cutoff)) by {}
                }
            }
            i = i + 1;
        }
        proof {
            assert(units@.take(units@.len() as int) =~= units@);
            assert(expired@.skip(0) =~= expired@);
            assert(queue@.skip(0) =~= queue@);
        }
        FileSweep {
            units,
            expired,
            queue,
            max_bytes,
            aged: 0,
            tried: 0,
            total,
            evicted: 0,
            count: SweepCount { removed: 0, bytes: 0 },
        }
    }

    /// The unit to try to remove next; `None` when the sweep is over.
    pub fn next(&self) -> (unit: Option<usize>)
        requires
            self.wf(),
        ensures
            unit matches Some(p) ==> self.next_unit() == Some(p as int) && p < self.units@.len(),
            unit is None ==> self.next_unit() is None,
    {
        if self.aged < self.expired.len() {
            return Some(self.expired[self.aged]);
        }
        match self.max_bytes {
            Some(max) => {
                if self.tried < self.queue.len() && self.total > max {
                    Some(self.queue[self.tried])
                } else {
                    None
                }
            },
            None => None,
        }
    }

    /// Records whether removing the unit that was to be tried succeeded. A
    /// unit that could not be removed is passed over and still counts toward
    /// the total.
    pub fn settle(&mut self, removed: bool)
        requires
            old(self).wf(),
            old(self).next_unit() is Some,
        ensures
            final(self).wf(),
            final(self).units == old(self).units,
            final(self).expired == old(self).expired,
            final(self).queue == old(self).queue,
            final(self).max_bytes == old(self).max_bytes,
            ({
                let bytes = old(self).units@[old(self).next_unit()->0].bytes;
                let by_age = old(self).aged < old(self).expired@.len();
                &&& final(self).count == if removed {
                    SweepCount {
                        removed: (old(self).count.removed + 1) as usize,
                        bytes: (old(self).count.bytes + bytes) as u64,
                    }
                } else {
                    old(self).count
                }
                &&& final(self).aged == old(self).aged + (if by_age {
                    1int
                } else {
                    0int
                })
                &&& final(self).tried == old(self).tried + (if by_age {
                    0int
                } else {
                    1int
                })
                &&& final(self).total == old(self).total - (if removed && !by_age {
                    bytes as int
                } else {
                    0
                })
                &&& final(self).evicted == old(self).evicted + (if removed && !by_age {
                    bytes as int
                } else {
                    0
                })
            }),
    {
        let by_age = self.aged < self.expired.len();
        let p: usize = if by_age {
            self.expired[self.aged]
        } else {
            self.queue[self.tried]
        };
        let bytes: u64 = self.units[p].bytes;
        proof {
            if by_age {
                lemma_bytes_of_next(self.units@, self.expired@, self.aged as int);
            } else {
                lemma_bytes_of_next(self.units@, self.queue@, self.tried as int);
                lemma_bytes_of_taken(self.units@, self.queue@, self.tried as int);
            }
        }
        if by_age {
            self.aged = self.aged + 1;
        } else {
            self.tried = self.tried + 1;
            if removed {
                self.total = self.total - bytes;
                self.evicted = self.evicted + bytes;
            }
        }
        if removed {
            self.count = SweepCount {
                removed: self.count.removed + 1,
                bytes: self.count.bytes + bytes,
            };
        }
    }
}

proof fn lemma_kept_bytes(units: Seq<Unit>, cutoff: Option<i128>, n: int)
    requires
        0 <= n <= units.len(),
    ensures
        kept_bytes(units, cutoff, n) <= total_bytes(units),
    decreases units.len() - n,
{
    if n < units.len() {
        lemma_kept_bytes(units, cutoff, n + 1);
    } else {
        lemma_kept_within(units, cutoff, n);
        assert(units.take(n) =~= units);
    }
}

proof fn lemma_kept_within(units: Seq<Unit>, cutoff: Option<i128>, n: int)
    requires
        0 <= n <= units.len(),
    ensures
        kept_bytes(units, cutoff, n) <= total_bytes(units.take(n)),
    decreases n,
{
    if n > 0 {
        lemma_kept_within(units, cutoff, n - 1);
        assert(units.take(n).drop_last() =~= units.take(n - 1));
    }
}

fn insert_oldest_first(units: &Vec<Unit>, queue: &mut Vec<usize>, p: usize)
    requires
        p < units@.len(),
        oldest_first(units@, places(old(queue)@)),
        forall|k: int| 0 <= k < old(queue)@.len() ==> #[trigger] old(queue)@[k] < p,
    ensures
        oldest_first(units@, places(final(queue)@)),
        forall|k: int| 0 <= k < final(queue)@.len() ==> #[trigger] final(queue)@[k] <= p,
        forall|q: int|
            #[trigger] places(final(queue)@).contains(q) <==> places(old(queue)@).contains(q) || q
                == p,
        final(queue)@.len() == old(queue)@.len() + 1,
        bytes_of(units@, final(queue)@) == bytes_of(units@, old(queue)@) + units@[p as int].bytes,
{
    let ghost before = places(queue@);
    let mut at: usize = 0;
    while at < queue.len() && units[queue[at]].newest <= units[p].newest
        invariant
            at <= queue@.len(),
            p < units@.len(),
            queue@ == old(queue)@,
            before == places(queue@),
            oldest_first(units@, before),
            forall|k: int| 0 <= k < queue@.len() ==> #[trigger] queue@[k] < p,
            forall|k: int| 0 <= k < at ==> older(units@, #[trigger] before[k], p as int),
        decreases queue@.len() - at,
    {
        assert(before[at as int] == queue@[at as int]);
        at = at + 1;
    }
    proof {
        assert forall|k: int| at <= k < before.len() implies older(
            units@,
            p as int,
            #[trigger] before[k],
        ) by {
            assert(before[at as int] == queue@[at as int]);
            assert(before[k] == queue@[k]);
            if k > at {
                assert(older(units@, before[at as int], before[k]));
            }
        }
    }
    queue.insert(at, p);
    proof {
        let head = old(queue)@.take(at as int);
        let tail = old(queue)@.skip(at as int);
        assert(old(queue)@ =~= head + tail);
        assert(queue@ =~= head + (seq![p] + tail));
        lemma_bytes_of_concat(units@, head, tail);
        lemma_bytes_of_concat(units@, head, seq![p] + tail);
        lemma_bytes_of_concat(units@, seq![p], tail);
        lemma_bytes_of_one(units@, p);
        let after = places(queue@);
        assert(after =~= before.insert(at as int, p as int));
        assert forall|i: int| 0 <= i < after.len() implies 0 <= #[trigger] after[i]
            < units@.len() by {
            if i < at {
                assert(after[i] == before[i]);
            } else if i > at {
                assert(after[i] == before[i - 1]);
            }
        }
        assert forall|i: int, j: int| 0 <= i < j < after.len() implies older(
            units@,
            #[trigger] after[i],
            #[trigger] after[j],
        ) by {
            let x = if i < at { i } else { i - 1 };
            let y = if j < at { j } else { j - 1 };
            if i != at {
                assert(after[i] == before[x]);
            }
            if j != at {
                assert(after[j] == before[y]);
            }
            if i != at && j != at {
                assert(older(units@, before[x], before[y]));
            }
        }
        assert forall|q: int| #[trigger] after.contains(q) <==> before.contains(q) || q == p by {
            if after.contains(q) {
                let k = choose|k: int| 0 <= k < after.len() && after[k] == q;
                if k < at {
                    assert(before[k] == q);
                } else if k > at {
                    assert(before[k - 1] == q);
                }
            }
            if before.contains(q) {
                let k = choose|k: int| 0 <= k < before.len() && before[k] == q;
                if k < at {
                    assert(after[k] == q);
                } else {
                    assert(after[k + 1] == q);
                }
            }
            assert(after[at as int] == p);
        }
    }
}

/// A quota stops as soon as what is left fits: with the age ceiling done and
/// at most `max` bytes left there is nothing more to try.
pub proof fn quota_stops_once_it_fits(sweep: FileSweep, max: u64)
    requires
        sweep.wf(),
        sweep.max_bytes == Some(max),
        sweep.aged == sweep.expired@.len(),
        sweep.total <= max,
    ensures
        sweep.next_unit() is None,
{
}

/// A finished sweep keeps its quota: what the queued units still hold fits, or
/// every one of them was tried.
pub proof fn a_finished_sweep_fits(sweep: FileSweep, max: u64)
    requires
        sweep.wf(),
        sweep.max_bytes == Some(max),
        sweep.next_unit() is None,
    ensures
        bytes_of(sweep.units@, sweep.queue@) - sweep.evicted <= max || sweep.tried
            == sweep.queue@.len(),
{
}

/// A quota stops in time: while something is left to try for it, what the
/// queued units hold does not fit.
pub proof fn a_quota_evicts_only_what_it_must(sweep: FileSweep, max: u64)
    requires
        sweep.wf(),
        sweep.max_bytes == Some(max),
        sweep.aged == sweep.expired@.len(),
        sweep.next_unit() is Some,
    ensures
        bytes_of(sweep.units@, sweep.queue@) - sweep.evicted > max,
{
}

/// Without a ceiling nothing is ever tried.
pub proof fn no_ceiling_removes_nothing(sweep: FileSweep, cutoff: Option<i128>)
    requires
        sweep.max_bytes is None,
        cutoff is None,
        places(sweep.expired@) == expired_among(sweep.units@, cutoff, sweep.units@.len() as int),
    ensures
        sweep.next_unit() is None,
{
    lemma_none_expired(sweep.units@, sweep.units@.len() as int);
    assert(places(sweep.expired@).len() == sweep.expired@.len());
}

proof fn lemma_none_expired(units: Seq<Unit>, n: int)
    ensures
        expired_among(units, None, n).len() == 0,
    decreases n,
{
    if n > 0 {
        lemma_none_expired(units, n - 1);
    }
}

/// One file of a unit: when it was written, when that is known, and its size.
#[derive(Clone, Copy, Debug, PartialEq, Eq, Structural)]
pub struct FileFacts {
    pub modified: Option<i128>,
    pub bytes: u64,
}

/// The newest of the first `n` known writes.
pub open spec fn newest_write(files: Seq<FileFacts>, n: int) -> Option<i128>
    decreases n,
{
    if n <= 0 {
        None
    } else {
        match (newest_write(files, n - 1), files[n - 1].modified) {
            (Some(a), Some(b)) => if b > a {
                Some(b)
            } else {
                Some(a)
            },
            (None, b) => b,
            (a, None) => a,
        }
    }
}

/// The sizes of the first `n` files.
pub open spec fn files_bytes(files: Seq<FileFacts>, n: int) -> nat
    decreases n,
{
    if n <= 0 {
        0
    } else {
        files_bytes(files, n - 1) + files[n - 1].bytes as nat
    }
}

/// A unit from the files inside it: as new as its newest write, as large as
/// all of them. One without any dated file counts as ancient.
pub fn measure(files: &Vec<FileFacts>) -> (unit: Unit)
    requires
        files_bytes(files@, files@.len() as int) <= u64::MAX,
    ensures
        unit.newest == match newest_write(files@, files@.len() as int) {
            Some(newest) => newest,
            None => 0,
        },
        unit.bytes == files_bytes(files@, files@.len() as int),
{
    let mut newest: Option<i128> = None;
    let mut bytes: u64 = 0;
    let mut i: usize = 0;
    while i < files.len()
        invariant
            i <= files@.len(),
            files_bytes(files@, files@.len() as int) <= u64::MAX,
            newest == newest_write(files@, i as int),
            bytes == files_bytes(files@, i as int),
        decreases files@.len() - i,
    {
        proof {
            lemma_files_bytes(files@, i + 1, files@.len() as int);
        }
        bytes = bytes + files[i].bytes;
        newest = match (newest, files[i].modified) {
            (Some(a), Some(b)) => if b > a {
                Some(b)
            } else {
                Some(a)
            },
            (None, b) => b,
            (a, None) => a,
        };
        i = i + 1;
    }
    let newest = match newest {
        Some(when) => when,
        None => 0,
    };
    Unit { newest, bytes }
}

proof fn lemma_files_bytes(files: Seq<FileFacts>, i: int, n: int)
    requires
        0 <= i <= n,
    ensures
        files_bytes(files, i) <= files_bytes(files, n),
    decreases n - i,
{
    if i < n {
        lemma_files_bytes(files, i, n - 1);
    }
}

/// The expired units are those last written before the cutoff, all of them, each
/// once and in the order they are listed.
pub proof fn what_was_written_before_the_cutoff_expires(
    units: Seq<Unit>,
    cutoff: Option<i128>,
    n: int,
)
    requires
        0 <= n <= units.len(),
    ensures
        forall|p: int|
            #[trigger] expired_among(units, cutoff, n).contains(p) <==> 0 <= p < n && (
            cutoff matches Some(limit) && units[p].newest < limit),
        forall|i: int, j: int|
            0 <= i < j < expired_among(units, cutoff, n).len() ==> #[trigger] expired_among(
                units,
                cutoff,
                n,
            )[i] < #[trigger] expired_among(units, cutoff, n)[j],
    decreases n,
{
    if n > 0 {
        what_was_written_before_the_cutoff_expires(units, cutoff, n - 1);
        let before = expired_among(units, cutoff, n - 1);
        let now = expired_among(units, cutoff, n);
        assert forall|i: int| 0 <= i < before.len() implies #[trigger] before[i] < n - 1 by {
            assert(before.contains(before[i]));
        }
        assert forall|p: int| #[trigger] now.contains(p) <==> 0 <= p < n && (
        cutoff matches Some(limit) && units[p].newest < limit) by {
            assert(before.contains(p) <==> 0 <= p < n - 1 && (cutoff matches Some(limit)
                && units[p].newest < limit));
            if before.contains(p) {
                let k = choose|k: int| 0 <= k < before.len() && before[k] == p;
                assert(now[k] == p);
            }
            if p == n - 1 && is_expired(units[n - 1], cutoff) {
                assert(now[before.len() as int] == p);
            }
            if now.contains(p) && p != n - 1 {
                let k = choose|k: int| 0 <= k < now.len() && now[k] == p;
                assert(before[k] == p);
            }
        }
    } else {
        assert forall|p: int| !(#[trigger] expired_among(units, cutoff, n).contains(p)) by {}
    }
}

/// What is kept is as large as the units that were not written before the
/// cutoff.
pub proof fn what_is_kept_is_what_is_left(units: Seq<Unit>, cutoff: Option<i128>, n: int)
    requires
        0 <= n <= units.len(),
    ensures
        kept_bytes(units, cutoff, n) == total_bytes(
            units.take(n).filter(|u: Unit| !(cutoff matches Some(limit) && u.newest < limit)),
        ),
    decreases n,
{
    reveal(Seq::filter);
    if n > 0 {
        what_is_kept_is_what_is_left(units, cutoff, n - 1);
        assert(units.take(n).drop_last() =~= units.take(n - 1));
        let kept = units.take(n - 1).filter(
            |u: Unit| !(cutoff matches Some(limit) && u.newest < limit),
        );
        assert(kept.push(units[n - 1]).drop_last() =~= kept);
    }
}

/// The sizes of units add up.
pub proof fn sizes_add_up(units: Seq<Unit>, unit: Unit, list: Seq<usize>, p: usize)
    ensures
        total_bytes(Seq::empty()) == 0,
        total_bytes(units.push(unit)) == total_bytes(units) + unit.bytes,
        bytes_of(units, Seq::empty()) == 0,
        bytes_of(units, list.push(p)) == bytes_of(units, list) + units[p as int].bytes,
{
    assert(units.push(unit).drop_last() =~= units);
    assert(list.push(p).drop_last() =~= list);
}

/// A quota takes the oldest of what is left: nothing still queued was written
/// before it, and what has expired is tried before anything else.
pub proof fn the_oldest_goes_first(sweep: FileSweep, p: int, q: int)
    requires
        sweep.wf(),
        oldest_first(sweep.units@, places(sweep.queue@)),
        sweep.next_unit() == Some(p),
    ensures
        sweep.aged < sweep.expired@.len() ==> p == sweep.expired@[sweep.aged as int],
        sweep.aged == sweep.expired@.len() && sweep.tried <= q < sweep.queue@.len()
            ==> sweep.units@[p].newest <= sweep.units@[sweep.queue@[q] as int].newest,
{
    if sweep.aged == sweep.expired@.len() && sweep.tried < q < sweep.queue@.len() {
        let queue = places(sweep.queue@);
        assert(older(sweep.units@, queue[sweep.tried as int], queue[q]));
    }
}

/// A sweep is over only once everything that had expired was tried.
pub proof fn everything_expired_is_tried(sweep: FileSweep)
    requires
        sweep.wf(),
        sweep.next_unit() is None,
    ensures
        sweep.aged == sweep.expired@.len(),
        sweep.max_bytes matches Some(max) ==> sweep.total <= max || sweep.tried
            == sweep.queue@.len(),
{
}

/// A unit is as new as the newest dated file in it, and undated only when no
/// file in it is dated.
pub proof fn the_newest_write_is_the_newest(files: Seq<FileFacts>, n: int)
    requires
        0 <= n <= files.len(),
    ensures
        newest_write(files, n) is None <==> forall|i: int|
            0 <= i < n ==> (#[trigger] files[i]).modified is None,
        newest_write(files, n) matches Some(newest) ==> {
            &&& exists|i: int| 0 <= i < n && (#[trigger] files[i]).modified == Some(newest)
            &&& forall|i: int|
                0 <= i < n ==> ((#[trigger] files[i]).modified matches Some(when) ==> when
                    <= newest)
        },
    decreases n,
{
    if n > 0 {
        the_newest_write_is_the_newest(files, n - 1);
        if newest_write(files, n - 1) is Some {
            let newest = newest_write(files, n - 1)->0;
            let i = choose|i: int| 0 <= i < n - 1 && (#[trigger] files[i]).modified == Some(newest);
            assert(files[i].modified == Some(newest));
        }
        assert(files[n - 1].modified == files[n - 1].modified);
    }
}

/// A unit is as large as all the files in it.
pub proof fn file_sizes_add_up(files: Seq<FileFacts>, n: int)
    ensures
        files_bytes(files, 0) == 0,
        n >= 0 ==> files_bytes(files, n + 1) == files_bytes(files, n) + files[n].bytes,
{
}

/// Of two units one is the older: the one last written first, and of equals the
/// one listed first.
pub proof fn one_of_two_is_older(units: Seq<Unit>, a: int, b: int)
    ensures
        a != b ==> older(units, a, b) || older(units, b, a),
        !(older(units, a, b) && older(units, b, a)),
        units[a].newest < units[b].newest ==> older(units, a, b),
        units[a].newest == units[b].newest && a < b ==> older(units, a, b),
{
}

} // verus!
