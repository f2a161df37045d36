//! One maintenance leader at a time.
//!
//! A lease is a row everyone contends for. It is taken when free, expired, or
//! already the asker's own, and it expires unless renewed, so a leader that
//! dies is replaced.

use crate::text::{decimal, push_decimal, same};
use vstd::prelude::*;

verus! {

/// The reflection and retention sweep.
pub const REFLECTION_LEASE: &'static str = "memory.reflection";

/// How many seconds a lease lasts without renewal.
pub const DEFAULT_LEASE_TTL: u64 = 300;

/// A held lease.
#[derive(Debug, PartialEq, Eq)]
pub struct Lease {
    pub name: String,
    pub holder: String,
    /// Unix seconds after which another contender may take it.
    pub expires_at: u64,
}

/// What a [`Lease`] stands for.
#[verifier::ext_equal]
pub struct LeaseView {
    pub name: Seq<char>,
    pub holder: Seq<char>,
    pub expires_at: u64,
}

impl View for Lease {
    type V = LeaseView;

    open spec fn view(&self) -> LeaseView {
        LeaseView { name: self.name@, holder: self.holder@, expires_at: self.expires_at }
    }
}

impl Lease {
    /// Copies a lease.
    pub fn copy(&self) -> (out: Lease)
        ensures
            out@ == self@,
    {
        Lease {
            name: self.name.clone(),
            holder: self.holder.clone(),
            expires_at: self.expires_at,
        }
    }
}

/// Who is asking: the process and the role, so two roles of one process are
/// two contenders.
pub fn lease_holder_id(process: u32, role: &str) -> (id: String)
    ensures
        id@ == decimal(process as nat) + ":"@ + role@,
{
    let mut id = String::new();
    push_decimal(&mut id, process as u64);
    id.push_str(":");
    id.push_str(role);
    assert(id@ =~= decimal(process as nat) + ":"@ + role@);
    id
}

/// Whether an asker gets the lease, given who holds it.
pub open spec fn granted(held: Option<LeaseView>, holder: Seq<char>, now: u64) -> bool {
    match held {
        None => true,
        Some(lease) => lease.expires_at <= now || lease.holder == holder,
    }
}

/// When a lease taken now for `ttl` seconds expires; at least a second later,
/// and never past the clock's range.
pub open spec fn expiry(now: u64, ttl: u64) -> u64 {
    let span = if ttl < 1 {
        1
    } else {
        ttl as int
    };
    if now + span > u64::MAX {
        u64::MAX
    } else {
        (now + span) as u64
    }
}

/// Until a lease expires nobody but its holder gets it.
pub proof fn lease_excludes_others(lease: LeaseView, other: Seq<char>, now: u64)
    requires
        other != lease.holder,
        now < lease.expires_at,
    ensures
        !granted(Some(lease), other, now),
{
}

/// A holder always gets its own lease again, and once a lease has expired
/// anybody does.
pub proof fn lease_is_renewable_and_expires(lease: LeaseView, holder: Seq<char>, now: u64)
    requires
        holder == lease.holder || lease.expires_at <= now,
    ensures
        granted(Some(lease), holder, now),
{
}

/// A lease just taken is in force: it expires later than now, whatever was
/// asked for, while the clock has room.
pub proof fn fresh_lease_is_in_force(now: u64, ttl: u64)
    requires
        now < u64::MAX,
    ensures
        now < expiry(now, ttl),
{
}

/// The lease under a name, among rows.
pub open spec fn held(rows: Seq<Lease>, name: Seq<char>) -> Option<LeaseView>
    decreases rows.len(),
{
    if rows.len() == 0 {
        None
    } else if rows.last().name@ == name {
        Some(rows.last()@)
    } else {
        held(rows.drop_last(), name)
    }
}

/// Every lease there is; at most one row per name.
pub struct LeaseTable {
    pub rows: Vec<Lease>,
}

impl LeaseTable {
    /// Whether no name has two rows.
    pub open spec fn wf(&self) -> bool {
        forall|i: int, j: int|
            0 <= i < j < self.rows@.len() ==> (#[trigger] self.rows@[i]).name@ != (
            #[trigger] self.rows@[j]).name@
    }

    /// The lease under a name.
    pub open spec fn held(&self, name: Seq<char>) -> Option<LeaseView> {
        held(self.rows@, name)
    }

    /// A table without leases.
    pub fn new() -> (out: LeaseTable)
        ensures
            out.wf(),
            forall|name: Seq<char>| #[trigger] out.held(name) is None,
    {
        LeaseTable { rows: Vec::new() }
    }

    fn position(&self, name: &str) -> (at: Option<usize>)
        requires
            self.wf(),
        ensures
            at matches Some(i) ==> i < self.rows@.len() && self.rows@[i as int].name@ == name@
                && self.held(name@) == Some(self.rows@[i as int]@),
            at is None ==> self.held(name@) is None,
    {
        let mut i: usize = self.rows.len();
        assert(self.rows@.take(self.rows@.len() as int) =~= self.rows@);
        while i > 0
            invariant
                i <= self.rows@.len(),
                held(self.rows@, name@) == held(self.rows@.take(i as int), name@),
            decreases i,
        {
            assert(self.rows@.take(i as int).last() == self.rows@[i - 1]);
            assert(self.rows@.take(i as int).drop_last() =~= self.rows@.take(i - 1));
            if same(self.rows[i - 1].name.as_str(), name) {
                return Some(i - 1);
            }
            i = i - 1;
        }
        None
    }

    /// Takes `name` for `ttl` seconds, or renews it if this holder already has
    /// it. `None`, and nothing changed, when somebody else holds it.
    pub fn acquire_lease_at(&mut self, name: &str, holder: &str, ttl: u64, now: u64) -> (out: Option<
        Lease,
    >)
        requires
            old(self).wf(),
        ensures
            final(self).wf(),
            out is Some <==> granted(old(self).held(name@), holder@, now),
            out matches Some(lease) ==> lease@ == (LeaseView {
                name: name@,
                holder: holder@,
                expires_at: expiry(now, ttl),
            }) && final(self).held(name@) == Some(lease@),
            out is None ==> *final(self) == *old(self),
            forall|other: Seq<char>|
                other != name@ ==> #[trigger] final(self).held(other) == old(self).held(other),
    {
        let at = self.position(name);
        if let Some(i) = at {
            let row = &self.rows[i];
            if row.expires_at > now && !same(row.holder.as_str(), holder) {
                return None;
            }
        }
        let span: u64 = if ttl < 1 {
            1
        } else {
            ttl
        };
        let expires_at: u64 = match now.checked_add(span) {
            Some(sum) => sum,
            None => u64::MAX,
        };
        let lease = Lease { name: name.to_owned(), holder: holder.to_owned(), expires_at };
        let out = lease.copy();
        let ghost before = self.rows@;
        match at {
            Some(i) => {
                self.rows.set(i, lease);
                proof {
                    lemma_held_update(before, i as int, lease);
                    assert(self.rows@ =~= before.update(i as int, lease));
                }
            },
            None => {
                proof {
                    lemma_not_held(before, name@);
                }
                self.rows.push(lease);
                proof {
                    assert(self.rows@.drop_last() =~= before);
                }
            },
        }
        Some(out)
    }

    /// Gives up a lease this holder has. False, and nothing changed, when it
    /// does not have it.
    pub fn release_lease(&mut self, name: &str, holder: &str) -> (released: bool)
        requires
            old(self).wf(),
        ensures
            final(self).wf(),
            released == (old(self).held(name@) matches Some(lease) && lease.holder == holder@),
            released ==> final(self).held(name@) is None,
            !released ==> *final(self) == *old(self),
            forall|other: Seq<char>|
                other != name@ ==> #[trigger] final(self).held(other) == old(self).held(other),
    {
        match self.position(name) {
            Some(i) => {
                if !same(self.rows[i].holder.as_str(), holder) {
                    return false;
                }
                let ghost before = self.rows@;
                self.rows.remove(i);
                proof {
                    assert(self.rows@ =~= before.remove(i as int));
                    lemma_held_remove(before, i as int);
                    assert forall|a: int, b: int| 0 <= a < b < self.rows@.len() implies (
                    #[trigger] self.rows@[a]).name@ != (#[trigger] self.rows@[b]).name@ by {
                        let x = if a < i { a } else { a + 1 };
                        let y = if b < i { b } else { b + 1 };
                        assert(self.rows@[a] == before[x]);
                        assert(self.rows@[b] == before[y]);
                    }
                }
                true
            },
            None => false,
        }
    }

    /// Who holds `name` and until when.
    pub fn lease(&self, name: &str) -> (out: Option<Lease>)
        requires
            self.wf(),
        ensures
            out matches Some(lease) ==> self.held(name@) == Some(lease@),
            out is None ==> self.held(name@) is None,
    {
        match self.position(name) {
            Some(i) => Some(self.rows[i].copy()),
            None => None,
        }
    }
}

spec fn distinct(rows: Seq<Lease>) -> bool {
    forall|i: int, j: int|
        0 <= i < j < rows.len() ==> (#[trigger] rows[i]).name@ != (#[trigger] rows[j]).name@
}

proof fn lemma_not_held(rows: Seq<Lease>, name: Seq<char>)
    requires
        held(rows, name) is None,
    ensures
        forall|i: int| 0 <= i < rows.len() ==> (#[trigger] rows[i]).name@ != name,
    decreases rows.len(),
{
    if rows.len() > 0 {
        lemma_not_held(rows.drop_last(), name);
        assert forall|i: int| 0 <= i < rows.len() implies (#[trigger] rows[i]).name@ != name by {
            if i < rows.len() - 1 {
                assert(rows.drop_last()[i] == rows[i]);
            }
        }
    }
}

proof fn lemma_held_update(rows: Seq<Lease>, at: int, lease: Lease)
    requires
        0 <= at < rows.len(),
        rows[at].name@ == lease.name@,
        distinct(rows),
    ensures
        held(rows.update(at, lease), lease.name@) == Some(lease@),
        forall|other: Seq<char>|
            other != lease.name@ ==> #[trigger] held(rows.update(at, lease), other) == held(
                rows,
                other,
            ),
    decreases rows.len(),
{
    let after = rows.update(at, lease);
    if at < rows.len() - 1 {
        lemma_held_update(rows.drop_last(), at, lease);
        assert(after.drop_last() =~= rows.drop_last().update(at, lease));
        assert(rows[at].name@ != rows[rows.len() - 1].name@);
        assert forall|other: Seq<char>| other != lease.name@ implies #[trigger] held(after, other)
            == held(rows, other) by {
            assert(held(rows.drop_last().update(at, lease), other) == held(rows.drop_last(), other));
        }
    } else {
        assert(after.drop_last() =~= rows.drop_last());
        assert forall|other: Seq<char>| other != lease.name@ implies #[trigger] held(after, other)
            == held(rows, other) by {
            assert(held(after.drop_last(), other) == held(rows.drop_last(), other));
        }
    }
}

proof fn lemma_held_remove(rows: Seq<Lease>, at: int)
    requires
        0 <= at < rows.len(),
        distinct(rows),
    ensures
        held(rows.remove(at), rows[at].name@) is None,
        forall|other: Seq<char>|
            other != rows[at].name@ ==> #[trigger] held(rows.remove(at), other) == held(rows, other),
    decreases rows.len(),
{
    let after = rows.remove(at);
    if at < rows.len() - 1 {
        lemma_held_remove(rows.drop_last(), at);
        assert(after.drop_last() =~= rows.drop_last().remove(at));
        assert(after.last() == rows.last());
        assert(rows[at].name@ != rows[rows.len() - 1].name@);
        assert forall|other: Seq<char>| other != rows[at].name@ implies #[trigger] held(after, other)
            == held(rows, other) by {
            assert(held(rows.drop_last().remove(at), other) == held(rows.drop_last(), other));
        }
    } else {
        assert(after =~= rows.drop_last());
        if held(after, rows[at].name@) is Some {
            lemma_held_is_row(after, rows[at].name@);
            let k = choose|k: int| 0 <= k < after.len() && (#[trigger] after[k]).name@ == rows[at].name@;
            assert(rows[k].name@ != rows[at].name@);
        }
    }
}

proof fn lemma_held_is_row(rows: Seq<Lease>, name: Seq<char>)
    requires
        held(rows, name) is Some,
    ensures
        exists|k: int| 0 <= k < rows.len() && (#[trigger] rows[k]).name@ == name,
    decreases rows.len(),
{
    if rows.last().name@ == name {
        assert(rows[rows.len() - 1].name@ == name);
    } else {
        lemma_held_is_row(rows.drop_last(), name);
        let k = choose|k: int|
            0 <= k < rows.drop_last().len() && (#[trigger] rows.drop_last()[k]).name@ == name;
        assert(rows[k].name@ == name);
    }
}

/// A lease lasts as long as was asked for, and at least a second, as far as the
/// clock goes.
pub proof fn a_lease_lasts_as_long_as_asked(now: u64, ttl: u64)
    ensures
        ttl >= 1 && now + ttl <= u64::MAX ==> expiry(now, ttl) == now + ttl,
        ttl == 0 && now < u64::MAX ==> expiry(now, ttl) == now + 1,
        now + ttl > u64::MAX ==> expiry(now, ttl) == u64::MAX,
{
}

/// What is held under a name is the row of that name, where no name has two.
pub proof fn a_lease_is_held_by_its_row(rows: Seq<Lease>, name: Seq<char>, i: int)
    requires
        forall|a: int, b: int|
            0 <= a < b < rows.len() ==> (#[trigger] rows[a]).name@ != (#[trigger] rows[b]).name@,
    ensures
        0 <= i < rows.len() && rows[i].name@ == name ==> held(rows, name) == Some(rows[i]@),
        (forall|k: int| 0 <= k < rows.len() ==> (#[trigger] rows[k]).name@ != name) ==> held(
            rows,
            name,
        ) is None,
    decreases rows.len(),
{
    if rows.len() > 0 {
        let rest = rows.drop_last();
        assert forall|a: int, b: int| 0 <= a < b < rest.len() implies (#[trigger] rest[a]).name@ != (
        #[trigger] rest[b]).name@ by {
            assert(rest[a] == rows[a] && rest[b] == rows[b]);
        }
        a_lease_is_held_by_its_row(rest, name, i);
        if 0 <= i < rows.len() - 1 {
            assert(rows[i].name@ != rows[rows.len() - 1].name@);
        }
        if forall|k: int| 0 <= k < rows.len() ==> (#[trigger] rows[k]).name@ != name {
            assert(rows[rows.len() - 1].name@ != name);
            assert forall|k: int| 0 <= k < rest.len() implies (#[trigger] rest[k]).name@ != name by {
                assert(rest[k] == rows[k]);
            }
        }
    }
}

/// A lease that nobody holds is had for the asking.
pub proof fn a_free_lease_is_granted(holder: Seq<char>, now: u64)
    ensures
        granted(None, holder, now),
{
}

} // verus!
