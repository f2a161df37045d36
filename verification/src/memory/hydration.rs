//! Filling a turn's context from long-term memory.
//!
//! Scopes are searched in order. Of what each returns, active records are
//! candidates, and a candidate is taken while it fits the token budget and
//! there is room for another fragment.

use super::query::{
    estimate_fragment_tokens, fragment_tokens, is_active, record_is_active, Record, RecordView,
};
use super::scope::{HydrationRequest, HydrationStats};
use crate::json::copy_entries;
use crate::lists::contains_text;
use crate::prompt::sections::{fragments_view, FragmentView, MemoryFragment};
use crate::text::texts;
use vstd::prelude::*;

verus! {

/// The records of a list.
pub open spec fn records_view(records: Seq<Record>) -> Seq<RecordView> {
    records.map_values(|r: Record| r@)
}

/// The fragment a record is offered as.
pub open spec fn fragment_of(record: RecordView) -> FragmentView {
    FragmentView {
        id: record.id,
        namespace: record.namespace,
        body: record.body,
        metadata: record.metadata,
    }
}

/// A count that stops at the machine limit.
pub open spec fn saturated(n: nat) -> nat {
    if n > usize::MAX {
        usize::MAX as nat
    } else {
        n
    }
}

/// What a hydration has gathered so far.
#[verifier::ext_equal]
pub struct Gathered {
    pub fragments: Seq<FragmentView>,
    /// The namespaces fragments came from, each once.
    pub namespaces: Seq<Seq<char>>,
    pub estimated_tokens: nat,
    pub candidates: nat,
}

/// Nothing gathered.
pub open spec fn nothing() -> Gathered {
    Gathered {
        fragments: Seq::empty(),
        namespaces: Seq::empty(),
        estimated_tokens: 0,
        candidates: 0,
    }
}

/// Whether a fragment fits what is left of the token budget; a budget of zero
/// is no budget.
pub open spec fn fits(so_far: Gathered, max_tokens: nat, fragment: FragmentView) -> bool {
    max_tokens == 0 || saturated(so_far.estimated_tokens + fragment_tokens(fragment)) <= max_tokens
}

/// What considering one record leaves.
pub open spec fn considered(so_far: Gathered, max_tokens: nat, record: RecordView) -> Gathered {
    let fragment = fragment_of(record);
    if !is_active(record) {
        so_far
    } else if !fits(so_far, max_tokens, fragment) {
        Gathered { candidates: saturated(so_far.candidates + 1), ..so_far }
    } else {
        Gathered {
            fragments: so_far.fragments.push(fragment),
            namespaces: if so_far.namespaces.contains(fragment.namespace) {
                so_far.namespaces
            } else {
                so_far.namespaces.push(fragment.namespace)
            },
            estimated_tokens: saturated(so_far.estimated_tokens + fragment_tokens(fragment)),
            candidates: saturated(so_far.candidates + 1),
        }
    }
}

/// What considering the first `n` records leaves; once there is no room for
/// another fragment the rest is not looked at.
pub open spec fn gathered(
    so_far: Gathered,
    max_fragments: nat,
    max_tokens: nat,
    records: Seq<RecordView>,
    n: int,
) -> Gathered
    decreases n,
{
    if n <= 0 {
        so_far
    } else {
        let before = gathered(so_far, max_fragments, max_tokens, records, n - 1);
        if before.fragments.len() >= max_fragments {
            before
        } else {
            considered(before, max_tokens, records[n - 1])
        }
    }
}

/// The tokens of fragments.
pub open spec fn tokens_of(fragments: Seq<FragmentView>) -> nat
    decreases fragments.len(),
{
    if fragments.len() == 0 {
        0
    } else {
        tokens_of(fragments.drop_last()) + fragment_tokens(fragments.last())
    }
}

/// Whether what was gathered keeps the budgets it was gathered under.
pub open spec fn within(so_far: Gathered, max_fragments: nat, max_tokens: nat) -> bool {
    &&& so_far.fragments.len() <= max_fragments
    &&& so_far.namespaces.len() <= so_far.fragments.len()
    &&& so_far.estimated_tokens == saturated(tokens_of(so_far.fragments))
    &&& max_tokens > 0 ==> so_far.estimated_tokens <= max_tokens
}

/// Gathering keeps the budgets: never more fragments than asked for, and with
/// a token budget never more tokens than it allows.
pub proof fn gathering_keeps_the_budgets(
    so_far: Gathered,
    max_fragments: nat,
    max_tokens: nat,
    records: Seq<RecordView>,
    n: int,
)
    requires
        within(so_far, max_fragments, max_tokens),
    ensures
        within(
            gathered(so_far, max_fragments, max_tokens, records, n),
            max_fragments,
            max_tokens,
        ),
    decreases n,
{
    if n > 0 {
        gathering_keeps_the_budgets(so_far, max_fragments, max_tokens, records, n - 1);
        let before = gathered(so_far, max_fragments, max_tokens, records, n - 1);
        let after = gathered(so_far, max_fragments, max_tokens, records, n);
        if after.fragments.len() > before.fragments.len() {
            assert(after.fragments.drop_last() =~= before.fragments);
        }
    }
}

/// An empty hydration is within any budget.
pub proof fn nothing_is_within(max_fragments: nat, max_tokens: nat)
    ensures
        within(nothing(), max_fragments, max_tokens),
{
}

/// Nothing inactive is ever recalled: every fragment gathered beyond those
/// before stands for an active record of the list.
pub proof fn only_active_records_are_recalled(
    so_far: Gathered,
    max_fragments: nat,
    max_tokens: nat,
    records: Seq<RecordView>,
    n: int,
    i: int,
)
    requires
        0 <= n <= records.len(),
        so_far.fragments.len() <= i < gathered(
            so_far,
            max_fragments,
            max_tokens,
            records,
            n,
        ).fragments.len(),
    ensures
        exists|k: int|
            0 <= k < n && is_active(#[trigger] records[k]) && gathered(
                so_far,
                max_fragments,
                max_tokens,
                records,
                n,
            ).fragments[i] == fragment_of(records[k]),
    decreases n,
{
    if n > 0 {
        let before = gathered(so_far, max_fragments, max_tokens, records, n - 1);
        if i < before.fragments.len() {
            only_active_records_are_recalled(
                so_far,
                max_fragments,
                max_tokens,
                records,
                n - 1,
                i,
            );
            let k = choose|k: int|
                0 <= k < n - 1 && is_active(#[trigger] records[k]) && before.fragments[i]
                    == fragment_of(records[k]);
            assert(is_active(records[k]));
        } else {
            assert(is_active(records[n - 1]));
        }
    }
}

/// Recall is complete: an active record that is looked at while there is room
/// for another fragment, and whose tokens fit what is left of the budget, is
/// taken, wherever it comes from and whatever was taken before it.
pub proof fn what_fits_is_recalled(
    so_far: Gathered,
    max_fragments: nat,
    max_tokens: nat,
    records: Seq<RecordView>,
    n: int,
    k: int,
)
    requires
        0 <= k < n <= records.len(),
        is_active(records[k]),
        gathered(so_far, max_fragments, max_tokens, records, k).fragments.len() < max_fragments,
        max_tokens == 0 || gathered(so_far, max_fragments, max_tokens, records, k).estimated_tokens
            + fragment_tokens(fragment_of(records[k])) <= max_tokens,
        max_tokens <= usize::MAX,
    ensures
        ({
            let had = gathered(so_far, max_fragments, max_tokens, records, k).fragments;
            let has = gathered(so_far, max_fragments, max_tokens, records, n).fragments;
            had.len() < has.len() && has[had.len() as int] == (FragmentView {
                id: records[k].id,
                namespace: records[k].namespace,
                body: records[k].body,
                metadata: records[k].metadata,
            })
        }),
{
    let had = gathered(so_far, max_fragments, max_tokens, records, k);
    let next = gathered(so_far, max_fragments, max_tokens, records, k + 1);
    assert(next.fragments == had.fragments.push(fragment_of(records[k])));
    recall_only_grows(so_far, max_fragments, max_tokens, records, k + 1, n);
    let has = gathered(so_far, max_fragments, max_tokens, records, n).fragments;
    assert(has.take(next.fragments.len() as int)[had.fragments.len() as int]
        == next.fragments[had.fragments.len() as int]);
}

/// What was taken stays: looking at more records adds behind it.
pub proof fn recall_only_grows(
    so_far: Gathered,
    max_fragments: nat,
    max_tokens: nat,
    records: Seq<RecordView>,
    k: int,
    n: int,
)
    requires
        0 <= k <= n,
    ensures
        ({
            let had = gathered(so_far, max_fragments, max_tokens, records, k);
            let has = gathered(so_far, max_fragments, max_tokens, records, n);
            &&& had.fragments.len() <= has.fragments.len()
            &&& has.fragments.take(had.fragments.len() as int) == had.fragments
            &&& had.namespaces.len() <= has.namespaces.len()
            &&& has.namespaces.take(had.namespaces.len() as int) == had.namespaces
            &&& had.candidates <= has.candidates || had.candidates > usize::MAX
        }),
    decreases n - k,
{
    let had = gathered(so_far, max_fragments, max_tokens, records, k);
    let has = gathered(so_far, max_fragments, max_tokens, records, n);
    if k < n {
        recall_only_grows(so_far, max_fragments, max_tokens, records, k, n - 1);
        let mid = gathered(so_far, max_fragments, max_tokens, records, n - 1);
        assert(has.fragments.take(had.fragments.len() as int) =~= mid.fragments.take(
            had.fragments.len() as int,
        ));
        assert(has.namespaces.take(had.namespaces.len() as int) =~= mid.namespaces.take(
            had.namespaces.len() as int,
        ));
    } else {
        assert(has.fragments.take(had.fragments.len() as int) =~= had.fragments);
        assert(has.namespaces.take(had.namespaces.len() as int) =~= had.namespaces);
    }
}

/// A record is passed over for one reason alone: it is not active, there is no
/// room, or its tokens do not fit. Everything active that is looked at is
/// counted, taken or not.
pub proof fn what_is_passed_over(
    so_far: Gathered,
    max_fragments: nat,
    max_tokens: nat,
    records: Seq<RecordView>,
    k: int,
)
    requires
        0 <= k < records.len(),
        max_tokens < usize::MAX,
    ensures
        ({
            let had = gathered(so_far, max_fragments, max_tokens, records, k);
            let has = gathered(so_far, max_fragments, max_tokens, records, k + 1);
            let room = had.fragments.len() < max_fragments;
            let fit = max_tokens == 0 || had.estimated_tokens + fragment_tokens(
                fragment_of(records[k]),
            ) <= max_tokens;
            &&& has.fragments == had.fragments <==> !(room && is_active(records[k]) && fit)
            &&& room && is_active(records[k]) && had.candidates < usize::MAX ==> has.candidates
                == had.candidates + 1
            &&& !(room && is_active(records[k])) ==> has == had
        }),
{
    let had = gathered(so_far, max_fragments, max_tokens, records, k);
    assert(had.fragments.push(fragment_of(records[k])).len() != had.fragments.len());
}

/// The namespaces are those of the fragments, each once.
pub proof fn namespaces_are_the_fragments_own(
    so_far: Gathered,
    max_fragments: nat,
    max_tokens: nat,
    records: Seq<RecordView>,
    n: int,
)
    requires
        0 <= n <= records.len(),
        names_its_sources(so_far),
    ensures
        names_its_sources(gathered(so_far, max_fragments, max_tokens, records, n)),
    decreases n,
{
    if n > 0 {
        namespaces_are_the_fragments_own(so_far, max_fragments, max_tokens, records, n - 1);
        let had = gathered(so_far, max_fragments, max_tokens, records, n - 1);
        let has = gathered(so_far, max_fragments, max_tokens, records, n);
        if has.fragments.len() > had.fragments.len() {
            let own = fragment_of(records[n - 1]);
            crate::lists::lemma_push_members(had.namespaces, own.namespace);
            assert forall|name: Seq<char>| #[trigger]
                has.namespaces.contains(name) <==> exists|i: int|
                    0 <= i < has.fragments.len() && (#[trigger] has.fragments[i]).namespace
                        == name by {
                assert(has.namespaces.contains(name) <==> had.namespaces.contains(name) || name
                    == own.namespace) by {
                    assert(had.namespaces.push(own.namespace).to_set().contains(name)
                        <==> had.namespaces.to_set().contains(name) || name == own.namespace);
                }
                if had.namespaces.contains(name) {
                    let i = choose|i: int|
                        0 <= i < had.fragments.len() && (#[trigger] had.fragments[i]).namespace
                            == name;
                    assert(has.fragments[i] == had.fragments[i]);
                }
                assert(has.fragments[had.fragments.len() as int] == own);
                if exists|i: int|
                    0 <= i < has.fragments.len() && (#[trigger] has.fragments[i]).namespace
                        == name {
                    let i = choose|i: int|
                        0 <= i < has.fragments.len() && (#[trigger] has.fragments[i]).namespace
                            == name;
                    if i < had.fragments.len() {
                        assert(had.fragments[i].namespace == name);
                    }
                }
            }
            assert(has.namespaces.no_duplicates());
        }
    }
}

/// Whether the namespaces gathered are those of the fragments, each once.
pub open spec fn names_its_sources(so_far: Gathered) -> bool {
    &&& so_far.namespaces.no_duplicates()
    &&& forall|name: Seq<char>| #[trigger]
        so_far.namespaces.contains(name) <==> exists|i: int|
            0 <= i < so_far.fragments.len() && (#[trigger] so_far.fragments[i]).namespace == name
}

/// What a hydration took, and what it looked at.
pub struct HydrationResult {
    pub fragments: Vec<MemoryFragment>,
    pub stats: HydrationStats,
}

/// A hydration under way.
pub struct Hydration {
    pub max_fragments: usize,
    pub max_tokens: usize,
    pub fragments: Vec<MemoryFragment>,
    pub namespaces: Vec<String>,
    pub estimated_tokens: usize,
    pub candidates: usize,
}

impl Hydration {
    /// What was gathered so far.
    pub open spec fn so_far(&self) -> Gathered {
        Gathered {
            fragments: fragments_view(self.fragments@),
            namespaces: texts(self.namespaces@),
            estimated_tokens: self.estimated_tokens as nat,
            candidates: self.candidates as nat,
        }
    }

    /// Starts a hydration.
    pub fn start(request: &HydrationRequest) -> (out: Hydration)
        ensures
            out.so_far() == nothing(),
            out.max_fragments == request.max_fragments,
            out.max_tokens == request.max_tokens,
    {
        let out = Hydration {
            max_fragments: request.max_fragments,
            max_tokens: request.max_tokens,
            fragments: Vec::new(),
            namespaces: Vec::new(),
            estimated_tokens: 0,
            candidates: 0,
        };
        assert(out.so_far() =~= nothing());
        out
    }

    /// How many records to ask the next scope for: four for every fragment
    /// there is still room for. `None` when there is no room.
    pub fn candidate_limit(&self) -> (limit: Option<usize>)
        ensures
            limit is None <==> self.so_far().fragments.len() >= self.max_fragments,
            limit matches Some(n) ==> n == saturated(
                (4 * (self.max_fragments - self.so_far().fragments.len())) as nat,
            ),
    {
        let taken: usize = self.fragments.len();
        if taken >= self.max_fragments {
            return None;
        }
        let remaining: usize = self.max_fragments - taken;
        if remaining > usize::MAX / 4 {
            Some(usize::MAX)
        } else {
            Some(remaining * 4)
        }
    }

    /// Takes what one scope returned.
    pub fn take(&mut self, records: &Vec<Record>)
        ensures
            final(self).so_far() == gathered(
                old(self).so_far(),
                old(self).max_fragments as nat,
                old(self).max_tokens as nat,
                records_view(records@),
                records@.len() as int,
            ),
            final(self).max_fragments == old(self).max_fragments,
            final(self).max_tokens == old(self).max_tokens,
    {
        let ghost all = records_view(records@);
        let mut i: usize = 0;
        while i < records.len()
            invariant
                i <= records@.len(),
                all == records_view(records@),
                self.max_fragments == old(self).max_fragments,
                self.max_tokens == old(self).max_tokens,
                self.so_far() == gathered(
                    old(self).so_far(),
                    old(self).max_fragments as nat,
                    old(self).max_tokens as nat,
                    all,
                    i as int,
                ),
            decreases records@.len() - i,
        {
            let ghost before = self.so_far();
            if self.fragments.len() < self.max_fragments {
                self.consider(&records[i]);
            } else {
                assert(before.fragments.len() >= self.max_fragments);
            }
            i = i + 1;
        }
    }

    fn consider(&mut self, record: &Record)
        ensures
            final(self).so_far() == considered(old(self).so_far(), old(self).max_tokens as nat, record@),
            final(self).max_fragments == old(self).max_fragments,
            final(self).max_tokens == old(self).max_tokens,
    {
        if !record_is_active(record) {
            return;
        }
        let ghost before = self.so_far();
        let fragment = fragment_from(record);
        let tokens: usize = estimate_fragment_tokens(&fragment);
        let total: usize = if tokens > usize::MAX - self.estimated_tokens {
            usize::MAX
        } else {
            self.estimated_tokens + tokens
        };
        if self.candidates < usize::MAX {
            self.candidates = self.candidates + 1;
        }
        if self.max_tokens > 0 && total > self.max_tokens {
            return;
        }
        if !contains_text(&self.namespaces, fragment.namespace.as_str()) {
            self.namespaces.push(fragment.namespace.clone());
            assert(texts(self.namespaces@) =~= before.namespaces.push(fragment@.namespace));
        }
        self.estimated_tokens = total;
        let ghost view = fragment@;
        self.fragments.push(fragment);
        assert(fragments_view(self.fragments@) =~= before.fragments.push(view));
    }

    /// What was gathered, with the counts.
    pub fn finish(self) -> (out: HydrationResult)
        ensures
            out.fragments == self.fragments,
            out.stats.candidate_count == self.candidates,
            out.stats.selected_count == self.fragments@.len(),
            out.stats.namespace_count == self.namespaces@.len(),
    {
        let stats = HydrationStats {
            candidate_count: self.candidates,
            selected_count: self.fragments.len(),
            namespace_count: self.namespaces.len(),
        };
        HydrationResult { fragments: self.fragments, stats }
    }
}

fn fragment_from(record: &Record) -> (out: MemoryFragment)
    ensures
        out@ == fragment_of(record@),
{
    let id = match &record.id {
        Some(id) => Some(id.clone()),
        None => None,
    };
    MemoryFragment {
        id,
        namespace: record.namespace.clone(),
        body: record.body.copy(),
        metadata: copy_entries(&record.metadata),
    }
}

} // verus!
