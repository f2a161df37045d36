//! Lexical and semantic hits put together, and the hashed embedding.
//!
//! Scores and vectors are floating point and are computed by the caller; what
//! is counted, ordered and looked up is here.

use super::hydration::records_view;
use super::query::{Record, RecordView};
use crate::json::{compact_text, entries_to_text, find, lookup, member, Json, Value};
use crate::lists::{
    contains_text, lemma_precedes_total, lemma_precedes_trans, precedes, text_less, words, words_of,
};
use crate::ranking::{beats, best_first, descending_order, positions};
use crate::text::{lowered, same, texts, to_lower};
use vstd::prelude::*;
use vstd::utf8::encode_utf8;

verus! {

/// The lists of a ranking.
pub open spec fn lists_view(lists: Seq<Vec<String>>) -> Seq<Seq<Seq<char>>> {
    lists.map_values(|l: Vec<String>| texts(l@))
}

/// An id met in a ranking, with its rank there.
pub type Met = (Seq<char>, nat);

/// The first `n` ids of one ranking.
pub open spec fn met_in(list: Seq<Seq<char>>, n: int) -> Seq<Met> {
    Seq::new(n as nat, |i: int| (list[i], i as nat))
}

/// Every id of the first `n` rankings, ranking by ranking.
pub open spec fn met(lists: Seq<Seq<Seq<char>>>, n: int) -> Seq<Met>
    decreases n,
{
    if n <= 0 {
        Seq::empty()
    } else {
        met(lists, n - 1) + met_in(lists[n - 1], lists[n - 1].len() as int)
    }
}

/// The distinct ids, in the order they were first met.
pub open spec fn first_met(all: Seq<Met>) -> Seq<Seq<char>>
    decreases all.len(),
{
    if all.len() == 0 {
        Seq::empty()
    } else {
        let before = first_met(all.drop_last());
        if before.contains(all.last().0) {
            before
        } else {
            before.push(all.last().0)
        }
    }
}

/// The ranks an id was met at, in order.
pub open spec fn ranks_of(all: Seq<Met>, id: Seq<char>) -> Seq<nat>
    decreases all.len(),
{
    if all.len() == 0 {
        Seq::empty()
    } else {
        let before = ranks_of(all.drop_last(), id);
        if all.last().0 == id {
            before.push(all.last().1)
        } else {
            before
        }
    }
}

/// One id and the ranks it was met at.
pub struct Ranked {
    pub id: String,
    pub ranks: Vec<usize>,
}

/// The ids of a table.
pub open spec fn ranked_ids(table: Seq<Ranked>) -> Seq<Seq<char>> {
    table.map_values(|r: Ranked| r.id@)
}

/// The view of ranks.
pub open spec fn ranks_view(ranks: Seq<usize>) -> Seq<nat> {
    ranks.map_values(|r: usize| r as nat)
}

/// Whether a table accounts for every id met, in the order first met, with
/// every rank it was met at.
pub open spec fn accounts_for(table: Seq<Ranked>, all: Seq<Met>) -> bool {
    &&& ranked_ids(table) == first_met(all)
    &&& forall|i: int|
        0 <= i < table.len() ==> ranks_view((#[trigger] table[i]).ranks@) == ranks_of(
            all,
            table[i].id@,
        )
}

/// The distinct ids of several rankings, in the order first met, each with the
/// ranks it was met at.
pub fn rank_table(ranked_lists: &Vec<Vec<String>>) -> (table: Vec<Ranked>)
    ensures
        accounts_for(table@, met(lists_view(ranked_lists@), ranked_lists@.len() as int)),
{
    let ghost lists = lists_view(ranked_lists@);
    let mut table: Vec<Ranked> = Vec::new();
    let mut n: usize = 0;
    assert(ranked_ids(table@) =~= Seq::empty());
    while n < ranked_lists.len()
        invariant
            n <= ranked_lists@.len(),
            lists == lists_view(ranked_lists@),
            accounts_for(table@, met(lists, n as int)),
        decreases ranked_lists@.len() - n,
    {
        let list: &Vec<String> = &ranked_lists[n];
        let ghost before = met(lists, n as int);
        assert(lists[n as int] == texts(list@));
        assert(before + met_in(lists[n as int], 0) =~= before);
        let mut rank: usize = 0;
        while rank < list.len()
            invariant
                rank <= list@.len(),
                n < ranked_lists@.len(),
                lists == lists_view(ranked_lists@),
                lists[n as int] == texts(list@),
                before == met(lists, n as int),
                accounts_for(table@, before + met_in(lists[n as int], rank as int)),
            decreases list@.len() - rank,
        {
            let ghost so_far = before + met_in(lists[n as int], rank as int);
            enter(&mut table, list[rank].as_str(), rank, Ghost(so_far));
            assert(so_far.push((list@[rank as int]@, rank as nat)) =~= before + met_in(
                lists[n as int],
                rank + 1,
            ));
            rank = rank + 1;
        }
        n = n + 1;
    }
    table
}

fn enter(table: &mut Vec<Ranked>, id: &str, rank: usize, Ghost(all): Ghost<Seq<Met>>)
    requires
        accounts_for(old(table)@, all),
    ensures
        accounts_for(final(table)@, all.push((id@, rank as nat))),
{
    let ghost more = all.push((id@, rank as nat));
    assert(more.drop_last() =~= all);
    let ghost ids = first_met(all);
    let mut i: usize = 0;
    while i < table.len()
        invariant
            i <= table@.len(),
            table@ == old(table)@,
            accounts_for(table@, all),
            more == all.push((id@, rank as nat)),
            more.drop_last() == all,
            ids == first_met(all),
            forall|k: int| 0 <= k < i ==> #[trigger] ids[k] != id@,
        decreases table@.len() - i,
    {
        if same(table[i].id.as_str(), id) {
            assert(ids[i as int] == id@);
            assert(ids.contains(id@));
            proof {
                lemma_first_met_distinct(all);
            }
            let mut ranks = copy_ranks(&table[i].ranks);
            ranks.push(rank);
            let own = Ranked { id: table[i].id.clone(), ranks };
            table.set(i, own);
            assert(ranked_ids(table@) =~= ids);
            assert forall|k: int| 0 <= k < table@.len() implies ranks_view(
                (#[trigger] table@[k]).ranks@,
            ) == ranks_of(more, table@[k].id@) by {
                if k == i {
                    assert(ranks_view(table@[k].ranks@) =~= ranks_view(
                        old(table)@[k].ranks@,
                    ).push(rank as nat));
                } else {
                    assert(table@[k] == old(table)@[k]);
                    assert(ids[k] == table@[k].id@);
                    assert(ids[k] != ids[i as int]);
                }
            }
            return;
        }
        assert(ids[i as int] == table@[i as int].id@);
        i = i + 1;
    }
    assert(!ids.contains(id@));
    let mut ranks: Vec<usize> = Vec::new();
    ranks.push(rank);
    table.push(Ranked { id: id.to_owned(), ranks });
    assert(ranked_ids(table@) =~= ids.push(id@));
    proof {
        lemma_unmet(all, id@);
    }
    assert forall|k: int| 0 <= k < table@.len() implies ranks_view((#[trigger] table@[k]).ranks@)
        == ranks_of(more, table@[k].id@) by {
        if k < old(table)@.len() {
            assert(table@[k] == old(table)@[k]);
            assert(ids[k] == table@[k].id@);
        } else {
            assert(ranks_view(table@[k].ranks@) =~= seq![rank as nat]);
            assert(ranks_of(more, id@) =~= seq![rank as nat]);
        }
    }
}

fn copy_ranks(ranks: &Vec<usize>) -> (out: Vec<usize>)
    ensures
        out@ == ranks@,
{
    let mut out: Vec<usize> = Vec::new();
    let mut i: usize = 0;
    while i < ranks.len()
        invariant
            i <= ranks@.len(),
            out@ == ranks@.take(i as int),
        decreases ranks@.len() - i,
    {
        out.push(ranks[i]);
        assert(out@ =~= ranks@.take(i + 1));
        i = i + 1;
    }
    assert(ranks@.take(ranks@.len() as int) =~= ranks@);
    out
}

/// Each id stands once in the order first met, and was met.
pub proof fn lemma_first_met_distinct(all: Seq<Met>)
    ensures
        first_met(all).no_duplicates(),
    decreases all.len(),
{
    if all.len() > 0 {
        lemma_first_met_distinct(all.drop_last());
    }
}

proof fn lemma_unmet(all: Seq<Met>, id: Seq<char>)
    requires
        !first_met(all).contains(id),
    ensures
        ranks_of(all, id).len() == 0,
    decreases all.len(),
{
    if all.len() > 0 {
        let before = first_met(all.drop_last());
        if before.contains(id) {
            let k = choose|k: int| 0 <= k < before.len() && before[k] == id;
            assert(first_met(all)[k] == id);
        }
        if all.last().0 == id && !before.contains(id) {
            assert(first_met(all).last() == id);
        }
        lemma_unmet(all.drop_last(), id);
    }
}

/// Whether ids are the best entries of a table, best first, at most `limit`.
pub open spec fn is_fusion(
    ids: Seq<Seq<char>>,
    table: Seq<Seq<char>>,
    scores: Seq<u64>,
    limit: nat,
    order: Seq<int>,
) -> bool {
    &&& best_first(scores, order)
    &&& ids.len() == if limit < order.len() {
        limit
    } else {
        order.len()
    }
    &&& forall|i: int| 0 <= i < ids.len() ==> #[trigger] ids[i] == table[order[i]]
}

/// The best ids of a table, best first. A score is any number that orders the
/// entries as their summed reciprocal ranks do.
pub fn reciprocal_rank_fusion(table: &Vec<Ranked>, scores: &Vec<u64>, limit: usize) -> (ids: Vec<
    String,
>)
    requires
        scores@.len() == table@.len(),
    ensures
        exists|order: Seq<int>|
            is_fusion(texts(ids@), ranked_ids(table@), scores@, limit as nat, order),
{
    let order = descending_order(scores);
    let ghost view = positions(order@);
    let mut ids: Vec<String> = Vec::new();
    let mut i: usize = 0;
    while i < order.len() && i < limit
        invariant
            i <= order@.len(),
            i <= limit,
            view == positions(order@),
            best_first(scores@, view),
            scores@.len() == table@.len(),
            ids@.len() == i,
            forall|k: int| 0 <= k < i ==> (#[trigger] ids@[k])@ == ranked_ids(table@)[view[k]],
        decreases order@.len() - i,
    {
        assert(view[i as int] == order@[i as int]);
        ids.push(table[order[i]].id.clone());
        i = i + 1;
    }
    assert(is_fusion(texts(ids@), ranked_ids(table@), scores@, limit as nat, view));
    ids
}

/// Fusing never repeats an id.
pub proof fn fused_ids_are_distinct(
    ids: Seq<Seq<char>>,
    table: Seq<Seq<char>>,
    scores: Seq<u64>,
    limit: nat,
    order: Seq<int>,
)
    requires
        table.no_duplicates(),
        table.len() == scores.len(),
        is_fusion(ids, table, scores, limit, order),
    ensures
        ids.no_duplicates(),
{
    assert forall|i: int, j: int| 0 <= i < ids.len() && 0 <= j < ids.len() && i != j implies ids[i]
        != ids[j] by {
        if i < j {
            assert(beats(scores, order[i], order[j]));
        } else {
            assert(beats(scores, order[j], order[i]));
        }
        assert(table[order[i]] != table[order[j]]);
    }
}

/// The last of the first `n` records with an id.
pub open spec fn last_with(records: Seq<RecordView>, id: Seq<char>, n: int) -> Option<RecordView>
    decreases n,
{
    if n <= 0 {
        None
    } else if records[n - 1].id == Some(id) {
        Some(records[n - 1])
    } else {
        last_with(records, id, n - 1)
    }
}

/// The records named by the first `n` ids, in order, each id once; an id no
/// record has is passed over.
pub open spec fn picked(ids: Seq<Seq<char>>, records: Seq<RecordView>, n: int) -> Seq<RecordView>
    decreases n,
{
    if n <= 0 {
        Seq::empty()
    } else {
        let before = picked(ids, records, n - 1);
        match last_with(records, ids[n - 1], records.len() as int) {
            Some(record) => if ids.take(n - 1).contains(ids[n - 1]) {
                before
            } else {
                before.push(record)
            },
            None => before,
        }
    }
}

/// Finds [`last_with`].
pub fn find_last(records: &Vec<Record>, id: &str) -> (at: Option<usize>)
    ensures
        at matches Some(i) ==> i < records@.len() && last_with(
            records_view(records@),
            id@,
            records@.len() as int,
        ) == Some(records@[i as int]@),
        at is None ==> last_with(records_view(records@), id@, records@.len() as int) is None,
{
    let ghost all = records_view(records@);
    let mut n: usize = records.len();
    while n > 0
        invariant
            n <= records@.len(),
            all == records_view(records@),
            last_with(all, id@, records@.len() as int) == last_with(all, id@, n as int),
        decreases n,
    {
        assert(all[n - 1] == records@[n - 1]@);
        if let Some(own) = &records[n - 1].id {
            if same(own.as_str(), id) {
                return Some(n - 1);
            }
        }
        n = n - 1;
    }
    None
}

/// Looks up at most `limit` records by id, in the order of the ids.
pub fn pick_records(ids: &Vec<String>, records: &Vec<Record>, limit: usize) -> (out: Vec<Record>)
    ensures
        ({
            let all = picked(texts(ids@), records_view(records@), ids@.len() as int);
            records_view(out@) == if limit < all.len() {
                all.take(limit as int)
            } else {
                all
            }
        }),
{
    let ghost keys = texts(ids@);
    let ghost all = records_view(records@);
    let mut out: Vec<Record> = Vec::new();
    let mut seen: Vec<String> = Vec::new();
    let mut i: usize = 0;
    assert(records_view(out@) =~= picked(keys, all, 0));
    assert(texts(seen@) =~= keys.take(0));
    while i < ids.len() && out.len() < limit
        invariant
            i <= ids@.len(),
            keys == texts(ids@),
            all == records_view(records@),
            out@.len() <= limit,
            records_view(out@) == picked(keys, all, i as int),
            texts(seen@) == keys.take(i as int),
        decreases ids@.len() - i,
    {
        let ghost before = records_view(out@);
        let id: &String = &ids[i];
        if let Some(at) = find_last(records, id.as_str()) {
            if !contains_text(&seen, id.as_str()) {
                let record = records[at].copy();
                let ghost view = record@;
                out.push(record);
                assert(records_view(out@) =~= before.push(view));
            }
        }
        let ghost done = texts(seen@);
        seen.push(id.clone());
        assert(keys[i as int] == id@);
        assert(texts(seen@) =~= done.push(id@));
        assert(keys.take(i + 1) =~= keys.take(i as int).push(keys[i as int]));
        i = i + 1;
    }
    proof {
        let whole = picked(keys, all, ids@.len() as int);
        lemma_picked_grows(keys, all, i as int, ids@.len() as int);
        if i < ids@.len() {
            assert(records_view(out@).len() == out@.len());
            if limit < whole.len() {
                assert(records_view(out@) =~= whole.take(limit as int));
            } else {
                assert(records_view(out@) =~= whole);
            }
        } else {
            assert(records_view(out@).len() == out@.len());
            assert(records_view(out@) == whole);
        }
    }
    out
}

proof fn lemma_picked_grows(ids: Seq<Seq<char>>, records: Seq<RecordView>, i: int, n: int)
    requires
        0 <= i <= n,
    ensures
        picked(ids, records, i).len() <= picked(ids, records, n).len(),
        picked(ids, records, n).take(picked(ids, records, i).len() as int) == picked(
            ids,
            records,
            i,
        ),
    decreases n - i,
{
    let first = picked(ids, records, i);
    if i < n {
        lemma_picked_grows(ids, records, i, n - 1);
        let before = picked(ids, records, n - 1);
        assert(picked(ids, records, n).take(first.len() as int) =~= before.take(
            first.len() as int,
        ));
    } else {
        assert(first.take(first.len() as int) =~= first);
    }
}

/// The ids no record of a list has, each once, in order of first mention.
pub open spec fn absent(ids: Seq<Seq<char>>, records: Seq<RecordView>, n: int) -> Seq<Seq<char>>
    decreases n,
{
    if n <= 0 {
        Seq::empty()
    } else {
        let before = absent(ids, records, n - 1);
        if last_with(records, ids[n - 1], records.len() as int) is Some || before.contains(
            ids[n - 1],
        ) {
            before
        } else {
            before.push(ids[n - 1])
        }
    }
}

/// The semantic hits the lexical search did not return, which have to be
/// fetched.
pub fn missing_ids(ids: &Vec<String>, records: &Vec<Record>) -> (out: Vec<String>)
    ensures
        texts(out@) == absent(texts(ids@), records_view(records@), ids@.len() as int),
{
    let ghost keys = texts(ids@);
    let ghost all = records_view(records@);
    let mut out: Vec<String> = Vec::new();
    let mut i: usize = 0;
    assert(texts(out@) =~= Seq::empty());
    while i < ids.len()
        invariant
            i <= ids@.len(),
            keys == texts(ids@),
            all == records_view(records@),
            texts(out@) == absent(keys, all, i as int),
        decreases ids@.len() - i,
    {
        let ghost before = texts(out@);
        let known = match find_last(records, ids[i].as_str()) {
            Some(_) => true,
            None => false,
        };
        if !known && !contains_text(&out, ids[i].as_str()) {
            out.push(ids[i].clone());
            assert(texts(out@) =~= before.push(keys[i as int]));
        }
        i = i + 1;
    }
    out
}

/// One semantic hit. A higher key is a better score.
pub struct SemanticSearchHit {
    pub record_id: String,
    pub score_key: u64,
}

/// Whether one hit is listed before another: by score, then by id.
pub open spec fn hit_before(a: SemanticSearchHit, b: SemanticSearchHit) -> bool {
    a.score_key > b.score_key || (a.score_key == b.score_key && precedes(
        a.record_id@,
        b.record_id@,
    ))
}

fn is_hit_before(a: &SemanticSearchHit, b: &SemanticSearchHit) -> (yes: bool)
    ensures
        yes == hit_before(*a, *b),
{
    a.score_key > b.score_key || (a.score_key == b.score_key && text_less(
        a.record_id.as_str(),
        b.record_id.as_str(),
    ))
}

/// Whether an order lists every hit once, none before one that is listed
/// before it; of hits alike in both the earlier comes first.
pub open spec fn is_hit_order(hits: Seq<SemanticSearchHit>, order: Seq<int>) -> bool {
    &&& order.len() == hits.len()
    &&& forall|i: int| 0 <= i < order.len() ==> 0 <= #[trigger] order[i] < hits.len()
    &&& forall|i: int, j: int|
        0 <= i < j < order.len() ==> in_hit_order(hits, #[trigger] order[i], #[trigger] order[j])
}

/// Whether one position may stand before another in an order of hits.
pub open spec fn in_hit_order(hits: Seq<SemanticSearchHit>, a: int, b: int) -> bool {
    hit_before(hits[a], hits[b]) || (!hit_before(hits[b], hits[a]) && a < b)
}

/// The ids of hits in an order.
pub open spec fn hit_ids(hits: Seq<SemanticSearchHit>, order: Seq<int>) -> Seq<Seq<char>> {
    order.map_values(|p: int| hits[p].record_id@)
}

proof fn lemma_hit_order_trans(hits: Seq<SemanticSearchHit>, a: int, b: int, c: int)
    requires
        in_hit_order(hits, a, b),
        in_hit_order(hits, b, c),
    ensures
        in_hit_order(hits, a, c),
{
    let (x, y, z) = (hits[a].record_id@, hits[b].record_id@, hits[c].record_id@);
    lemma_precedes_total(x, y);
    lemma_precedes_total(y, z);
    lemma_precedes_total(x, z);
    if precedes(x, y) && precedes(y, z) {
        lemma_precedes_trans(x, y, z, 0);
    }
    if precedes(z, x) && precedes(x, y) {
        lemma_precedes_trans(z, x, y, 0);
    }
    if precedes(y, z) && precedes(z, x) {
        lemma_precedes_trans(y, z, x, 0);
    }
}

/// The ids of hits, best score first, then by id.
pub fn semantic_ids(hits: &Vec<SemanticSearchHit>) -> (ids: Vec<String>)
    ensures
        exists|order: Seq<int>|
            is_hit_order(hits@, order) && texts(ids@) == #[trigger] hit_ids(hits@, order),
{
    let mut order: Vec<usize> = Vec::new();
    let mut n: usize = 0;
    while n < hits.len()
        invariant
            n <= hits@.len(),
            order@.len() == n,
            forall|i: int| 0 <= i < order@.len() ==> #[trigger] order@[i] < n,
            forall|i: int, j: int|
                #![trigger order@[i], order@[j]]
                0 <= i < j < order@.len() ==> in_hit_order(
                    hits@,
                    order@[i] as int,
                    order@[j] as int,
                ),
        decreases hits@.len() - n,
    {
        let ghost before = order@;
        let mut at: usize = 0;
        while at < order.len() && !is_hit_before(&hits[n], &hits[order[at]])
            invariant
                at <= order@.len(),
                n < hits@.len(),
                order@ == before,
                forall|i: int| 0 <= i < order@.len() ==> #[trigger] order@[i] < n,
                forall|i: int|
                    0 <= i < at ==> in_hit_order(hits@, #[trigger] order@[i] as int, n as int),
            decreases order@.len() - at,
        {
            at = at + 1;
        }
        assert forall|i: int| at <= i < before.len() implies in_hit_order(
            hits@,
            n as int,
            #[trigger] before[i] as int,
        ) by {
            if i > at {
                assert(in_hit_order(hits@, before[at as int] as int, before[i] as int));
                lemma_hit_order_trans(hits@, n as int, before[at as int] as int, before[i] as int);
            }
        }
        order.insert(at, n);
        assert(order@ =~= before.insert(at as int, n));
        assert forall|i: int, j: int|
            #![trigger order@[i], order@[j]]
            0 <= i < j < order@.len() implies in_hit_order(
            hits@,
            order@[i] as int,
            order@[j] as int,
        ) by {
            let x = if i < at { i } else { i - 1 };
            let y = if j < at { j } else { j - 1 };
            if i != at {
                assert(order@[i] == before[x]);
            }
            if j != at {
                assert(order@[j] == before[y]);
            }
        }
        assert forall|i: int| 0 <= i < order@.len() implies #[trigger] order@[i] < n + 1 by {
            if i < at {
                assert(order@[i] == before[i]);
            } else if i > at {
                assert(order@[i] == before[i - 1]);
            }
        }
        n = n + 1;
    }
    let ghost view = positions(order@);
    let mut ids: Vec<String> = Vec::new();
    let mut k: usize = 0;
    while k < order.len()
        invariant
            k <= order@.len(),
            order@.len() == hits@.len(),
            forall|i: int| 0 <= i < order@.len() ==> #[trigger] order@[i] < hits@.len(),
            ids@.len() == k,
            forall|i: int|
                0 <= i < k ==> (#[trigger] ids@[i])@ == hits@[order@[i] as int].record_id@,
        decreases order@.len() - k,
    {
        ids.push(hits[order[k]].record_id.clone());
        k = k + 1;
    }
    proof {
        assert forall|i: int, j: int| 0 <= i < j < view.len() implies in_hit_order(
            hits@,
            #[trigger] view[i],
            #[trigger] view[j],
        ) by {
            assert(in_hit_order(hits@, order@[i] as int, order@[j] as int));
        }
        assert(is_hit_order(hits@, view));
        assert(texts(ids@) =~= hit_ids(hits@, view));
    }
    ids
}

/// The records among the first `n` whose ids are wanted.
pub open spec fn wanted(ids: Seq<Seq<char>>, records: Seq<RecordView>, n: int) -> Seq<RecordView>
    decreases n,
{
    if n <= 0 {
        Seq::empty()
    } else {
        let before = wanted(ids, records, n - 1);
        match records[n - 1].id {
            Some(id) => if ids.contains(id) {
                before.push(records[n - 1])
            } else {
                before
            },
            None => before,
        }
    }
}

/// What a hybrid search returns: the records the fused ids name, out of the
/// lexical hits and the records fetched for the semantic ones.
pub open spec fn hybrid_result(
    lexical: Seq<RecordView>,
    semantic: Seq<Seq<char>>,
    namespace_rows: Seq<RecordView>,
    fused: Seq<Seq<char>>,
) -> Seq<RecordView> {
    let missing = absent(semantic, lexical, semantic.len() as int);
    let all = lexical + wanted(missing, namespace_rows, namespace_rows.len() as int);
    picked(fused, all, fused.len() as int)
}

/// Looks up what a hybrid search returns.
pub fn hybrid_records(
    lexical: &Vec<Record>,
    semantic: &Vec<String>,
    namespace_rows: &Vec<Record>,
    fused: &Vec<String>,
) -> (out: Vec<Record>)
    ensures
        records_view(out@) == hybrid_result(
            records_view(lexical@),
            texts(semantic@),
            records_view(namespace_rows@),
            texts(fused@),
        ),
{
    let missing = missing_ids(semantic, lexical);
    assert(texts(semantic@).len() == semantic@.len());
    let ghost first = records_view(lexical@);
    let ghost rows = records_view(namespace_rows@);
    let ghost ids = texts(missing@);
    let mut all: Vec<Record> = Vec::new();
    let mut k: usize = 0;
    while k < lexical.len()
        invariant
            k <= lexical@.len(),
            all@.len() == k,
            forall|i: int| 0 <= i < k ==> (#[trigger] all@[i])@ == lexical@[i]@,
        decreases lexical@.len() - k,
    {
        all.push(lexical[k].copy());
        k = k + 1;
    }
    let mut i: usize = 0;
    assert(records_view(all@) =~= first + wanted(ids, rows, 0));
    while i < namespace_rows.len()
        invariant
            i <= namespace_rows@.len(),
            rows == records_view(namespace_rows@),
            ids == texts(missing@),
            records_view(all@) == first + wanted(ids, rows, i as int),
        decreases namespace_rows@.len() - i,
    {
        assert(rows[i as int] == namespace_rows@[i as int]@);
        let ghost before = records_view(all@);
        if let Some(id) = &namespace_rows[i].id {
            if contains_text(&missing, id.as_str()) {
                let row = namespace_rows[i].copy();
                all.push(row);
                assert(records_view(all@) =~= before.push(rows[i as int]));
            }
        }
        assert(records_view(all@) =~= first + wanted(ids, rows, i + 1));
        i = i + 1;
    }
    proof {
        assert(texts(fused@).len() == fused@.len());
        lemma_picked_within(texts(fused@), records_view(all@), fused@.len() as int);
    }
    let limit: usize = fused.len();
    pick_records(fused, &all, limit)
}

proof fn lemma_picked_within(ids: Seq<Seq<char>>, records: Seq<RecordView>, n: int)
    requires
        0 <= n,
    ensures
        picked(ids, records, n).len() <= n,
    decreases n,
{
    if n > 0 {
        lemma_picked_within(ids, records, n - 1);
    }
}

/// What a record is searched by: its body, then its metadata.
pub fn searchable_record_text(record: &Record) -> (out: String)
    ensures
        out@ == compact_text(record@.body) + " "@ + compact_text(
            Value::Object(record@.metadata),
        ),
{
    let mut out = record.body.to_text();
    out.push_str(" ");
    out.push_str(entries_to_text(&record.metadata).as_str());
    out
}

/// The 64-bit FNV-1a hash of some bytes.
pub open spec fn fnv1a(bytes: Seq<u8>) -> u64
    decreases bytes.len(),
{
    if bytes.len() == 0 {
        0xcbf29ce484222325u64
    } else {
        let mixed = fnv1a(bytes.drop_last()) ^ (bytes.last() as u64);
        ((mixed as nat * 0x100000001b3) % 0x1_0000_0000_0000_0000) as u64
    }
}

fn fnv1a64(bytes: &[u8]) -> (hash: u64)
    ensures
        hash == fnv1a(bytes@),
{
    let mut hash: u64 = 0xcbf29ce484222325u64;
    let mut i: usize = 0;
    assert(bytes@.take(0) =~= Seq::empty());
    while i < bytes.len()
        invariant
            i <= bytes@.len(),
            hash == fnv1a(bytes@.take(i as int)),
        decreases bytes@.len() - i,
    {
        assert(bytes@.take(i + 1).drop_last() =~= bytes@.take(i as int));
        hash = hash ^ (bytes[i] as u64);
        hash = hash.wrapping_mul(0x100000001b3u64);
        i = i + 1;
    }
    assert(bytes@.take(bytes@.len() as int) =~= bytes@);
    hash
}

/// A hash of a text that is the same in every process.
pub fn stable_hash_u64(input: &str) -> (hash: u64)
    ensures
        hash == fnv1a(encode_utf8(input@)),
{
    fnv1a64(input.as_bytes())
}

/// The hash of a word, ASCII case aside.
pub open spec fn word_hash(word: Seq<char>) -> u64 {
    fnv1a(encode_utf8(lowered(word)))
}

/// What the first `n` words add to a bucket: one for each even hash that falls
/// there, minus one for each odd one. Where it falls goes by as much of the
/// hash as the machine's word holds.
pub open spec fn bucket(words: Seq<Seq<char>>, dimensions: nat, at: int, n: int) -> int
    decreases n,
{
    if n <= 0 {
        0
    } else {
        bucket(words, dimensions, at, n - 1) + if (word_hash(words[n - 1]) as usize) as int
            % dimensions as int != at {
            0int
        } else if word_hash(words[n - 1]) % 2 == 0 {
            1int
        } else {
            -1int
        }
    }
}

/// The hashed bag of words of a text, before it is scaled to unit length.
pub fn embedding_counts(input: &str, dimensions: usize) -> (counts: Vec<i128>)
    ensures
        counts@.len() == if dimensions == 0 {
            1
        } else {
            dimensions as nat
        },
        forall|at: int|
            0 <= at < counts@.len() ==> #[trigger] counts@[at] == bucket(
                words(input@),
                counts@.len(),
                at,
                words(input@).len() as int,
            ),
{
    let dimensions: usize = if dimensions == 0 {
        1
    } else {
        dimensions
    };
    let mut counts: Vec<i128> = Vec::new();
    let mut k: usize = 0;
    while k < dimensions
        invariant
            k <= dimensions,
            counts@.len() == k,
            forall|at: int| 0 <= at < k ==> #[trigger] counts@[at] == 0,
        decreases dimensions - k,
    {
        counts.push(0);
        k = k + 1;
    }
    let tokens = words_of(input);
    let ghost all = words(input@);
    let mut n: usize = 0;
    while n < tokens.len()
        invariant
            n <= tokens@.len(),
            all == texts(tokens@),
            dimensions > 0,
            counts@.len() == dimensions,
            forall|at: int|
                0 <= at < counts@.len() ==> #[trigger] counts@[at] == bucket(
                    all,
                    dimensions as nat,
                    at,
                    n as int,
                ) && -n <= counts@[at] <= n,
        decreases tokens@.len() - n,
    {
        let lower = to_lower(tokens[n].as_str());
        let hash: u64 = stable_hash_u64(lower.as_str());
        assert(hash == word_hash(all[n as int]));
        let word: usize = #[verifier::truncate]
        (hash as usize);
        let index: usize = word % dimensions;
        let ghost before = counts@;
        let now: i128 = counts[index];
        if hash % 2 == 0 {
            counts.set(index, now + 1);
        } else {
            counts.set(index, now - 1);
        }
        assert forall|at: int| 0 <= at < counts@.len() implies #[trigger] counts@[at] == bucket(
            all,
            dimensions as nat,
            at,
            n + 1,
        ) && -(n + 1) <= counts@[at] <= n + 1 by {
            assert(before[at] == bucket(all, dimensions as nat, at, n as int));
        }
        n = n + 1;
    }
    counts
}

/// Whether a value is a number.
pub open spec fn is_number(value: Value) -> bool {
    value is Number || value is Real
}

/// The numbers among the first `n` values.
pub open spec fn numbers(items: Seq<Value>, n: int) -> Seq<Value>
    decreases n,
{
    if n <= 0 {
        Seq::empty()
    } else if is_number(items[n - 1]) {
        numbers(items, n - 1).push(items[n - 1])
    } else {
        numbers(items, n - 1)
    }
}

/// The embedding a record brings along: the numbers of the list under
/// `embedding` in its metadata, or else in its body. `None` when there is no
/// such list or it holds no number.
pub open spec fn supplied(record: RecordView) -> Option<Seq<Value>> {
    let found = match lookup(record.metadata, "embedding"@) {
        Some(value) => Some(value),
        None => member(record.body, "embedding"@),
    };
    match found {
        Some(Value::List(items)) => if numbers(items, items.len() as int).len() > 0 {
            Some(numbers(items, items.len() as int))
        } else {
            None
        },
        _ => None,
    }
}

/// The values of a list.
pub open spec fn values_view(items: Seq<Json>) -> Seq<Value> {
    items.map_values(|v: Json| v@)
}

/// Finds [`supplied`].
pub fn supplied_embedding(record: &Record) -> (out: Option<Vec<Json>>)
    ensures
        (match out {
            Some(items) => Some(values_view(items@)),
            None => None,
        }) == supplied(record@),
{
    let found = match find(&record.metadata, "embedding") {
        Some(value) => Some(value),
        None => record.body.get("embedding"),
    };
    let value = match found {
        Some(value) => value,
        None => {
            return None;
        },
    };
    match value {
        Json::List(items) => {
            let ghost all = value@->List_0;
            let mut out: Vec<Json> = Vec::new();
            let mut i: usize = 0;
            assert(values_view(out@) =~= Seq::empty());
            while i < items.len()
                invariant
                    i <= items@.len(),
                    all.len() == items@.len(),
                    forall|k: int| 0 <= k < items@.len() ==> #[trigger] all[k] == items@[k]@,
                    values_view(out@) == numbers(all, i as int),
                decreases items@.len() - i,
            {
                let ghost before = values_view(out@);
                assert(all[i as int] == items@[i as int]@);
                let number = match &items[i] {
                    Json::Unsigned(_) => true,
                    Json::Signed(_) => true,
                    Json::Real(_) => true,
                    _ => false,
                };
                if number {
                    let copied = items[i].copy();
                    out.push(copied);
                    assert(values_view(out@) =~= before.push(all[i as int]));
                }
                i = i + 1;
            }
            assert(values_view(out@).len() == out@.len());
            if out.len() > 0 {
                Some(out)
            } else {
                None
            }
        },
        _ => None,
    }
}

/// Of several records with an id the last one counts; an id no record has names
/// nothing.
pub proof fn the_last_record_of_an_id_counts(
    records: Seq<RecordView>,
    id: Seq<char>,
    n: int,
    k: int,
)
    requires
        0 <= n <= records.len(),
    ensures
        0 <= k < n && records[k].id == Some(id) && (forall|j: int|
            k < j < n ==> (#[trigger] records[j]).id != Some(id)) ==> last_with(records, id, n)
            == Some(records[k]),
        last_with(records, id, n) is None <==> forall|j: int|
            0 <= j < n ==> (#[trigger] records[j]).id != Some(id),
        last_with(records, id, n) matches Some(record) ==> record.id == Some(id),
    decreases n,
{
    if n > 0 && records[n - 1].id != Some(id) {
        the_last_record_of_an_id_counts(records, id, n - 1, k);
        if last_with(records, id, n) is None {
            assert forall|j: int| 0 <= j < n implies (#[trigger] records[j]).id != Some(id) by {}
        }
    } else if n > 0 {
        assert(!(records[n - 1].id != Some(id)));
    }
}

/// Every id that names a record brings it, at the place of its first mention,
/// and once.
pub proof fn every_named_record_is_picked(
    ids: Seq<Seq<char>>,
    records: Seq<RecordView>,
    n: int,
    i: int,
    k: int,
)
    requires
        0 <= i < n <= ids.len(),
        forall|j: int| 0 <= j < i ==> #[trigger] ids[j] != ids[i],
        0 <= k < records.len(),
        records[k].id == Some(ids[i]),
        forall|j: int| k < j < records.len() ==> (#[trigger] records[j]).id != Some(ids[i]),
    ensures
        ({
            let had = picked(ids, records, i).len() as int;
            had < picked(ids, records, n).len() && picked(ids, records, n)[had] == records[k]
        }),
{
    the_last_record_of_an_id_counts(records, ids[i], records.len() as int, k);
    assert(!ids.take(i).contains(ids[i])) by {
        if ids.take(i).contains(ids[i]) {
            let j = choose|j: int| 0 <= j < i && ids.take(i)[j] == ids[i];
            assert(ids[j] == ids[i]);
        }
    }
    let next = picked(ids, records, i + 1);
    assert(next == picked(ids, records, i).push(records[k]));
    lemma_picked_grows(ids, records, i + 1, n);
    let had = picked(ids, records, i).len() as int;
    assert(picked(ids, records, n).take(next.len() as int)[had] == next[had]);
}

/// Nothing is picked that no id names, and no id brings two records.
pub proof fn only_named_records_are_picked(
    ids: Seq<Seq<char>>,
    records: Seq<RecordView>,
    n: int,
    p: int,
)
    requires
        0 <= n <= ids.len(),
        0 <= p < picked(ids, records, n).len(),
    ensures
        exists|i: int| 0 <= i < n && picked(ids, records, n)[p].id == Some(#[trigger] ids[i]),
    decreases n,
{
    if n > 0 {
        let before = picked(ids, records, n - 1);
        if p < before.len() {
            only_named_records_are_picked(ids, records, n - 1, p);
            let i = choose|i: int| 0 <= i < n - 1 && before[p].id == Some(#[trigger] ids[i]);
            assert(picked(ids, records, n)[p].id == Some(ids[i]));
        } else {
            the_last_record_of_an_id_counts(records, ids[n - 1], records.len() as int, 0);
            assert(picked(ids, records, n)[p].id == Some(ids[n - 1]));
        }
    }
}

/// Missing are exactly the ids that no record has, each once.
pub proof fn missing_is_what_no_record_has(
    ids: Seq<Seq<char>>,
    records: Seq<RecordView>,
    n: int,
    id: Seq<char>,
)
    requires
        0 <= n <= ids.len(),
    ensures
        absent(ids, records, n).contains(id) <==> (exists|i: int|
            0 <= i < n && #[trigger] ids[i] == id) && (forall|j: int|
            0 <= j < records.len() ==> (#[trigger] records[j]).id != Some(id)),
        absent(ids, records, n).no_duplicates(),
    decreases n,
{
    if n > 0 {
        missing_is_what_no_record_has(ids, records, n - 1, id);
        the_last_record_of_an_id_counts(records, id, records.len() as int, 0);
        let before = absent(ids, records, n - 1);
        let after = absent(ids, records, n);
        let last = ids[n - 1];
        let taken = !(last_with(records, last, records.len() as int) is Some || before.contains(
            last,
        ));
        if taken {
            crate::lists::lemma_push_members(before, last);
            assert(after.contains(id) <==> after.to_set().contains(id));
            assert(before.contains(id) <==> before.to_set().contains(id));
        } else {
            assert(after == before);
        }
        if before.contains(id) {
            let i = choose|i: int| 0 <= i < n - 1 && #[trigger] ids[i] == id;
            assert(ids[i] == id);
        }
        if exists|i: int| 0 <= i < n && #[trigger] ids[i] == id {
            let i = choose|i: int| 0 <= i < n && #[trigger] ids[i] == id;
            if i < n - 1 {
                assert(ids[i] == id);
            }
        }
    }
}

/// The fetched records are those of the namespace with a wanted id, in order.
pub proof fn wanted_records_are_fetched(ids: Seq<Seq<char>>, records: Seq<RecordView>, n: int)
    requires
        0 <= n <= records.len(),
    ensures
        wanted(ids, records, n) == records.take(n).filter(
            |record: RecordView| record.id is Some && ids.contains(record.id->0),
        ),
    decreases n,
{
    reveal(Seq::filter);
    let wants = |record: RecordView| record.id is Some && ids.contains(record.id->0);
    if n > 0 {
        wanted_records_are_fetched(ids, records, n - 1);
        assert(records.take(n).drop_last() =~= records.take(n - 1));
        assert(records.take(n).last() == records[n - 1]);
    } else {
        assert(records.take(0) =~= Seq::empty());
    }
    assert(wanted(ids, records, n) =~= records.take(n).filter(wants));
}

/// A hybrid search returns every record its fused ids name, whether the words
/// found it or the vectors did.
pub proof fn a_hybrid_search_returns_what_was_fused(
    lexical: Seq<RecordView>,
    semantic: Seq<Seq<char>>,
    namespace_rows: Seq<RecordView>,
    fused: Seq<Seq<char>>,
    i: int,
    k: int,
)
    requires
        0 <= i < fused.len(),
        forall|j: int| 0 <= j < i ==> #[trigger] fused[j] != fused[i],
        (0 <= k < lexical.len() && lexical[k].id == Some(fused[i])) || (semantic.contains(
            fused[i],
        ) && 0 <= k < namespace_rows.len() && namespace_rows[k].id == Some(fused[i])),
    ensures
        exists|p: int|
            0 <= p < hybrid_result(lexical, semantic, namespace_rows, fused).len() && (
            #[trigger] hybrid_result(lexical, semantic, namespace_rows, fused)[p]).id == Some(
                fused[i],
            ),
{
    let id = fused[i];
    let missing = absent(semantic, lexical, semantic.len() as int);
    let fetched = wanted(missing, namespace_rows, namespace_rows.len() as int);
    let all = lexical + fetched;
    missing_is_what_no_record_has(semantic, lexical, semantic.len() as int, id);
    wanted_records_are_fetched(missing, namespace_rows, namespace_rows.len() as int);
    assert(namespace_rows.take(namespace_rows.len() as int) =~= namespace_rows);
    let known = exists|j: int| 0 <= j < lexical.len() && (#[trigger] lexical[j]).id == Some(id);
    if known {
        let j = choose|j: int| 0 <= j < lexical.len() && (#[trigger] lexical[j]).id == Some(id);
        assert(all[j].id == Some(id));
    } else {
        let s = choose|s: int| 0 <= s < semantic.len() && semantic[s] == id;
        assert(semantic[s] == id);
        assert(missing.contains(id));
        let wants = |record: RecordView| record.id is Some && missing.contains(record.id->0);
        assert(wants(namespace_rows[k]));
        namespace_rows.lemma_filter_contains(wants, k);
        let f = choose|f: int| 0 <= f < fetched.len() && fetched[f] == namespace_rows[k];
        assert(all[lexical.len() + f].id == Some(id));
    }
    the_last_record_of_an_id_counts(all, id, all.len() as int, 0);
    assert(last_with(all, id, all.len() as int) is Some);
    let last = lemma_last_place(all, id, all.len() as int);
    every_named_record_is_picked(fused, all, fused.len() as int, i, last);
    let p = picked(fused, all, i).len() as int;
    assert(hybrid_result(lexical, semantic, namespace_rows, fused)[p].id == Some(id));
}

proof fn lemma_last_place(records: Seq<RecordView>, id: Seq<char>, n: int) -> (k: int)
    requires
        0 <= n <= records.len(),
        last_with(records, id, n) is Some,
    ensures
        0 <= k < n,
        records[k].id == Some(id),
        forall|j: int| k < j < n ==> (#[trigger] records[j]).id != Some(id),
    decreases n,
{
    if records[n - 1].id == Some(id) {
        n - 1
    } else {
        lemma_last_place(records, id, n - 1)
    }
}

/// Every id of every ranking is met, at its place in it.
pub proof fn every_ranking_is_counted(lists: Seq<Seq<Seq<char>>>, n: int, l: int, i: int)
    requires
        0 <= l < n <= lists.len(),
        0 <= i < lists[l].len(),
    ensures
        met(lists, n).contains((lists[l][i], i as nat)),
    decreases n,
{
    let own = (lists[l][i], i as nat);
    let before = met(lists, n - 1);
    if l < n - 1 {
        every_ranking_is_counted(lists, n - 1, l, i);
        let k = choose|k: int| 0 <= k < before.len() && before[k] == own;
        assert(met(lists, n)[k] == own);
    } else {
        assert(met(lists, n)[before.len() + i] == own);
    }
}

/// Every id that was met is listed, once, with exactly the ranks it was met at.
pub proof fn every_id_keeps_its_ranks(all: Seq<Met>, id: Seq<char>)
    ensures
        first_met(all).contains(id) <==> exists|k: int|
            0 <= k < all.len() && (#[trigger] all[k]).0 == id,
        ranks_of(all, id) == all.filter(|m: Met| m.0 == id).map_values(|m: Met| m.1),
    decreases all.len(),
{
    reveal(Seq::filter);
    let own = |m: Met| m.0 == id;
    if all.len() > 0 {
        let shorter = all.drop_last();
        every_id_keeps_its_ranks(shorter, id);
        let before = first_met(shorter);
        let after = first_met(all);
        if !before.contains(all.last().0) {
            crate::lists::lemma_push_members(before, all.last().0);
            assert(after.contains(id) <==> after.to_set().contains(id));
            assert(before.contains(id) <==> before.to_set().contains(id));
        }
        if before.contains(id) {
            let k = choose|k: int| 0 <= k < shorter.len() && (#[trigger] shorter[k]).0 == id;
            assert(all[k].0 == id);
        }
        if exists|k: int| 0 <= k < all.len() && (#[trigger] all[k]).0 == id {
            let k = choose|k: int| 0 <= k < all.len() && (#[trigger] all[k]).0 == id;
            if k < shorter.len() {
                assert(shorter[k].0 == id);
            }
        }
        if after.contains(id) && !before.contains(id) {
            assert(all[all.len() - 1].0 == id);
        }
    }
    assert(ranks_of(all, id) =~= all.filter(own).map_values(|m: Met| m.1));
}

/// Fusion puts the better score first: an id that is left out, or comes later,
/// never scored higher.
pub proof fn the_best_scores_come_first(
    ids: Seq<Seq<char>>,
    table: Seq<Seq<char>>,
    scores: Seq<u64>,
    limit: nat,
    order: Seq<int>,
    i: int,
    j: int,
)
    requires
        is_fusion(ids, table, scores, limit, order),
        0 <= i < ids.len(),
        i < j < order.len(),
    ensures
        scores[order[i]] >= scores[order[j]],
        scores[order[i]] == scores[order[j]] ==> order[i] < order[j],
        ids[i] == table[order[i]],
        ids.len() <= limit,
        ids.len() == limit || ids.len() == table.len() || table.len() != scores.len(),
{
    assert(beats(scores, order[i], order[j]));
}

/// An embedding a record brings along is the numbers of its list: that of the
/// metadata first, and that of the body only where the metadata has none.
pub proof fn an_own_embedding_is_used(record: RecordView, items: Seq<Value>)
    ensures
        lookup(record.metadata, "embedding"@) == Some(Value::List(items)) || (lookup(
            record.metadata,
            "embedding"@,
        ) is None && member(record.body, "embedding"@) == Some(Value::List(items))) ==> {
            let own = items.filter(|v: Value| v is Number || v is Real);
            supplied(record) == if own.len() > 0 {
                Some(own)
            } else {
                None
            }
        },
        lookup(record.metadata, "embedding"@) is None && member(record.body, "embedding"@) is None
            ==> supplied(record) is None,
{
    lemma_numbers(items, items.len() as int);
    assert(items.take(items.len() as int) =~= items);
}

proof fn lemma_numbers(items: Seq<Value>, n: int)
    requires
        0 <= n <= items.len(),
    ensures
        numbers(items, n) == items.take(n).filter(|v: Value| v is Number || v is Real),
    decreases n,
{
    reveal(Seq::filter);
    let counts = |v: Value| v is Number || v is Real;
    if n > 0 {
        lemma_numbers(items, n - 1);
        assert(items.take(n).drop_last() =~= items.take(n - 1));
        assert(items.take(n).last() == items[n - 1]);
    } else {
        assert(items.take(0) =~= Seq::empty());
    }
    assert(numbers(items, n) =~= items.take(n).filter(counts));
}

/// A word falls into one bucket, whatever its case, and counts there for one
/// more or one less.
pub proof fn a_word_falls_into_one_bucket(
    words: Seq<Seq<char>>,
    dimensions: nat,
    at: int,
    other: int,
    n: int,
)
    requires
        0 <= n < words.len(),
        dimensions > 0,
        at != other,
    ensures
        bucket(words, dimensions, at, n + 1) - bucket(words, dimensions, at, n) == 0 || bucket(
            words,
            dimensions,
            other,
            n + 1,
        ) == bucket(words, dimensions, other, n),
        -1 <= bucket(words, dimensions, at, n + 1) - bucket(words, dimensions, at, n) <= 1,
        exists|own: int|
            0 <= own < dimensions && #[trigger] bucket(words, dimensions, own, n + 1) != bucket(
                words,
                dimensions,
                own,
                n,
            ),
        word_hash(words[n]) == word_hash(lowered(words[n])),
{
    let own = (word_hash(words[n]) as usize) as int % dimensions as int;
    assert(bucket(words, dimensions, own, n + 1) != bucket(words, dimensions, own, n));
    assert(lowered(lowered(words[n])) =~= lowered(words[n]));
}

/// The better hit comes first, and of equal ones the one whose id comes first.
pub proof fn the_better_hit_comes_first(
    hits: Seq<SemanticSearchHit>,
    order: Seq<int>,
    i: int,
    j: int,
)
    requires
        is_hit_order(hits, order),
        0 <= i < j < order.len(),
    ensures
        order.len() == hits.len(),
        hits[order[i]].score_key >= hits[order[j]].score_key,
        hits[order[i]].score_key == hits[order[j]].score_key ==> precedes(
            hits[order[i]].record_id@,
            hits[order[j]].record_id@,
        ) || hits[order[i]].record_id@ == hits[order[j]].record_id@,
        order[i] != order[j],
        hit_ids(hits, order)[i] == hits[order[i]].record_id@,
{
    let (a, b) = (order[i], order[j]);
    assert(in_hit_order(hits, a, b));
    lemma_precedes_total(hits[a].record_id@, hits[b].record_id@);
}

/// A table has every id that was met, once, in the order first met, with every
/// rank it was met at.
pub proof fn a_table_has_every_rank(
    table: Seq<Ranked>,
    all: Seq<Met>,
    id: Seq<char>,
    i: int,
    k: int,
)
    requires
        accounts_for(table, all),
    ensures
        0 <= i < table.len() && table[i].id@ == id ==> ranks_view(table[i].ranks@) == all.filter(
            |m: Met| m.0 == id,
        ).map_values(|m: Met| m.1),
        0 <= k < all.len() ==> exists|t: int|
            0 <= t < table.len() && (#[trigger] table[t]).id@ == all[k].0,
{
    if 0 <= i < table.len() && table[i].id@ == id {
        every_id_keeps_its_ranks(all, id);
        assert(ranks_view(table[i].ranks@) == ranks_of(all, table[i].id@));
    }
    if 0 <= k < all.len() {
        every_id_keeps_its_ranks(all, all[k].0);
        assert(all[k].0 == all[k].0);
        let t = choose|t: int| 0 <= t < first_met(all).len() && first_met(all)[t] == all[k].0;
        assert(ranked_ids(table)[t] == table[t].id@);
    }
}

/// A word whose hash is even adds one to the bucket it falls into, a word whose
/// hash is odd takes one away, and that bucket is what is left of the hash when
/// the dimensions are taken from it as often as they go.
pub proof fn a_word_counts_by_its_hash(
    words: Seq<Seq<char>>,
    dimensions: nat,
    at: int,
    n: int,
    times: int,
    half: int,
)
    requires
        0 <= n < words.len(),
        0 <= at < dimensions,
        (word_hash(words[n]) as usize) as int == times * dimensions + at,
    ensures
        word_hash(words[n]) == 2 * half ==> bucket(words, dimensions, at, n + 1) == bucket(
            words,
            dimensions,
            at,
            n,
        ) + 1,
        word_hash(words[n]) == 2 * half + 1 ==> bucket(words, dimensions, at, n + 1) == bucket(
            words,
            dimensions,
            at,
            n,
        ) - 1,
{
    vstd::arithmetic::div_mod::lemma_fundamental_div_mod_converse(
        (word_hash(words[n]) as usize) as int,
        dimensions as int,
        times,
        at,
    );
}

} // verus!
