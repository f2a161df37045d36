//! Positions put in the order of their scores.

use vstd::prelude::*;

verus! {

/// Whether one entry is ranked before another: by score, and of equal scores
/// the one met first.
pub open spec fn beats(scores: Seq<u64>, a: int, b: int) -> bool {
    scores[a] > scores[b] || (scores[a] == scores[b] && a < b)
}

/// Whether an order lists every entry once, best first.
pub open spec fn best_first(scores: Seq<u64>, order: Seq<int>) -> bool {
    &&& order.len() == scores.len()
    &&& forall|i: int| 0 <= i < order.len() ==> 0 <= #[trigger] order[i] < scores.len()
    &&& forall|i: int, j: int|
        0 <= i < j < order.len() ==> beats(scores, #[trigger] order[i], #[trigger] order[j])
}

/// The view of positions.
pub open spec fn positions(list: Seq<usize>) -> Seq<int> {
    list.map_values(|p: usize| p as int)
}

/// There is only one order best first.
pub proof fn best_first_is_unique(scores: Seq<u64>, a: Seq<int>, b: Seq<int>)
    requires
        best_first(scores, a),
        best_first(scores, b),
    ensures
        a == b,
{
    lemma_covers(scores, a);
    lemma_covers(scores, b);
    assert forall|n: int| 0 <= n <= a.len() implies #[trigger] a.take(n) == b.take(n) by {
        lemma_same_prefix(scores, a, b, n);
    }
    assert(a.take(a.len() as int) =~= a);
    assert(b.take(a.len() as int) =~= b);
}

/// An order best first holds every position.
proof fn lemma_covers(scores: Seq<u64>, order: Seq<int>)
    requires
        best_first(scores, order),
    ensures
        forall|p: int| 0 <= p < scores.len() ==> #[trigger] order.contains(p),
{
    let all = Set::<int>::range(0, scores.len() as int);
    assert(order.no_duplicates()) by {
        assert forall|i: int, j: int|
            0 <= i < order.len() && 0 <= j < order.len() && i != j implies order[i] != order[j] by {
            if i < j {
                assert(beats(scores, order[i], order[j]));
            } else {
                assert(beats(scores, order[j], order[i]));
            }
        }
    }
    order.unique_seq_to_set();
    vstd::set_lib::range_set_properties::<int>(0, scores.len() as int);
    assert(order.to_set().subset_of(all)) by {
        assert forall|p: int| order.to_set().contains(p) implies all.contains(p) by {
            let i = choose|i: int| 0 <= i < order.len() && order[i] == p;
            assert(0 <= order[i] < scores.len());
        }
    }
    vstd::set_lib::lemma_subset_equality(order.to_set(), all);
    assert forall|p: int| 0 <= p < scores.len() implies #[trigger] order.contains(p) by {
        assert(all.contains(p));
        assert(order.to_set().contains(p));
    }
}

proof fn lemma_same_prefix(scores: Seq<u64>, a: Seq<int>, b: Seq<int>, n: int)
    requires
        best_first(scores, a),
        best_first(scores, b),
        forall|p: int| 0 <= p < scores.len() ==> #[trigger] a.contains(p),
        forall|p: int| 0 <= p < scores.len() ==> #[trigger] b.contains(p),
        0 <= n <= a.len(),
    ensures
        a.take(n) == b.take(n),
    decreases n,
{
    if n > 0 {
        lemma_same_prefix(scores, a, b, n - 1);
        let (x, y) = (a[n - 1], b[n - 1]);
        assert(0 <= a[n - 1] < scores.len());
        assert(0 <= b[n - 1] < scores.len());
        if x != y {
            assert(b.contains(x));
            let i = choose|i: int| 0 <= i < b.len() && b[i] == x;
            if i < n - 1 {
                assert(a.take(n - 1)[i] == b.take(n - 1)[i]);
                assert(beats(scores, a[i], a[n - 1]));
            }
            assert(beats(scores, b[n - 1], b[i]));
            assert(a.contains(y));
            let j = choose|j: int| 0 <= j < a.len() && a[j] == y;
            if j < n - 1 {
                assert(a.take(n - 1)[j] == b.take(n - 1)[j]);
                assert(beats(scores, b[j], b[n - 1]));
            }
            assert(beats(scores, a[n - 1], a[j]));
        }
        assert(a.take(n) =~= a.take(n - 1).push(x));
        assert(b.take(n) =~= b.take(n - 1).push(y));
    } else {
        assert(a.take(0) =~= b.take(0));
    }
}

/// The positions of some scores, best first.
pub fn descending_order(scores: &Vec<u64>) -> (order: Vec<usize>)
    ensures
        best_first(scores@, positions(order@)),
{
    let mut order: Vec<usize> = Vec::new();
    let mut n: usize = 0;
    while n < scores.len()
        invariant
            n <= scores@.len(),
            order@.len() == n,
            forall|i: int| 0 <= i < order@.len() ==> #[trigger] order@[i] < n,
            forall|i: int, j: int|
                #![trigger order@[i], order@[j]]
                0 <= i < j < order@.len() ==> beats(scores@, order@[i] as int, order@[j] as int),
        decreases scores@.len() - n,
    {
        let ghost before = order@;
        let mut at: usize = 0;
        while at < order.len() && scores[order[at]] >= scores[n]
            invariant
                at <= order@.len(),
                n < scores@.len(),
                order@ == before,
                forall|i: int| 0 <= i < order@.len() ==> #[trigger] order@[i] < n,
                forall|i: int|
                    0 <= i < at ==> beats(scores@, #[trigger] order@[i] as int, n as int),
            decreases order@.len() - at,
        {
            at = at + 1;
        }
        assert forall|i: int| at <= i < before.len() implies beats(
            scores@,
            n as int,
            #[trigger] before[i] as int,
        ) by {
            if i > at {
                assert(beats(scores@, before[at as int] as int, before[i] as int));
            }
        }
        order.insert(at, n);
        assert(order@ =~= before.insert(at as int, n));
        assert forall|i: int, j: int|
            #![trigger order@[i], order@[j]]
            0 <= i < j < order@.len() implies beats(
            scores@,
            order@[i] as int,
            order@[j] as int,
        ) by {
            let x = if i < at { i } else { i - 1 };
            let y = if j < at { j } else { j - 1 };
            if i != at {
                assert(order@[i] == before[x]);
            }
            if j != at {
                assert(order@[j] == before[y]);
            }
        }
        assert forall|i: int| 0 <= i < order@.len() implies #[trigger] order@[i] < n + 1 by {
            if i < at {
                assert(order@[i] == before[i]);
            } else if i > at {
                assert(order@[i] == before[i - 1]);
            }
        }
        n = n + 1;
    }
    assert forall|i: int, j: int|
        0 <= i < j < positions(order@).len() implies beats(
        scores@,
        #[trigger] positions(order@)[i],
        #[trigger] positions(order@)[j],
    ) by {
        assert(beats(scores@, order@[i] as int, order@[j] as int));
    }
    order
}

/// Every entry is ranked, once, by its score: a higher score comes first, and of
/// equal scores the one met first.
pub proof fn every_entry_is_ranked_by_its_score(scores: Seq<u64>, order: Seq<int>, i: int, j: int)
    requires
        best_first(scores, order),
    ensures
        order.len() == scores.len(),
        forall|p: int| 0 <= p < scores.len() ==> #[trigger] order.contains(p),
        0 <= i < j < order.len() ==> scores[order[i]] >= scores[order[j]] && order[i] != order[j],
        0 <= i < j < order.len() && scores[order[i]] == scores[order[j]] ==> order[i] < order[j],
{
    lemma_covers(scores, order);
    if 0 <= i < j < order.len() {
        assert(beats(scores, order[i], order[j]));
    }
}

} // verus!
