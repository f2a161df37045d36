//! Folding the session log into the items the model sees.
//!
//! The log is append-only. A checkpoint is an ordinary item whose metadata
//! names an inclusive range of earlier positions; the view hides that range
//! and nothing is ever rewritten.

use crate::json::{
    entries_view, find, lookup, member, the_first_entry_counts, unsigned, Json, Value,
};
use crate::message::{Item, ItemView, Message, Transcript};
use vstd::prelude::*;

verus! {

/// Item-metadata key marking a checkpoint. The value is
/// `{"start": <n>, "end": <n>}`: the inclusive position range the item
/// summarizes and therefore hides.
pub const TRANSCRIPT_SHADOW_KEY: &'static str = "agentos.transcript_shadow";

/// The range an item claims to replace, when its metadata names one that fits
/// a position.
pub open spec fn claimed_range(item: ItemView) -> Option<(int, int)> {
    match lookup(item.metadata, TRANSCRIPT_SHADOW_KEY@) {
        Some(value) => match (member(value, "start"@), member(value, "end"@)) {
            (Some(start), Some(end)) => match (unsigned(start), unsigned(end)) {
                (Some(s), Some(e)) => if s <= usize::MAX && e <= usize::MAX {
                    Some((s as int, e as int))
                } else {
                    None
                },
                _ => None,
            },
            _ => None,
        },
        None => None,
    }
}

/// Whether the item at `by` is a checkpoint whose well-formed range covers
/// `position`: not reversed, and wholly before the checkpoint itself.
pub open spec fn hides(log: Seq<ItemView>, by: int, position: int) -> bool {
    &&& 0 <= by < log.len()
    &&& claimed_range(log[by]) matches Some((start, end)) && start <= position <= end && end < by
}

/// Whether some checkpoint of the log hides `position`. Every checkpoint
/// counts, a hidden one too.
pub open spec fn is_hidden(log: Seq<ItemView>, position: int) -> bool {
    exists|by: int| hides(log, by, position)
}

/// The positions below `upto` that nothing hides, in order.
pub open spec fn visible_below(log: Seq<ItemView>, upto: int) -> Seq<int>
    decreases upto,
{
    if upto <= 0 {
        Seq::empty()
    } else if is_hidden(log, upto - 1) {
        visible_below(log, upto - 1)
    } else {
        visible_below(log, upto - 1).push(upto - 1)
    }
}

/// The positions the model sees, in transcript order.
pub open spec fn visible_of(log: Seq<ItemView>) -> Seq<int> {
    visible_below(log, log.len() as int)
}

fn shadow_range(item: &Item) -> (range: Option<(usize, usize)>)
    ensures
        range matches Some((start, end)) ==> claimed_range(item@) == Some((start as int, end as int)),
        range is None ==> claimed_range(item@) is None,
{
    let value = match find(&item.metadata, TRANSCRIPT_SHADOW_KEY) {
        Some(value) => value,
        None => {
            return None;
        },
    };
    let start = match value.get("start") {
        Some(number) => number.as_unsigned(),
        None => None,
    };
    let end = match value.get("end") {
        Some(number) => number.as_unsigned(),
        None => None,
    };
    match (start, end) {
        (Some(s), Some(e)) => {
            if s <= usize::MAX as u64 && e <= usize::MAX as u64 {
                Some((s as usize, e as usize))
            } else {
                None
            }
        },
        _ => None,
    }
}

/// The metadata value naming the inclusive range `start..=end`.
pub open spec fn range_value(start: int, end: int) -> Value {
    Value::Object(seq![("end"@, Value::Number(end)), ("start"@, Value::Number(start))])
}

/// Builds a checkpoint: a summary message and the inclusive range of earlier
/// positions it replaces in the model's view.
pub fn checkpoint(summary: Message, start: usize, end: usize) -> (item: Item)
    ensures
        item@.message == summary@,
        item@.metadata == seq![(TRANSCRIPT_SHADOW_KEY@, range_value(start as int, end as int))],
        claimed_range(item@) == Some((start as int, end as int)),
{
    let mut range: Vec<(String, Json)> = Vec::new();
    range.push(("end".to_owned(), Json::Unsigned(end as u64)));
    range.push(("start".to_owned(), Json::Unsigned(start as u64)));
    let mut metadata: Vec<(String, Json)> = Vec::new();
    let ghost pairs = entries_view(range@);
    let value = Json::Object(range);
    metadata.push((TRANSCRIPT_SHADOW_KEY.to_owned(), value));
    let item = Item { message: summary, metadata };
    proof {
        reveal_strlit("start");
        reveal_strlit("end");
        assert(value@->Object_0 =~= pairs);
        assert(range_value(start as int, end as int)->Object_0 =~= pairs);
        assert(item@.metadata =~= seq![
            (TRANSCRIPT_SHADOW_KEY@, range_value(start as int, end as int)),
        ]);
        assert("end"@.len() != "start"@.len());
        assert(pairs[0].0 == "end"@ && pairs[1].0 == "start"@);
        assert(pairs.drop_first()[0] == pairs[1]);
        assert(item@.metadata[0].0 == TRANSCRIPT_SHADOW_KEY@);
        assert(lookup(pairs, "end"@) == Some(Value::Number(end as int)));
        assert(lookup(pairs.drop_first(), "start"@) == Some(pairs[1].1));
        assert(lookup(pairs, "start"@) == Some(Value::Number(start as int)));
    }
    item
}

/// Whether an item carries the checkpoint mark.
pub fn is_checkpoint(item: &Item) -> (yes: bool)
    ensures
        yes == (lookup(item@.metadata, TRANSCRIPT_SHADOW_KEY@) is Some),
{
    find(&item.metadata, TRANSCRIPT_SHADOW_KEY).is_some()
}

/// The positions [`visible`] keeps, in transcript order.
pub fn visible_positions(transcript: &Transcript) -> (out: Vec<usize>)
    ensures
        out@.map_values(|p: usize| p as int) == visible_of(transcript@),
{
    let ghost log = transcript@;
    let len: usize = transcript.items.len();
    let mut shadowed: Vec<bool> = Vec::new();
    let mut i: usize = 0;
    while i < len
        invariant
            i <= len,
            shadowed@.len() == i,
            forall|k: int| 0 <= k < i ==> !#[trigger] shadowed@[k],
        decreases len - i,
    {
        shadowed.push(false);
        i = i + 1;
    }
    let mut position: usize = 0;
    while position < len
        invariant
            position <= len,
            len == transcript.items@.len(),
            log == transcript@,
            shadowed@.len() == len,
            forall|k: int|
                0 <= k < len ==> (#[trigger] shadowed@[k] <==> exists|by: int|
                    by < position && hides(log, by, k)),
        decreases len - position,
    {
        let range = shadow_range(&transcript.items[position]);
        assert(log[position as int] == transcript.items@[position as int]@);
        if let Some((start, end)) = range {
            if start <= end && end < position {
                let ghost before = shadowed@;
                let mut k: usize = start;
                while k <= end
                    invariant
                        start <= k <= end + 1,
                        end < position < len,
                        shadowed@.len() == len,
                        before.len() == len,
                        forall|m: int|
                            0 <= m < len ==> (#[trigger] shadowed@[m] <==> before[m] || start <= m
                                < k),
                    decreases end + 1 - k,
                {
                    shadowed.set(k, true);
                    k = k + 1;
                }
                assert forall|m: int| 0 <= m < len implies (#[trigger] shadowed@[m] <==> exists|
                    by: int,
                | by < position + 1 && hides(log, by, m)) by {
                    if start <= m <= end {
                        assert(hides(log, position as int, m));
                    }
                    if shadowed@[m] && before[m] {
                        let by = choose|by: int| by < position && hides(log, by, m);
                        assert(hides(log, by, m));
                    }
                    if exists|by: int| by < position + 1 && hides(log, by, m) {
                        let by = choose|by: int| by < position + 1 && hides(log, by, m);
                        if by < position {
                            assert(before[m]);
                        }
                    }
                }
            } else {
                assert forall|m: int| 0 <= m < len implies !hides(log, position as int, m) by {}
            }
        }
        assert forall|m: int| 0 <= m < len implies (#[trigger] shadowed@[m] <==> exists|by: int|
            by < position + 1 && hides(log, by, m)) by {
            if exists|by: int| by < position && hides(log, by, m) {
                let by = choose|by: int| by < position && hides(log, by, m);
                assert(by < position + 1 && hides(log, by, m));
            }
        }
        position = position + 1;
    }
    let mut out: Vec<usize> = Vec::new();
    let mut p: usize = 0;
    while p < len
        invariant
            p <= len,
            len == log.len(),
            shadowed@.len() == len,
            forall|k: int|
                0 <= k < len ==> (#[trigger] shadowed@[k] <==> exists|by: int|
                    by < len && hides(log, by, k)),
            out@.map_values(|x: usize| x as int) == visible_below(log, p as int),
        decreases len - p,
    {
        let ghost before = out@;
        assert(shadowed@[p as int] <==> is_hidden(log, p as int)) by {
            if is_hidden(log, p as int) {
                let by = choose|by: int| hides(log, by, p as int);
                assert(by < len && hides(log, by, p as int));
            }
        }
        if !shadowed[p] {
            out.push(p);
            assert(out@.map_values(|x: usize| x as int) =~= before.map_values(|x: usize| x as int).push(
                p as int,
            ));
        }
        p = p + 1;
    }
    out
}

/// The items the model sees, in transcript order.
pub fn visible(transcript: &Transcript) -> (out: Vec<&Item>)
    ensures
        out@.map_values(|i: &Item| i@) == visible_of(transcript@).map_values(
            |p: int| transcript@[p],
        ),
{
    let positions = visible_positions(transcript);
    proof {
        lemma_visible_below(transcript@, transcript@.len() as int);
    }
    let ghost seen = visible_of(transcript@);
    let mut out: Vec<&Item> = Vec::new();
    let mut i: usize = 0;
    while i < positions.len()
        invariant
            i <= positions@.len(),
            positions@.map_values(|p: usize| p as int) == seen,
            forall|k: int| 0 <= k < seen.len() ==> 0 <= #[trigger] seen[k] < transcript@.len(),
            out@.len() == i,
            forall|k: int| 0 <= k < i ==> (#[trigger] out@[k])@ == transcript@[seen[k]],
        decreases positions@.len() - i,
    {
        assert(seen[i as int] == positions@[i as int]);
        out.push(&transcript.items[positions[i]]);
        i = i + 1;
    }
    assert(positions@.len() == seen.len());
    assert(out@.map_values(|i: &Item| i@) =~= seen.map_values(|p: int| transcript@[p]));
    out
}

/// The visible positions are exactly those nothing hides, each once, in
/// increasing order.
pub proof fn lemma_visible_below(log: Seq<ItemView>, upto: int)
    requires
        0 <= upto <= log.len(),
    ensures
        visible_below(log, upto).len() <= upto,
        forall|k: int|
            0 <= k < visible_below(log, upto).len() ==> 0 <= #[trigger] visible_below(log, upto)[k]
                < upto && !is_hidden(log, visible_below(log, upto)[k]),
        forall|j: int, k: int|
            0 <= j < k < visible_below(log, upto).len() ==> #[trigger] visible_below(log, upto)[j]
                < #[trigger] visible_below(log, upto)[k],
        forall|p: int|
            0 <= p < upto && !#[trigger] is_hidden(log, p) ==> visible_below(log, upto).contains(p),
    decreases upto,
{
    if upto > 0 {
        lemma_visible_below(log, upto - 1);
        let shorter = visible_below(log, upto - 1);
        let seen = visible_below(log, upto);
        assert forall|p: int| 0 <= p < upto && !#[trigger] is_hidden(log, p) implies seen.contains(
            p,
        ) by {
            if p == upto - 1 {
                assert(seen[seen.len() - 1] == p);
            } else {
                let k = choose|k: int| 0 <= k < shorter.len() && shorter[k] == p;
                assert(seen[k] == p);
            }
        }
    }
}

/// A log without a well-formed checkpoint is shown whole.
pub proof fn view_is_identity_without_checkpoints(log: Seq<ItemView>)
    requires
        forall|by: int| 0 <= by < log.len() ==> claimed_range(#[trigger] log[by]) is None,
    ensures
        visible_of(log) == Seq::new(log.len(), |i: int| i),
{
    lemma_identity_below(log, log.len() as int);
}

proof fn lemma_identity_below(log: Seq<ItemView>, upto: int)
    requires
        0 <= upto <= log.len(),
        forall|by: int| 0 <= by < log.len() ==> claimed_range(#[trigger] log[by]) is None,
    ensures
        visible_below(log, upto) == Seq::new(upto as nat, |i: int| i),
    decreases upto,
{
    if upto > 0 {
        lemma_identity_below(log, upto - 1);
        assert(!is_hidden(log, upto - 1));
        assert(visible_below(log, upto) =~= Seq::new(upto as nat, |i: int| i));
    } else {
        assert(visible_below(log, upto) =~= Seq::new(upto as nat, |i: int| i));
    }
}

/// The view keeps order and never grows: its positions increase strictly and
/// are at most as many as the log has items.
pub proof fn view_keeps_order_and_never_grows(log: Seq<ItemView>)
    ensures
        visible_of(log).len() <= log.len(),
        forall|j: int, k: int|
            0 <= j < k < visible_of(log).len() ==> #[trigger] visible_of(log)[j]
                < #[trigger] visible_of(log)[k],
{
    lemma_visible_below(log, log.len() as int);
}

/// The newest item is always visible: a checkpoint hides neither itself nor
/// anything after it.
pub proof fn newest_item_is_visible(log: Seq<ItemView>)
    requires
        log.len() > 0,
    ensures
        visible_of(log).len() > 0,
        visible_of(log).last() == log.len() - 1,
{
    assert(!is_hidden(log, log.len() - 1));
}

/// Appending to the log never brings back what is hidden: a later view shows,
/// of the old positions, only some that were shown before.
pub proof fn hiding_is_monotonic(log: Seq<ItemView>, more: Seq<ItemView>, position: int)
    requires
        0 <= position < log.len(),
        is_hidden(log, position),
    ensures
        is_hidden(log + more, position),
{
    let by = choose|by: int| hides(log, by, position);
    assert((log + more)[by] == log[by]);
    assert(hides(log + more, by, position));
}

/// Appending a checkpoint for `start..=end` hides exactly that range more, and
/// shows the checkpoint itself.
pub proof fn checkpoint_hides_its_range(log: Seq<ItemView>, mark: ItemView, start: int, end: int)
    requires
        0 <= start <= end < log.len(),
        claimed_range(mark) == Some((start, end)),
    ensures
        forall|p: int|
            0 <= p < log.len() ==> (#[trigger] is_hidden(log.push(mark), p) <==> is_hidden(log, p)
                || start <= p <= end),
        !is_hidden(log.push(mark), log.len() as int),
{
    let longer = log.push(mark);
    assert forall|p: int| 0 <= p < log.len() implies (#[trigger] is_hidden(longer, p)
        <==> is_hidden(log, p) || start <= p <= end) by {
        if is_hidden(log, p) {
            let by = choose|by: int| hides(log, by, p);
            assert(longer[by] == log[by]);
            assert(hides(longer, by, p));
        }
        if start <= p <= end {
            assert(longer[log.len() as int] == mark);
            assert(hides(longer, log.len() as int, p));
        }
        if is_hidden(longer, p) {
            let by = choose|by: int| hides(longer, by, p);
            if by < log.len() {
                assert(longer[by] == log[by]);
                assert(hides(log, by, p));
            }
        }
    }
}

/// The model sees every item but those a later checkpoint stands for: a
/// position is shown exactly when no item after it claims a range that ends
/// before that item and holds the position.
pub proof fn everything_unsummarized_is_shown(log: Seq<ItemView>, position: int)
    ensures
        visible_of(log).contains(position) <==> 0 <= position < log.len() && forall|by: int|
            0 <= by < log.len() ==> !(claimed_range(#[trigger] log[by]) matches Some((start, end))
                && start <= position && position <= end && end < by),
{
    let n = log.len() as int;
    lemma_visible_below(log, n);
    let seen = visible_below(log, n);
    if seen.contains(position) {
        let k = choose|k: int| 0 <= k < seen.len() && seen[k] == position;
        assert(0 <= seen[k] < n && !is_hidden(log, seen[k]));
        assert forall|by: int| 0 <= by < log.len() implies !(claimed_range(
            #[trigger] log[by],
        ) matches Some((start, end)) && start <= position && position <= end && end < by) by {
            assert(!hides(log, by, position));
        }
    }
    if 0 <= position < log.len() && forall|by: int|
        0 <= by < log.len() ==> !(claimed_range(#[trigger] log[by]) matches Some((start, end))
            && start <= position && position <= end && end < by) {
        if is_hidden(log, position) {
            let by = choose|by: int| hides(log, by, position);
            assert(claimed_range(log[by]) is Some);
        }
        assert(!is_hidden(log, position));
    }
}

/// An item is a checkpoint for the range its metadata names, and for none when
/// it names none.
pub proof fn a_checkpoint_names_its_range(item: ItemView, mark: Value, start: int, end: int)
    requires
        0 <= start <= usize::MAX,
        0 <= end <= usize::MAX,
    ensures
        lookup(item.metadata, "agentos.transcript_shadow"@) == Some(mark) && member(
            mark,
            "start"@,
        ) == Some(Value::Number(start)) && member(mark, "end"@) == Some(Value::Number(end))
            ==> claimed_range(item) == Some((start, end)),
        lookup(item.metadata, "agentos.transcript_shadow"@) is None ==> claimed_range(item) is None,
        lookup(item.metadata, "agentos.transcript_shadow"@) == Some(mark) && (member(
            mark,
            "start"@,
        ) is None || member(mark, "end"@) is None) ==> claimed_range(item) is None,
{
}

/// What a checkpoint writes of its range is read back as that range.
pub proof fn a_written_range_is_read_back(item: ItemView, start: int, end: int)
    requires
        0 <= start <= usize::MAX,
        0 <= end <= usize::MAX,
        lookup(item.metadata, "agentos.transcript_shadow"@) == Some(range_value(start, end)),
    ensures
        claimed_range(item) == Some((start, end)),
{
    reveal_strlit("start");
    reveal_strlit("end");
    assert("start"@.len() == 5 && "end"@.len() == 3);
    let entries = range_value(start, end)->Object_0;
    the_first_entry_counts(entries, "start"@);
    the_first_entry_counts(entries, "end"@);
    assert(entries.len() == 2);
    assert(member(range_value(start, end), "start"@) == Some(Value::Number(start))) by {
        if entries[0].0 == "start"@ {
        } else {
            assert(entries[1].0 == "start"@);
        }
    }
    assert(member(range_value(start, end), "end"@) == Some(Value::Number(end))) by {
        if entries[0].0 == "end"@ {
        } else {
            assert(entries[1].0 == "end"@);
        }
    }
}

} // verus!
