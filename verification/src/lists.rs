//! Lists of strings: membership, the order of text, sorted insertion,
//! splitting and joining.

use crate::text::{
    alphanumeric, ascii_alnum_char, chars_of, is_ascii_alnum, is_space, same, space_char, string_of,
    texts,
};
use vstd::prelude::*;

verus! {

/// Whether `list` holds a string with the characters of `text`.
pub fn contains_text(list: &Vec<String>, text: &str) -> (found: bool)
    ensures
        found == texts(list@).contains(text@),
{
    let mut i: usize = 0;
    while i < list.len()
        invariant
            i <= list@.len(),
            forall|k: int| 0 <= k < i ==> list@[k]@ != text@,
        decreases list@.len() - i,
    {
        if same(list[i].as_str(), text) {
            assert(texts(list@)[i as int] == text@);
            return true;
        }
        i = i + 1;
    }
    assert forall|k: int| 0 <= k < texts(list@).len() implies texts(list@)[k] != text@ by {
        assert(texts(list@)[k] == list@[k]@);
    }
    false
}

/// Copies a list of strings.
pub fn copy_texts(list: &Vec<String>) -> (out: Vec<String>)
    ensures
        out@ == list@,
{
    let mut out: Vec<String> = Vec::new();
    let mut i: usize = 0;
    while i < list.len()
        invariant
            i <= list@.len(),
            out@ == list@.take(i as int),
        decreases list@.len() - i,
    {
        out.push(list[i].clone());
        assert(list@.take(i + 1) =~= list@.take(i as int).push(list@[i as int]));
        i = i + 1;
    }
    assert(list@.take(list@.len() as int) =~= list@);
    out
}

/// Text order from position `i` on, where the two agree before it: by code
/// point, and a proper prefix first.
pub open spec fn precedes_from(a: Seq<char>, b: Seq<char>, i: int) -> bool
    decreases b.len() - i,
{
    if i < 0 || i >= b.len() {
        false
    } else if i >= a.len() {
        true
    } else if a[i] == b[i] {
        precedes_from(a, b, i + 1)
    } else {
        a[i] < b[i]
    }
}

/// Whether `a` comes strictly before `b` in text order, which is also the
/// order of their UTF-8 bytes.
pub open spec fn precedes(a: Seq<char>, b: Seq<char>) -> bool {
    precedes_from(a, b, 0)
}

proof fn lemma_precedes_total_from(a: Seq<char>, b: Seq<char>, i: int)
    requires
        0 <= i <= a.len(),
        i <= b.len(),
        a.take(i) == b.take(i),
    ensures
        a == b ==> !precedes_from(a, b, i),
        precedes_from(a, b, i) ==> !precedes_from(b, a, i),
        !precedes_from(a, b, i) && !precedes_from(b, a, i) ==> a == b,
    decreases b.len() - i,
{
    if i < a.len() && i < b.len() {
        if a[i] == b[i] {
            assert(a.take(i + 1) =~= a.take(i).push(a[i]));
            assert(b.take(i + 1) =~= b.take(i).push(b[i]));
            lemma_precedes_total_from(a, b, i + 1);
        }
    } else if i == a.len() && i == b.len() {
        assert(a.take(i) =~= a);
        assert(b.take(i) =~= b);
    }
}

/// Text order is total: nothing precedes itself, two texts never precede each
/// other both ways, and two texts of which neither precedes are the same.
pub proof fn lemma_precedes_total(a: Seq<char>, b: Seq<char>)
    ensures
        a == b ==> !precedes(a, b),
        precedes(a, b) ==> !precedes(b, a),
        !precedes(a, b) && !precedes(b, a) ==> a == b,
{
    assert(a.take(0) =~= b.take(0));
    lemma_precedes_total_from(a, b, 0);
}

/// Text order is transitive.
pub proof fn lemma_precedes_trans(a: Seq<char>, b: Seq<char>, c: Seq<char>, i: int)
    requires
        0 <= i,
        precedes_from(a, b, i),
        precedes_from(b, c, i),
    ensures
        precedes_from(a, c, i),
    decreases c.len() - i,
{
    if i < a.len() && a[i] == b[i] && b[i] == c[i] {
        lemma_precedes_trans(a, b, c, i + 1);
    }
}

/// The first place at which two texts differ decides their order: by code
/// point, and a text comes before every longer one that starts with it.
pub proof fn the_first_difference_decides(a: Seq<char>, b: Seq<char>, i: int)
    requires
        0 <= i <= a.len(),
        i <= b.len(),
        forall|k: int| 0 <= k < i ==> a[k] == b[k],
    ensures
        i < a.len() && i < b.len() && a[i] < b[i] ==> precedes(a, b),
        i == a.len() && i < b.len() ==> precedes(a, b),
        precedes(a, b) && i < a.len() && i < b.len() && a[i] != b[i] ==> a[i] < b[i],
        precedes(a, b) ==> i < b.len(),
{
    lemma_agreement(a, b, 0, i);
}

proof fn lemma_agreement(a: Seq<char>, b: Seq<char>, from: int, i: int)
    requires
        0 <= from <= i <= a.len(),
        i <= b.len(),
        forall|k: int| 0 <= k < i ==> a[k] == b[k],
    ensures
        precedes_from(a, b, from) == precedes_from(a, b, i),
    decreases i - from,
{
    if from < i {
        lemma_agreement(a, b, from + 1, i);
    }
}

/// Decides [`precedes`].
pub fn text_less(a: &str, b: &str) -> (less: bool)
    ensures
        less == precedes(a@, b@),
{
    let x = chars_of(a);
    let y = chars_of(b);
    let mut i: usize = 0;
    while i < x.len() && i < y.len()
        invariant
            x@ == a@,
            y@ == b@,
            i <= x@.len(),
            i <= y@.len(),
            precedes(a@, b@) == precedes_from(a@, b@, i as int),
        decreases x@.len() - i,
    {
        if x[i] != y[i] {
            return x[i] < y[i];
        }
        i = i + 1;
    }
    i < y.len()
}

/// Whether a list of texts is strictly increasing, hence without repeats.
pub open spec fn increasing(list: Seq<Seq<char>>) -> bool {
    forall|i: int, j: int| 0 <= i < j < list.len() ==> precedes(#[trigger] list[i], #[trigger] list[j])
}

/// Two increasing lists with the same members are the same list.
pub proof fn increasing_lists_are_unique(a: Seq<Seq<char>>, b: Seq<Seq<char>>)
    requires
        increasing(a),
        increasing(b),
        a.to_set() =~= b.to_set(),
    ensures
        a == b,
    decreases a.len(),
{
    if a.len() == 0 {
        if b.len() > 0 {
            assert(b.to_set().contains(b[0]));
            assert(a.to_set().contains(b[0]));
        }
        assert(a =~= b);
    } else {
        assert(a.to_set().contains(a.last()));
        assert(b.to_set().contains(a.last()));
        let k = choose|k: int| 0 <= k < b.len() && b[k] == a.last();
        assert(b.to_set().contains(b.last()));
        assert(a.to_set().contains(b.last()));
        let j = choose|j: int| 0 <= j < a.len() && a[j] == b.last();
        if k < b.len() - 1 {
            assert(precedes(b[k], b[b.len() - 1]));
            lemma_precedes_total(a.last(), b.last());
            if j < a.len() - 1 {
                assert(precedes(a[j], a[a.len() - 1]));
            }
        }
        assert(a.last() == b.last());
        let x = a.drop_last();
        let y = b.drop_last();
        assert forall|t: Seq<char>| x.to_set().contains(t) <==> y.to_set().contains(t) by {
            if x.contains(t) {
                let i = choose|i: int| 0 <= i < x.len() && x[i] == t;
                assert(precedes(a[i], a[a.len() - 1]));
                lemma_precedes_total(t, a.last());
                assert(a.to_set().contains(a[i]));
                assert(b.contains(t));
                let m = choose|m: int| 0 <= m < b.len() && b[m] == t;
                assert(y[m] == t);
            }
            if y.contains(t) {
                let i = choose|i: int| 0 <= i < y.len() && y[i] == t;
                assert(precedes(b[i], b[b.len() - 1]));
                lemma_precedes_total(t, b.last());
                assert(b.to_set().contains(b[i]));
                assert(a.contains(t));
                let m = choose|m: int| 0 <= m < a.len() && a[m] == t;
                assert(x[m] == t);
            }
        }
        increasing_lists_are_unique(x, y);
        assert(a =~= x.push(a.last()));
        assert(b =~= y.push(b.last()));
    }
}

/// Adds a text to an increasing list, at its place and at most once.
pub fn insert_sorted(list: &mut Vec<String>, text: &str)
    requires
        increasing(texts(old(list)@)),
    ensures
        increasing(texts(final(list)@)),
        texts(final(list)@).to_set() == texts(old(list)@).to_set().insert(text@),
{
    let ghost before = texts(list@);
    let mut i: usize = 0;
    while i < list.len() && text_less(list[i].as_str(), text)
        invariant
            i <= list@.len(),
            texts(list@) == before,
            list@ == old(list)@,
            forall|k: int| 0 <= k < i ==> precedes(#[trigger] before[k], text@),
        decreases list@.len() - i,
    {
        i = i + 1;
    }
    if i < list.len() && same(list[i].as_str(), text) {
        assert(before[i as int] == text@);
        assert(before.to_set().insert(text@) =~= before.to_set());
        return;
    }
    proof {
        assert forall|k: int| i <= k < before.len() implies precedes(text@, #[trigger] before[k]) by {
            assert(before[i as int] == list@[i as int]@);
            lemma_precedes_total(before[i as int], text@);
            if k > i {
                lemma_precedes_trans(text@, before[i as int], before[k], 0);
            }
        }
    }
    list.insert(i, text.to_owned());
    proof {
        let after = texts(list@);
        assert(after =~= before.insert(i as int, text@));
        assert forall|t: Seq<char>| after.to_set().contains(t) <==> before.to_set().insert(
            text@,
        ).contains(t) by {
            if after.contains(t) {
                let k = choose|k: int| 0 <= k < after.len() && after[k] == t;
                if k < i {
                    assert(before[k] == t);
                } else if k > i {
                    assert(before[k - 1] == t);
                }
            }
            if before.contains(t) {
                let k = choose|k: int| 0 <= k < before.len() && before[k] == t;
                if k < i {
                    assert(after[k] == t);
                } else {
                    assert(after[k + 1] == t);
                }
            }
            assert(after[i as int] == text@);
        }
        assert(after.to_set() =~= before.to_set().insert(text@));
    }
}

/// Takes a text out of an increasing list, if it is there.
pub fn remove_sorted(list: &mut Vec<String>, text: &str)
    requires
        increasing(texts(old(list)@)),
    ensures
        increasing(texts(final(list)@)),
        texts(final(list)@).to_set() == texts(old(list)@).to_set().remove(text@),
{
    let ghost before = texts(list@);
    let mut i: usize = 0;
    while i < list.len()
        invariant
            i <= list@.len(),
            list@ == old(list)@,
            before == texts(list@),
            increasing(before),
            forall|k: int| 0 <= k < i ==> #[trigger] before[k] != text@,
        decreases list@.len() - i,
    {
        assert(before[i as int] == list@[i as int]@);
        if same(list[i].as_str(), text) {
            list.remove(i);
            proof {
                let after = texts(list@);
                assert(after =~= before.remove(i as int));
                assert forall|a: int, b: int| 0 <= a < b < after.len() implies precedes(
                    #[trigger] after[a],
                    #[trigger] after[b],
                ) by {
                    let x = if a < i { a } else { a + 1 };
                    let y = if b < i { b } else { b + 1 };
                    assert(after[a] == before[x]);
                    assert(after[b] == before[y]);
                }
                assert forall|t: Seq<char>| after.to_set().contains(t) <==> before.to_set().remove(
                    text@,
                ).contains(t) by {
                    if after.contains(t) {
                        let k = choose|k: int| 0 <= k < after.len() && after[k] == t;
                        let x = if k < i { k } else { k + 1 };
                        assert(before[x] == t);
                        lemma_precedes_total(before[x], before[i as int]);
                        if x < i {
                            assert(precedes(before[x], before[i as int]));
                        } else {
                            assert(precedes(before[i as int], before[x]));
                        }
                    }
                    if before.contains(t) && t != text@ {
                        let k = choose|k: int| 0 <= k < before.len() && before[k] == t;
                        let x = if k < i { k } else { k - 1 };
                        assert(after[x] == t);
                    }
                }
                assert(after.to_set() =~= before.to_set().remove(text@));
            }
            return;
        }
        i = i + 1;
    }
    assert(before.to_set().remove(text@) =~= before.to_set());
}

/// The members of a list and one more.
pub proof fn lemma_push_members<A>(list: Seq<A>, item: A)
    ensures
        list.push(item).to_set() == list.to_set().insert(item),
{
    let longer = list.push(item);
    assert forall|t: A| longer.to_set().contains(t) <==> list.to_set().insert(item).contains(t) by {
        if longer.contains(t) {
            let k = choose|k: int| 0 <= k < longer.len() && longer[k] == t;
            if k < list.len() {
                assert(list[k] == t);
            }
        }
        if list.contains(t) {
            let k = choose|k: int| 0 <= k < list.len() && list[k] == t;
            assert(longer[k] == t);
        }
        assert(longer[list.len() as int] == item);
    }
    assert(longer.to_set() =~= list.to_set().insert(item));
}

/// The pieces of `s[start..]` between separators, where `s[start..at]` holds
/// none.
pub open spec fn pieces_from(s: Seq<char>, sep: char, start: int, at: int) -> Seq<Seq<char>>
    decreases s.len() - at,
{
    if at >= s.len() {
        seq![s.subrange(start, s.len() as int)]
    } else if s[at] == sep {
        seq![s.subrange(start, at)] + pieces_from(s, sep, at + 1, at + 1)
    } else {
        pieces_from(s, sep, start, at + 1)
    }
}

/// A text cut at every separator; always at least one piece.
pub open spec fn pieces(s: Seq<char>, sep: char) -> Seq<Seq<char>> {
    pieces_from(s, sep, 0, 0)
}

proof fn lemma_pieces_glue(s: Seq<char>, sep: char, start: int, at: int)
    requires
        0 <= start <= at <= s.len(),
        forall|k: int| start <= k < at ==> s[k] != sep,
    ensures
        pieces_from(s, sep, start, at).len() >= 1,
        joined(pieces_from(s, sep, start, at), seq![sep]) == s.skip(start),
        forall|i: int, k: int|
            0 <= i < pieces_from(s, sep, start, at).len() && 0 <= k < pieces_from(
                s,
                sep,
                start,
                at,
            )[i].len() ==> #[trigger] pieces_from(s, sep, start, at)[i][k] != sep,
    decreases s.len() - at,
{
    let all = pieces_from(s, sep, start, at);
    if at >= s.len() {
        assert(s.subrange(start, s.len() as int) =~= s.skip(start));
    } else if s[at] == sep {
        let rest = pieces_from(s, sep, at + 1, at + 1);
        lemma_pieces_glue(s, sep, at + 1, at + 1);
        let first = seq![s.subrange(start, at)];
        joining_two_lists(first, rest, seq![sep]);
        assert(s.skip(start) =~= s.subrange(start, at) + seq![sep] + s.skip(at + 1));
        assert forall|i: int, k: int| 0 <= i < all.len() && 0 <= k < all[i].len() implies
            #[trigger] all[i][k] != sep by {
            if i > 0 {
                assert(all[i] == rest[i - 1]);
                assert(rest[i - 1][k] != sep);
            }
        }
    } else {
        lemma_pieces_glue(s, sep, start, at + 1);
    }
}

/// Splitting loses nothing and leaves no separator: the pieces glued together
/// again are the text, and none of them holds the separator.
pub proof fn pieces_make_up_the_text(s: Seq<char>, sep: char)
    ensures
        joined(pieces(s, sep), seq![sep]) == s,
        forall|i: int, k: int|
            0 <= i < pieces(s, sep).len() && 0 <= k < pieces(s, sep)[i].len()
                ==> #[trigger] pieces(s, sep)[i][k] != sep,
{
    lemma_pieces_glue(s, sep, 0, 0);
    assert(s.skip(0) =~= s);
}

/// Computes [`pieces`].
pub fn split(s: &str, sep: char) -> (out: Vec<String>)
    ensures
        texts(out@) == pieces(s@, sep),
{
    let chars = chars_of(s);
    let mut out: Vec<String> = Vec::new();
    let mut start: usize = 0;
    let mut at: usize = 0;
    assert(texts(out@) + pieces(s@, sep) =~= pieces(s@, sep));
    while at < chars.len()
        invariant
            chars@ == s@,
            start <= at <= chars@.len(),
            texts(out@) + pieces_from(s@, sep, start as int, at as int) == pieces(s@, sep),
        decreases chars@.len() - at,
    {
        if chars[at] == sep {
            let ghost done = texts(out@);
            let piece = string_of(&chars, start, at);
            out.push(piece);
            assert(texts(out@) =~= done.push(s@.subrange(start as int, at as int)));
            assert(texts(out@) + pieces_from(s@, sep, at + 1, at + 1) =~= done + pieces_from(
                s@,
                sep,
                start as int,
                at as int,
            ));
            start = at + 1;
        }
        at = at + 1;
    }
    let ghost done = texts(out@);
    let piece = string_of(&chars, start, at);
    out.push(piece);
    assert(texts(out@) =~= done + pieces_from(s@, sep, start as int, at as int));
    out
}

/// Texts glued together with a separator between neighbours.
pub open spec fn joined(list: Seq<Seq<char>>, sep: Seq<char>) -> Seq<char>
    decreases list.len(),
{
    if list.len() == 0 {
        Seq::empty()
    } else if list.len() == 1 {
        list[0]
    } else {
        joined(list.drop_last(), sep) + sep + list.last()
    }
}

/// Joining one text gives it back, and joining two lists gives one joined list,
/// a separator, and the other.
pub proof fn joining_two_lists(a: Seq<Seq<char>>, b: Seq<Seq<char>>, sep: Seq<char>)
    requires
        a.len() > 0,
        b.len() > 0,
    ensures
        joined(a + b, sep) == joined(a, sep) + sep + joined(b, sep),
        a.len() == 1 ==> joined(a, sep) == a[0],
    decreases b.len(),
{
    let both = a + b;
    assert(both.last() == b.last());
    if b.len() == 1 {
        assert(both.drop_last() =~= a);
    } else {
        assert(both.drop_last() =~= a + b.drop_last());
        joining_two_lists(a, b.drop_last(), sep);
        assert(joined(both, sep) =~= joined(a, sep) + sep + joined(b, sep));
    }
}

/// Computes [`joined`].
pub fn join(list: &Vec<String>, sep: &str) -> (out: String)
    ensures
        out@ == joined(texts(list@), sep@),
{
    let mut out = String::new();
    let mut i: usize = 0;
    while i < list.len()
        invariant
            i <= list@.len(),
            out@ == joined(texts(list@).take(i as int), sep@),
        decreases list@.len() - i,
    {
        if i > 0 {
            out.push_str(sep);
        }
        out.push_str(list[i].as_str());
        assert(texts(list@).take(i + 1).drop_last() =~= texts(list@).take(i as int));
        assert(texts(list@).take(i + 1).last() == list@[i as int]@);
        i = i + 1;
    }
    assert(texts(list@).take(list@.len() as int) =~= texts(list@));
    out
}

/// The maximal runs of kept characters in `s[start..]`, where all of
/// `s[start..at]` is kept.
pub open spec fn runs_from(s: Seq<char>, keep: Seq<bool>, start: int, at: int) -> Seq<Seq<char>>
    decreases s.len() - at,
{
    if at >= s.len() {
        run(s, start, at)
    } else if keep[at] {
        runs_from(s, keep, start, at + 1)
    } else {
        run(s, start, at) + runs_from(s, keep, at + 1, at + 1)
    }
}

/// One run, when it is not empty.
pub open spec fn run(s: Seq<char>, start: int, end: int) -> Seq<Seq<char>> {
    if start < end {
        seq![s.subrange(start, end)]
    } else {
        Seq::empty()
    }
}

/// Whether a stretch of a text is a maximal run of kept characters.
pub open spec fn is_run(keep: Seq<bool>, start: int, end: int) -> bool {
    &&& 0 <= start < end <= keep.len()
    &&& forall|k: int| start <= k < end ==> #[trigger] keep[k]
    &&& start > 0 ==> !keep[start - 1]
    &&& end < keep.len() ==> !keep[end]
}

/// The runs of a text are its maximal stretches of kept characters, from left
/// to right, and every kept character is in one of them.
pub proof fn runs_are_maximal(s: Seq<char>, keep: Seq<bool>) -> (spans: Seq<(int, int)>)
    requires
        s.len() == keep.len(),
    ensures
        spans.len() == runs_from(s, keep, 0, 0).len(),
        forall|i: int|
            0 <= i < spans.len() ==> is_run(keep, (#[trigger] spans[i]).0, spans[i].1)
                && runs_from(s, keep, 0, 0)[i] == s.subrange(spans[i].0, spans[i].1),
        forall|i: int, j: int|
            0 <= i < j < spans.len() ==> (#[trigger] spans[i]).1 < (#[trigger] spans[j]).0,
        forall|k: int|
            0 <= k < s.len() && #[trigger] keep[k] ==> exists|i: int|
                0 <= i < spans.len() && (#[trigger] spans[i]).0 <= k < spans[i].1,
{
    lemma_runs(s, keep, 0, 0)
}

proof fn lemma_runs(s: Seq<char>, keep: Seq<bool>, start: int, at: int) -> (spans: Seq<(int, int)>)
    requires
        s.len() == keep.len(),
        0 <= start <= at <= s.len(),
        start > 0 ==> !keep[start - 1],
        forall|k: int| start <= k < at ==> #[trigger] keep[k],
    ensures
        spans.len() == runs_from(s, keep, start, at).len(),
        forall|i: int|
            0 <= i < spans.len() ==> start <= (#[trigger] spans[i]).0 && is_run(
                keep,
                spans[i].0,
                spans[i].1,
            ) && runs_from(s, keep, start, at)[i] == s.subrange(spans[i].0, spans[i].1),
        forall|i: int, j: int|
            0 <= i < j < spans.len() ==> (#[trigger] spans[i]).1 < (#[trigger] spans[j]).0,
        forall|k: int|
            start <= k < s.len() && #[trigger] keep[k] ==> exists|i: int|
                0 <= i < spans.len() && (#[trigger] spans[i]).0 <= k < spans[i].1,
    decreases s.len() - at,
{
    if at < s.len() && keep[at] {
        lemma_runs(s, keep, start, at + 1)
    } else {
        let rest: Seq<(int, int)> = if at >= s.len() {
            Seq::empty()
        } else {
            lemma_runs(s, keep, at + 1, at + 1)
        };
        let own: Seq<(int, int)> = if start < at {
            seq![(start, at)]
        } else {
            Seq::empty()
        };
        let spans = own + rest;
        let all = runs_from(s, keep, start, at);
        if at >= s.len() {
            assert(all =~= run(s, start, at));
        }
        assert forall|i: int| 0 <= i < spans.len() implies start <= (#[trigger] spans[i]).0
            && is_run(keep, spans[i].0, spans[i].1) && all[i] == s.subrange(
            spans[i].0,
            spans[i].1,
        ) by {
            if i >= own.len() {
                assert(spans[i] == rest[i - own.len()]);
            }
        }
        assert forall|i: int, j: int| 0 <= i < j < spans.len() implies (#[trigger] spans[i]).1 < (
        #[trigger] spans[j]).0 by {
            assert(spans[j] == rest[j - own.len()]);
            if i >= own.len() {
                assert(spans[i] == rest[i - own.len()]);
            }
        }
        assert forall|k: int| start <= k < s.len() && #[trigger] keep[k] implies exists|i: int|
            0 <= i < spans.len() && (#[trigger] spans[i]).0 <= k < spans[i].1 by {
            if k < at {
                assert(spans[0] == (start, at));
            } else {
                let i = choose|i: int|
                    0 <= i < rest.len() && (#[trigger] rest[i]).0 <= k < rest[i].1;
                assert(spans[i + own.len()] == rest[i]);
            }
        }
        spans
    }
}

/// Computes the runs of kept characters.
pub fn runs(chars: &Vec<char>, keep: &Vec<bool>) -> (out: Vec<String>)
    requires
        chars@.len() == keep@.len(),
    ensures
        texts(out@) == runs_from(chars@, keep@, 0, 0),
{
    let mut out: Vec<String> = Vec::new();
    let mut start: usize = 0;
    let mut at: usize = 0;
    let ghost whole = runs_from(chars@, keep@, 0, 0);
    assert(texts(out@) + whole =~= whole);
    while at < chars.len()
        invariant
            chars@.len() == keep@.len(),
            start <= at <= chars@.len(),
            texts(out@) + runs_from(chars@, keep@, start as int, at as int) == whole,
        decreases chars@.len() - at,
    {
        if !keep[at] {
            let ghost done = texts(out@);
            push_run(&mut out, chars, start, at);
            assert(texts(out@) + runs_from(chars@, keep@, at + 1, at + 1) =~= done + runs_from(
                chars@,
                keep@,
                start as int,
                at as int,
            ));
            start = at + 1;
        }
        at = at + 1;
    }
    push_run(&mut out, chars, start, at);
    out
}

fn push_run(out: &mut Vec<String>, chars: &Vec<char>, start: usize, end: usize)
    requires
        start <= end <= chars@.len(),
    ensures
        texts(final(out)@) == texts(old(out)@) + run(chars@, start as int, end as int),
{
    if start < end {
        out.push(string_of(chars, start, end));
    }
    assert(texts(out@) =~= texts(old(out)@) + run(chars@, start as int, end as int));
}

/// The runs of letters and numbers of a text.
pub open spec fn words(s: Seq<char>) -> Seq<Seq<char>> {
    runs_from(s, s.map_values(|c: char| alphanumeric(c)), 0, 0)
}

/// Computes [`words`].
pub fn words_of(s: &str) -> (out: Vec<String>)
    ensures
        texts(out@) == words(s@),
{
    let chars = chars_of(s);
    let mut keep: Vec<bool> = Vec::new();
    let mut i: usize = 0;
    while i < chars.len()
        invariant
            i <= chars@.len(),
            keep@.len() == i,
            forall|k: int| 0 <= k < i ==> #[trigger] keep@[k] == alphanumeric(chars@[k]),
        decreases chars@.len() - i,
    {
        keep.push(chars[i].is_alphanumeric());
        i = i + 1;
    }
    assert(keep@ =~= chars@.map_values(|c: char| alphanumeric(c)));
    runs(&chars, &keep)
}

/// The runs of a text between white space.
pub open spec fn fields(s: Seq<char>) -> Seq<Seq<char>> {
    runs_from(s, s.map_values(|c: char| !is_space(c)), 0, 0)
}

/// Computes [`fields`].
pub fn fields_of(s: &str) -> (out: Vec<String>)
    ensures
        texts(out@) == fields(s@),
{
    let chars = chars_of(s);
    let mut keep: Vec<bool> = Vec::new();
    let mut i: usize = 0;
    while i < chars.len()
        invariant
            i <= chars@.len(),
            keep@.len() == i,
            forall|k: int| 0 <= k < i ==> #[trigger] keep@[k] == !is_space(chars@[k]),
        decreases chars@.len() - i,
    {
        keep.push(!space_char(chars[i]));
        i = i + 1;
    }
    assert(keep@ =~= chars@.map_values(|c: char| !is_space(c)));
    runs(&chars, &keep)
}

/// The runs of ASCII letters and digits of a text.
pub open spec fn ascii_words(s: Seq<char>) -> Seq<Seq<char>> {
    runs_from(s, s.map_values(|c: char| is_ascii_alnum(c)), 0, 0)
}

/// Computes [`ascii_words`].
pub fn ascii_words_of(s: &str) -> (out: Vec<String>)
    ensures
        texts(out@) == ascii_words(s@),
{
    let chars = chars_of(s);
    let mut keep: Vec<bool> = Vec::new();
    let mut i: usize = 0;
    while i < chars.len()
        invariant
            i <= chars@.len(),
            keep@.len() == i,
            forall|k: int| 0 <= k < i ==> #[trigger] keep@[k] == is_ascii_alnum(chars@[k]),
        decreases chars@.len() - i,
    {
        keep.push(ascii_alnum_char(chars[i]));
        i = i + 1;
    }
    assert(keep@ =~= chars@.map_values(|c: char| is_ascii_alnum(c)));
    runs(&chars, &keep)
}

/// A text is a word of another exactly when it is a maximal stretch of ASCII
/// letters and digits in it.
pub proof fn ascii_words_are_maximal(s: Seq<char>, word: Seq<char>)
    ensures
        ascii_words(s).contains(word) <==> exists|start: int, end: int|
            #![trigger s.subrange(start, end)]
            0 <= start < end <= s.len() && s.subrange(start, end) == word && (forall|k: int|
                start <= k < end ==> is_ascii_alnum(#[trigger] s[k])) && (start > 0
                ==> !is_ascii_alnum(s[start - 1])) && (end < s.len() ==> !is_ascii_alnum(s[end])),
{
    let keep = s.map_values(|c: char| is_ascii_alnum(c));
    let spans = runs_are_maximal(s, keep);
    let all = ascii_words(s);
    if all.contains(word) {
        let i = choose|i: int| 0 <= i < all.len() && all[i] == word;
        let (start, end) = spans[i];
        assert(is_run(keep, start, end));
        assert forall|k: int| start <= k < end implies is_ascii_alnum(#[trigger] s[k]) by {
            assert(keep[k]);
        }
        assert(s.subrange(start, end) == word);
    }
    if exists|start: int, end: int|
        #![trigger s.subrange(start, end)]
        0 <= start < end <= s.len() && s.subrange(start, end) == word && (forall|k: int|
            start <= k < end ==> is_ascii_alnum(#[trigger] s[k])) && (start > 0
            ==> !is_ascii_alnum(s[start - 1])) && (end < s.len() ==> !is_ascii_alnum(s[end])) {
        let (start, end) = choose|start: int, end: int|
            #![trigger s.subrange(start, end)]
            0 <= start < end <= s.len() && s.subrange(start, end) == word && (forall|k: int|
                start <= k < end ==> is_ascii_alnum(#[trigger] s[k])) && (start > 0
                ==> !is_ascii_alnum(s[start - 1])) && (end < s.len() ==> !is_ascii_alnum(s[end]));
        assert(keep[start]);
        let i = choose|i: int| 0 <= i < spans.len() && (#[trigger] spans[i]).0 <= start < spans[i].1;
        lemma_runs_agree(keep, spans[i].0, spans[i].1, start, end);
        assert(all[i] == word);
    }
}

proof fn lemma_runs_agree(keep: Seq<bool>, a: int, b: int, c: int, d: int)
    requires
        is_run(keep, a, b),
        0 <= c < d <= keep.len(),
        forall|k: int| c <= k < d ==> #[trigger] keep[k],
        c > 0 ==> !keep[c - 1],
        d < keep.len() ==> !keep[d],
        a <= c < b,
    ensures
        a == c,
        b == d,
{
    if a < c {
        assert(keep[c - 1]);
    }
    if b < d {
        assert(keep[b]);
    }
    if d < b {
        assert(keep[d]);
    }
}

} // verus!
