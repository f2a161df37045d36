//! Values written over several lines, two spaces deeper per level.

use crate::json::{compact_text, string_literal, write_string, Json, Value};
use crate::lists::joined;
use vstd::prelude::*;

verus! {

/// A value written with `pad` before each of its lines but the first. Empty
/// lists and objects stay on one line.
pub open spec fn pretty_text(value: Value, pad: Seq<char>) -> Seq<char>
    decreases value,
{
    match value {
        Value::List(items) => if items.len() == 0 {
            "[]"@
        } else {
            "[\n"@ + pretty_items(items, pad + "  "@, items.len()) + "\n"@ + pad + "]"@
        },
        Value::Object(entries) => if entries.len() == 0 {
            "{}"@
        } else {
            "{\n"@ + pretty_entries(entries, pad + "  "@, entries.len()) + "\n"@ + pad + "}"@
        },
        _ => compact_text(value),
    }
}

/// What stands before the `n`th of several things.
pub open spec fn break_before(n: nat) -> Seq<char> {
    if n > 1 {
        ",\n"@
    } else {
        Seq::empty()
    }
}

/// The first `n` items of a list, one per line.
pub open spec fn pretty_items(items: Seq<Value>, pad: Seq<char>, n: nat) -> Seq<char>
    decreases items, n,
{
    if n == 0 || n > items.len() {
        Seq::empty()
    } else {
        pretty_items(items, pad, (n - 1) as nat) + break_before(n) + pad + pretty_text(
            items[n - 1],
            pad,
        )
    }
}

/// The first `n` entries of an object, one per line.
pub open spec fn pretty_entries(
    entries: Seq<(Seq<char>, Value)>,
    pad: Seq<char>,
    n: nat,
) -> Seq<char>
    decreases entries, n,
{
    if n == 0 || n > entries.len() {
        Seq::empty()
    } else {
        pretty_entries(entries, pad, (n - 1) as nat) + break_before(n) + pad + string_literal(
            entries[n - 1].0,
        ) + ": "@ + pretty_text(entries[n - 1].1, pad)
    }
}

fn push_break(out: &mut String, first: bool)
    ensures
        final(out)@ == old(out)@ + if first {
            Seq::empty()
        } else {
            ",\n"@
        },
{
    if !first {
        out.push_str(",\n");
    } else {
        assert(out@ =~= old(out)@ + Seq::empty());
    }
}

fn push_pretty(out: &mut String, value: &Json, pad: &str)
    ensures
        final(out)@ == old(out)@ + pretty_text(value@, pad@),
    decreases value,
{
    match value {
        Json::List(items) => {
            let ghost all = value@->List_0;
            if items.len() == 0 {
                out.push_str("[]");
                return;
            }
            let mut deeper = pad.to_owned();
            deeper.push_str("  ");
            out.push_str("[\n");
            let mut i: usize = 0;
            assert(out@ =~= old(out)@ + "[\n"@ + pretty_items(all, deeper@, 0));
            while i < items.len()
                invariant
                    i <= items@.len(),
                    *value == Json::List(*items),
                    value@ == Value::List(all),
                    all.len() == items@.len(),
                    forall|k: int| 0 <= k < all.len() ==> all[k] == #[trigger] items@[k]@,
                    out@ == old(out)@ + "[\n"@ + pretty_items(all, deeper@, i as nat),
                decreases items@.len() - i,
            {
                push_break(out, i == 0);
                out.push_str(deeper.as_str());
                push_pretty(out, &items[i], deeper.as_str());
                assert(out@ =~= old(out)@ + "[\n"@ + pretty_items(all, deeper@, (i + 1) as nat));
                i = i + 1;
            }
            out.push_str("\n");
            out.push_str(pad);
            out.push_str("]");
            assert(out@ =~= old(out)@ + pretty_text(value@, pad@));
        },
        Json::Object(entries) => {
            let ghost all = value@->Object_0;
            if entries.len() == 0 {
                out.push_str("{}");
                return;
            }
            let mut deeper = pad.to_owned();
            deeper.push_str("  ");
            out.push_str("{\n");
            let mut i: usize = 0;
            assert(out@ =~= old(out)@ + "{\n"@ + pretty_entries(all, deeper@, 0));
            while i < entries.len()
                invariant
                    i <= entries@.len(),
                    *value == Json::Object(*entries),
                    value@ == Value::Object(all),
                    all.len() == entries@.len(),
                    forall|k: int|
                        0 <= k < all.len() ==> all[k] == ((#[trigger] entries@[k]).0@, entries@[k].1@),
                    out@ == old(out)@ + "{\n"@ + pretty_entries(all, deeper@, i as nat),
                decreases entries@.len() - i,
            {
                push_break(out, i == 0);
                out.push_str(deeper.as_str());
                out.push_str(write_string(entries[i].0.as_str()).as_str());
                out.push_str(": ");
                push_pretty(out, &entries[i].1, deeper.as_str());
                assert(out@ =~= old(out)@ + "{\n"@ + pretty_entries(all, deeper@, (i + 1) as nat));
                i = i + 1;
            }
            out.push_str("\n");
            out.push_str(pad);
            out.push_str("}");
            assert(out@ =~= old(out)@ + pretty_text(value@, pad@));
        },
        _ => {
            out.push_str(value.to_text().as_str());
        },
    }
}

impl Json {
    /// This value over several lines.
    pub fn to_pretty(&self) -> (out: String)
        ensures
            out@ == pretty_text(self@, Seq::empty()),
    {
        let mut out = String::new();
        push_pretty(&mut out, self, "");
        proof {
            reveal_strlit("");
        }
        assert(""@ =~= Seq::<char>::empty());
        assert(out@ =~= pretty_text(self@, Seq::empty()));
        out
    }
}

/// A list or an object over several lines holds its parts, each on a line of its
/// own two spaces deeper, with commas between; an empty one stays on one line,
/// and any other value is written as in one line.
pub proof fn a_value_is_spread_over_lines(
    items: Seq<Value>,
    entries: Seq<(Seq<char>, Value)>,
    value: Value,
    pad: Seq<char>,
)
    ensures
        ({
            let deeper = pad + "  "@;
            &&& items.len() > 0 ==> pretty_text(Value::List(items), pad) == "[\n"@ + joined(
                items.map_values(|v: Value| deeper + pretty_text(v, deeper)),
                ",\n"@,
            ) + "\n"@ + pad + "]"@
            &&& entries.len() > 0 ==> pretty_text(Value::Object(entries), pad) == "{\n"@ + joined(
                entries.map_values(
                    |e: (Seq<char>, Value)|
                        deeper + string_literal(e.0) + ": "@ + pretty_text(e.1, deeper),
                ),
                ",\n"@,
            ) + "\n"@ + pad + "}"@
        }),
        pretty_text(Value::List(Seq::empty()), pad) == "[]"@,
        pretty_text(Value::Object(Seq::empty()), pad) == "{}"@,
        !(value is List) && !(value is Object) ==> pretty_text(value, pad) == compact_text(value),
{
    let deeper = pad + "  "@;
    lemma_items_spread(items, deeper, items.len());
    lemma_entries_spread(entries, deeper, entries.len());
    assert(items.take(items.len() as int) =~= items);
    assert(entries.take(entries.len() as int) =~= entries);
}

proof fn lemma_items_spread(items: Seq<Value>, pad: Seq<char>, n: nat)
    requires
        n <= items.len(),
    ensures
        pretty_items(items, pad, n) == joined(
            items.take(n as int).map_values(|v: Value| pad + pretty_text(v, pad)),
            ",\n"@,
        ),
    decreases n,
{
    let written = |v: Value| pad + pretty_text(v, pad);
    let list = items.take(n as int).map_values(written);
    if n > 0 {
        lemma_items_spread(items, pad, (n - 1) as nat);
        assert(list.drop_last() =~= items.take(n - 1).map_values(written));
        assert(list.last() == pad + pretty_text(items[n - 1], pad));
    }
    assert(pretty_items(items, pad, n) =~= joined(list, ",\n"@));
}

proof fn lemma_entries_spread(entries: Seq<(Seq<char>, Value)>, pad: Seq<char>, n: nat)
    requires
        n <= entries.len(),
    ensures
        pretty_entries(entries, pad, n) == joined(
            entries.take(n as int).map_values(
                |e: (Seq<char>, Value)| pad + string_literal(e.0) + ": "@ + pretty_text(e.1, pad),
            ),
            ",\n"@,
        ),
    decreases n,
{
    let written = |e: (Seq<char>, Value)|
        pad + string_literal(e.0) + ": "@ + pretty_text(e.1, pad);
    let list = entries.take(n as int).map_values(written);
    if n > 0 {
        lemma_entries_spread(entries, pad, (n - 1) as nat);
        assert(list.drop_last() =~= entries.take(n - 1).map_values(written));
        assert(list.last() == pad + string_literal(entries[n - 1].0) + ": "@ + pretty_text(
            entries[n - 1].1,
            pad,
        ));
    }
    assert(pretty_entries(entries, pad, n) =~= joined(list, ",\n"@));
}

} // verus!
