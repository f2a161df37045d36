//! Metadata and memory bodies as plain values, and their compact text.

use crate::lists::{
    increasing, joined, lemma_precedes_total, lemma_precedes_trans, precedes, text_less,
};
use crate::text::{push_decimal, same, signed_decimal, texts};
use vstd::prelude::*;

verus! {

/// A structured value.
pub enum Json {
    Null,
    Bool(bool),
    Unsigned(u64),
    /// A number below zero.
    Signed(i64),
    /// A number with a fraction or an exponent, as it is written.
    Real(String),
    Text(String),
    List(Vec<Json>),
    Object(Vec<(String, Json)>),
}

/// What a [`Json`] stands for.
pub enum Value {
    Null,
    Bool(bool),
    Number(int),
    Real(Seq<char>),
    Text(Seq<char>),
    List(Seq<Value>),
    Object(Seq<(Seq<char>, Value)>),
}

/// The model of a value.
pub open spec fn model(value: Json) -> Value
    decreases value,
{
    match value {
        Json::Null => Value::Null,
        Json::Bool(flag) => Value::Bool(flag),
        Json::Unsigned(n) => Value::Number(n as int),
        Json::Signed(n) => Value::Number(n as int),
        Json::Real(literal) => Value::Real(literal@),
        Json::Text(text) => Value::Text(text@),
        Json::List(items) => Value::List(
            Seq::new(
                items@.len(),
                |i: int|
                    if 0 <= i < items@.len() {
                        model(items@[i])
                    } else {
                        Value::Null
                    },
            ),
        ),
        Json::Object(entries) => Value::Object(
            Seq::new(
                entries@.len(),
                |i: int|
                    if 0 <= i < entries@.len() {
                        (entries@[i].0@, model(entries@[i].1))
                    } else {
                        (Seq::empty(), Value::Null)
                    },
            ),
        ),
    }
}

impl View for Json {
    type V = Value;

    open spec fn view(&self) -> Value {
        model(*self)
    }
}

/// The model of a list of entries.
pub open spec fn entries_view(entries: Seq<(String, Json)>) -> Seq<(Seq<char>, Value)> {
    entries.map_values(|e: (String, Json)| (e.0@, e.1@))
}

/// A hexadecimal digit, in lower case.
pub open spec fn hex_digit(n: int) -> char {
    "0123456789abcdef"@[n]
}

/// One character inside a JSON string: quotes, backslashes and the controls
/// below the space are escaped, everything else stands for itself.
pub open spec fn escaped(c: char) -> Seq<char> {
    if c == '"' || c == '\\' {
        seq!['\\', c]
    } else if c == '\n' {
        seq!['\\', 'n']
    } else if c == '\r' {
        seq!['\\', 'r']
    } else if c == '\t' {
        seq!['\\', 't']
    } else if c as int == 0x08 {
        seq!['\\', 'b']
    } else if c as int == 0x0c {
        seq!['\\', 'f']
    } else if (c as int) < 0x20 {
        seq!['\\', 'u', '0', '0', hex_digit(c as int / 16), hex_digit(c as int % 16)]
    } else {
        seq![c]
    }
}

/// The characters inside a JSON string, escaped one by one.
pub open spec fn escapes(text: Seq<char>) -> Seq<char>
    decreases text.len(),
{
    if text.len() == 0 {
        Seq::empty()
    } else {
        escapes(text.drop_last()) + escaped(text.last())
    }
}

/// The JSON literal of a string: its escaped characters in quotes.
pub open spec fn string_literal(text: Seq<char>) -> Seq<char> {
    seq!['"'] + escapes(text) + seq!['"']
}

/// `serde_json::to_string` on a string: its JSON literal. The short escapes are
/// used where JSON has one, `\u` with lower-case digits for the other controls,
/// and nothing else is escaped. Writing a string never fails.
#[verifier::external_body]
pub(crate) fn write_string(text: &str) -> (literal: String)
    ensures
        literal@ == string_literal(text@),
{
    serde_json::to_string(text).unwrap_or_default()
}

/// The compact text of a value: no spaces, entries in the order held.
pub open spec fn compact_text(value: Value) -> Seq<char>
    decreases value,
{
    match value {
        Value::Null => seq!['n', 'u', 'l', 'l'],
        Value::Bool(true) => seq!['t', 'r', 'u', 'e'],
        Value::Bool(false) => seq!['f', 'a', 'l', 's', 'e'],
        Value::Number(n) => signed_decimal(n),
        Value::Real(literal) => literal,
        Value::Text(text) => string_literal(text),
        Value::List(items) => seq!['['] + items_text(items, items.len()) + seq![']'],
        Value::Object(entries) => seq!['{'] + entries_text(entries, entries.len()) + seq!['}'],
    }
}

/// The first `n` items of a list, comma separated.
pub open spec fn items_text(items: Seq<Value>, n: nat) -> Seq<char>
    decreases items, n,
{
    if n == 0 || n > items.len() {
        Seq::empty()
    } else if n == 1 {
        compact_text(items[0])
    } else {
        items_text(items, (n - 1) as nat) + seq![','] + compact_text(items[n - 1])
    }
}

/// The first `n` entries of an object, comma separated.
pub open spec fn entries_text(entries: Seq<(Seq<char>, Value)>, n: nat) -> Seq<char>
    decreases entries, n,
{
    if n == 0 || n > entries.len() {
        Seq::empty()
    } else if n == 1 {
        string_literal(entries[0].0) + seq![':'] + compact_text(entries[0].1)
    } else {
        entries_text(entries, (n - 1) as nat) + seq![','] + string_literal(entries[n - 1].0)
            + seq![':'] + compact_text(entries[n - 1].1)
    }
}

fn push_compact(out: &mut String, value: &Json)
    ensures
        final(out)@ == old(out)@ + compact_text(value@),
    decreases value,
{
    match value {
        Json::Null => {
            out.push('n');
            out.push('u');
            out.push('l');
            out.push('l');
            assert(out@ =~= old(out)@ + compact_text(value@));
        },
        Json::Bool(flag) => {
            if *flag {
                out.push('t');
                out.push('r');
                out.push('u');
                out.push('e');
            } else {
                out.push('f');
                out.push('a');
                out.push('l');
                out.push('s');
                out.push('e');
            }
            assert(out@ =~= old(out)@ + compact_text(value@));
        },
        Json::Unsigned(n) => {
            push_decimal(out, *n);
        },
        Json::Signed(n) => {
            push_signed(out, *n);
        },
        Json::Real(literal) => {
            out.push_str(literal.as_str());
        },
        Json::Text(text) => {
            out.push_str(write_string(text.as_str()).as_str());
        },
        Json::List(items) => {
            let ghost all = value@->List_0;
            out.push('[');
            let mut i: usize = 0;
            while i < items.len()
                invariant
                    i <= items@.len(),
                    *value == Json::List(*items),
                    value@ == Value::List(all),
                    all.len() == items@.len(),
                    forall|k: int| 0 <= k < all.len() ==> all[k] == #[trigger] items@[k]@,
                    out@ =~= old(out)@ + seq!['['] + items_text(all, i as nat),
                decreases items@.len() - i,
            {
                if i > 0 {
                    out.push(',');
                }
                push_compact(out, &items[i]);
                i = i + 1;
            }
            out.push(']');
            assert(out@ =~= old(out)@ + compact_text(value@));
        },
        Json::Object(entries) => {
            push_entries(out, entries);
            assert(value@->Object_0 =~= entries_view(entries@));
        },
    }
}

fn push_entries(out: &mut String, entries: &Vec<(String, Json)>)
    ensures
        final(out)@ == old(out)@ + compact_text(Value::Object(entries_view(entries@))),
    decreases entries,
{
    let ghost all = entries_view(entries@);
    out.push('{');
    let mut i: usize = 0;
    while i < entries.len()
        invariant
            i <= entries@.len(),
            all == entries_view(entries@),
            out@ =~= old(out)@ + seq!['{'] + entries_text(all, i as nat),
        decreases entries@.len() - i,
    {
        if i > 0 {
            out.push(',');
        }
        assert(all[i as int] == (entries@[i as int].0@, entries@[i as int].1@));
        out.push_str(write_string(entries[i].0.as_str()).as_str());
        out.push(':');
        push_compact(out, &entries[i].1);
        i = i + 1;
    }
    out.push('}');
    assert(out@ =~= old(out)@ + compact_text(Value::Object(all)));
}

/// The compact text of entries, as an object.
pub fn entries_to_text(entries: &Vec<(String, Json)>) -> (out: String)
    ensures
        out@ == compact_text(Value::Object(entries_view(entries@))),
{
    let mut out = String::new();
    push_entries(&mut out, entries);
    assert(out@ =~= compact_text(Value::Object(entries_view(entries@))));
    out
}

fn push_signed(out: &mut String, n: i64)
    ensures
        final(out)@ == old(out)@ + signed_decimal(n as int),
{
    if n < 0 {
        out.push('-');
        if n == i64::MIN {
            push_decimal(out, 9223372036854775808);
        } else {
            push_decimal(out, (-n) as u64);
        }
        assert(out@ =~= old(out)@ + signed_decimal(n as int));
    } else {
        push_decimal(out, n as u64);
    }
}

/// The value under a key of an object, the first when it repeats.
pub open spec fn lookup(entries: Seq<(Seq<char>, Value)>, key: Seq<char>) -> Option<Value>
    decreases entries.len(),
{
    if entries.len() == 0 {
        None
    } else if entries[0].0 == key {
        Some(entries[0].1)
    } else {
        lookup(entries.drop_first(), key)
    }
}

proof fn lemma_lookup_skip(entries: Seq<(Seq<char>, Value)>, key: Seq<char>, n: int)
    requires
        0 <= n <= entries.len(),
        forall|i: int| 0 <= i < n ==> (#[trigger] entries[i]).0 != key,
    ensures
        lookup(entries, key) == lookup(entries.skip(n), key),
    decreases n,
{
    if n > 0 {
        let rest = entries.drop_first();
        assert forall|i: int| 0 <= i < n - 1 implies (#[trigger] rest[i]).0 != key by {
            assert(rest[i] == entries[i + 1]);
        }
        lemma_lookup_skip(rest, key, n - 1);
        assert(rest.skip(n - 1) =~= entries.skip(n));
    } else {
        assert(entries.skip(0) =~= entries);
    }
}

/// The first entry of a key is the one looked up; a key without an entry holds
/// nothing.
pub proof fn the_first_entry_counts(entries: Seq<(Seq<char>, Value)>, key: Seq<char>)
    ensures
        forall|i: int|
            0 <= i < entries.len() && (#[trigger] entries[i]).0 == key && (forall|j: int|
                0 <= j < i ==> (#[trigger] entries[j]).0 != key) ==> lookup(entries, key) == Some(
                entries[i].1,
            ),
        lookup(entries, key) is None <==> forall|i: int|
            0 <= i < entries.len() ==> (#[trigger] entries[i]).0 != key,
    decreases entries.len(),
{
    if entries.len() > 0 && entries[0].0 != key {
        let rest = entries.drop_first();
        the_first_entry_counts(rest, key);
        assert forall|i: int|
            0 <= i < entries.len() && (#[trigger] entries[i]).0 == key && (forall|j: int|
                0 <= j < i ==> (#[trigger] entries[j]).0 != key) implies lookup(entries, key)
            == Some(entries[i].1) by {
            assert(rest[i - 1] == entries[i]);
            assert forall|j: int| 0 <= j < i - 1 implies (#[trigger] rest[j]).0 != key by {
                assert(rest[j] == entries[j + 1]);
            }
        }
        if lookup(entries, key) is None {
            assert forall|i: int| 0 <= i < entries.len() implies (#[trigger] entries[i]).0
                != key by {
                if i > 0 {
                    assert(rest[i - 1] == entries[i]);
                }
            }
        }
        if forall|i: int| 0 <= i < entries.len() ==> (#[trigger] entries[i]).0 != key {
            assert forall|i: int| 0 <= i < rest.len() implies (#[trigger] rest[i]).0 != key by {
                assert(rest[i] == entries[i + 1]);
            }
        }
    }
}

/// Finds a key among entries.
pub fn find<'a>(entries: &'a Vec<(String, Json)>, key: &str) -> (value: Option<&'a Json>)
    ensures
        value matches Some(found) ==> lookup(entries_view(entries@), key@) == Some(found@),
        value is None ==> lookup(entries_view(entries@), key@) is None,
{
    let ghost all = entries_view(entries@);
    let mut i: usize = 0;
    while i < entries.len()
        invariant
            i <= entries@.len(),
            all == entries_view(entries@),
            forall|k: int| 0 <= k < i ==> (#[trigger] all[k]).0 != key@,
        decreases entries@.len() - i,
    {
        if same(entries[i].0.as_str(), key) {
            proof {
                lemma_lookup_skip(all, key@, i as int);
                assert(all.skip(i as int)[0] == all[i as int]);
            }
            return Some(&entries[i].1);
        }
        i = i + 1;
    }
    proof {
        lemma_lookup_skip(all, key@, all.len() as int);
    }
    None
}

/// Whether the keys of entries are strictly increasing.
pub open spec fn ordered(entries: Seq<(Seq<char>, Value)>) -> bool {
    increasing(entries.map_values(|e: (Seq<char>, Value)| e.0))
}

/// Sets a key among entries in key order: replaces its value, or inserts the
/// entry at its place.
pub fn put(entries: &mut Vec<(String, Json)>, key: &str, value: Json)
    requires
        ordered(entries_view(old(entries)@)),
    ensures
        ordered(entries_view(final(entries)@)),
        lookup(entries_view(final(entries)@), key@) == Some(value@),
        forall|other: Seq<char>|
            other != key@ ==> lookup(entries_view(final(entries)@), other) == #[trigger] lookup(
                entries_view(old(entries)@),
                other,
            ),
{
    let ghost before = entries_view(entries@);
    let ghost keys = before.map_values(|e: (Seq<char>, Value)| e.0);
    let mut i: usize = 0;
    while i < entries.len() && text_less(entries[i].0.as_str(), key)
        invariant
            i <= entries@.len(),
            entries@ == old(entries)@,
            before == entries_view(entries@),
            keys == before.map_values(|e: (Seq<char>, Value)| e.0),
            forall|k: int| 0 <= k < i ==> precedes(#[trigger] keys[k], key@),
        decreases entries@.len() - i,
    {
        assert(keys[i as int] == entries@[i as int].0@);
        i = i + 1;
    }
    let ghost item = value@;
    if i < entries.len() && same(entries[i].0.as_str(), key) {
        entries.remove(i);
        proof {
            assert(keys[i as int] == key@);
        }
    }
    let ghost middle = entries_view(entries@);
    let ghost middle_keys = middle.map_values(|e: (Seq<char>, Value)| e.0);
    proof {
        if middle.len() < before.len() {
            assert(middle =~= before.remove(i as int));
        } else {
            assert(middle =~= before);
        }
        assert forall|k: int| i <= k < middle_keys.len() implies precedes(
            key@,
            #[trigger] middle_keys[k],
        ) by {
            assert(keys[i as int] == old(entries)@[i as int].0@);
            lemma_precedes_total(keys[i as int], key@);
            if middle.len() < before.len() {
                assert(middle_keys[k] == keys[k + 1]);
                assert(precedes(keys[i as int], keys[k + 1]));
            } else {
                assert(middle_keys[k] == keys[k]);
                if k > i {
                    assert(precedes(keys[i as int], keys[k]));
                    lemma_precedes_trans(key@, keys[i as int], keys[k], 0);
                }
            }
        }
        assert forall|a: int, b: int| 0 <= a < b < middle_keys.len() implies precedes(
            #[trigger] middle_keys[a],
            #[trigger] middle_keys[b],
        ) by {
            if middle.len() < before.len() {
                let x = if a < i { a } else { a + 1 };
                let y = if b < i { b } else { b + 1 };
                assert(middle_keys[a] == keys[x]);
                assert(middle_keys[b] == keys[y]);
            }
        }
        assert forall|k: int| 0 <= k < i implies precedes(#[trigger] middle_keys[k], key@) by {
            assert(middle_keys[k] == keys[k]);
        }
    }
    entries.insert(i, (key.to_owned(), value));
    proof {
        let after = entries_view(entries@);
        let after_keys = after.map_values(|e: (Seq<char>, Value)| e.0);
        assert(after =~= middle.insert(i as int, (key@, item)));
        assert(after_keys =~= middle_keys.insert(i as int, key@));
        assert forall|k: int| 0 <= k < i implies (#[trigger] after[k]).0 != key@ by {
            assert(after_keys[k] == middle_keys[k]);
            lemma_precedes_total(after_keys[k], key@);
        }
        lemma_lookup_skip(after, key@, i as int);
        assert(after.skip(i as int)[0] == (key@, item));
        assert forall|other: Seq<char>| other != key@ implies lookup(after, other)
            == #[trigger] lookup(before, other) by {
            lemma_lookup_insert(middle, i as int, key@, item, other);
            if middle.len() < before.len() {
                assert(before =~= middle.insert(i as int, before[i as int]));
                lemma_lookup_insert(middle, i as int, key@, before[i as int].1, other);
            }
        }
    }
}

proof fn lemma_lookup_insert(
    entries: Seq<(Seq<char>, Value)>,
    at: int,
    key: Seq<char>,
    value: Value,
    other: Seq<char>,
)
    requires
        0 <= at <= entries.len(),
        other != key,
    ensures
        lookup(entries.insert(at, (key, value)), other) == lookup(entries, other),
    decreases at,
{
    let more = entries.insert(at, (key, value));
    if at == 0 {
        assert(more.drop_first() =~= entries);
    } else {
        lemma_lookup_insert(entries.drop_first(), at - 1, key, value, other);
        assert(more.drop_first() =~= entries.drop_first().insert(at - 1, (key, value)));
    }
}

impl Json {
    /// The compact text of this value.
    pub fn to_text(&self) -> (out: String)
        ensures
            out@ == compact_text(self@),
    {
        let mut out = String::new();
        push_compact(&mut out, self);
        assert(out@ =~= compact_text(self@));
        out
    }

    /// A text value.
    pub fn text(value: &str) -> (out: Json)
        ensures
            out@ == Value::Text(value@),
    {
        Json::Text(value.to_owned())
    }

    /// The value under a key, when this is an object that has it.
    pub fn get(&self, key: &str) -> (value: Option<&Json>)
        ensures
            value matches Some(found) ==> member(self@, key@) == Some(found@),
            value is None ==> member(self@, key@) is None,
    {
        match self {
            Json::Object(entries) => {
                proof {
                    assert(self@->Object_0 =~= entries_view(entries@));
                }
                find(entries, key)
            },
            _ => None,
        }
    }

    /// The characters of a text value.
    pub fn as_text(&self) -> (text: Option<&str>)
        ensures
            text matches Some(found) ==> self@ == Value::Text(found@),
            text is Some <==> self@ is Text,
    {
        match self {
            Json::Text(text) => Some(text.as_str()),
            _ => None,
        }
    }

    /// The number, when this is a whole number of at least zero.
    pub fn as_unsigned(&self) -> (number: Option<u64>)
        ensures
            number == unsigned(self@),
    {
        match self {
            Json::Unsigned(n) => Some(*n),
            Json::Signed(n) => if *n >= 0 {
                Some(*n as u64)
            } else {
                None
            },
            _ => None,
        }
    }

    /// The flag, when this is a boolean.
    pub fn as_flag(&self) -> (flag: Option<bool>)
        ensures
            flag == (match self@ {
                Value::Bool(b) => Some(b),
                _ => None,
            }),
    {
        match self {
            Json::Bool(flag) => Some(*flag),
            _ => None,
        }
    }

    /// Copies a value.
    pub fn copy(&self) -> (out: Json)
        ensures
            out@ == self@,
    {
        copy_json(self)
    }
}

fn copy_json(value: &Json) -> (out: Json)
    ensures
        out@ == value@,
    decreases value,
{
    match value {
        Json::Null => Json::Null,
        Json::Bool(flag) => Json::Bool(*flag),
        Json::Unsigned(n) => Json::Unsigned(*n),
        Json::Signed(n) => Json::Signed(*n),
        Json::Real(literal) => Json::Real(literal.clone()),
        Json::Text(text) => Json::Text(text.clone()),
        Json::List(items) => {
            let mut out: Vec<Json> = Vec::new();
            let mut i: usize = 0;
            while i < items.len()
                invariant
                    i <= items@.len(),
                    *value is List,
                    value->List_0 == *items,
                    out@.len() == i,
                    forall|k: int| 0 <= k < i ==> (#[trigger] out@[k])@ == items@[k]@,
                decreases items@.len() - i,
            {
                out.push(copy_json(&items[i]));
                i = i + 1;
            }
            let copied = Json::List(out);
            assert(copied@->List_0 =~= value@->List_0);
            copied
        },
        Json::Object(entries) => {
            let mut out: Vec<(String, Json)> = Vec::new();
            let mut i: usize = 0;
            while i < entries.len()
                invariant
                    i <= entries@.len(),
                    *value is Object,
                    value->Object_0 == *entries,
                    out@.len() == i,
                    forall|k: int|
                        0 <= k < i ==> (#[trigger] out@[k]).0@ == entries@[k].0@ && out@[k].1@
                            == entries@[k].1@,
                decreases entries@.len() - i,
            {
                let pair = (entries[i].0.clone(), copy_json(&entries[i].1));
                out.push(pair);
                i = i + 1;
            }
            let copied = Json::Object(out);
            assert(copied@->Object_0 =~= value@->Object_0);
            copied
        },
    }
}

/// The value under a key of an object; other values have no members.
pub open spec fn member(value: Value, key: Seq<char>) -> Option<Value> {
    match value {
        Value::Object(entries) => lookup(entries, key),
        _ => None,
    }
}

/// The number of a value that is a whole number of at least zero.
pub open spec fn unsigned(value: Value) -> Option<u64> {
    match value {
        Value::Number(n) => if n >= 0 {
            Some(n as u64)
        } else {
            None
        },
        _ => None,
    }
}

/// The characters of a text value.
pub open spec fn text_of(value: Option<Value>) -> Option<Seq<char>> {
    match value {
        Some(Value::Text(text)) => Some(text),
        _ => None,
    }
}

/// The text under a key, when the key is there and holds text.
pub fn find_text<'a>(entries: &'a Vec<(String, Json)>, key: &str) -> (text: Option<&'a str>)
    ensures
        text matches Some(found) ==> text_of(lookup(entries_view(entries@), key@)) == Some(found@),
        text is None ==> text_of(lookup(entries_view(entries@), key@)) is None,
{
    match find(entries, key) {
        Some(value) => value.as_text(),
        None => None,
    }
}

/// Copies entries.
pub fn copy_entries(entries: &Vec<(String, Json)>) -> (out: Vec<(String, Json)>)
    ensures
        entries_view(out@) == entries_view(entries@),
{
    let mut out: Vec<(String, Json)> = Vec::new();
    let mut i: usize = 0;
    while i < entries.len()
        invariant
            i <= entries@.len(),
            out@.len() == i,
            forall|k: int|
                0 <= k < i ==> (#[trigger] out@[k]).0@ == entries@[k].0@ && out@[k].1@
                    == entries@[k].1@,
        decreases entries@.len() - i,
    {
        let pair = (entries[i].0.clone(), entries[i].1.copy());
        out.push(pair);
        i = i + 1;
    }
    assert(entries_view(out@) =~= entries_view(entries@));
    out
}

/// What a key holds once updates were applied in order: the last update of
/// it, or what it held.
pub open spec fn overlaid(
    entries: Seq<(Seq<char>, Value)>,
    updates: Seq<(Seq<char>, Value)>,
    key: Seq<char>,
) -> Option<Value>
    decreases updates.len(),
{
    if updates.len() == 0 {
        lookup(entries, key)
    } else if updates.last().0 == key {
        Some(updates.last().1)
    } else {
        overlaid(entries, updates.drop_last(), key)
    }
}

/// A key whose last update is at `i` holds that update.
pub proof fn lemma_overlaid_at(
    entries: Seq<(Seq<char>, Value)>,
    updates: Seq<(Seq<char>, Value)>,
    i: int,
)
    requires
        0 <= i < updates.len(),
        forall|j: int| i < j < updates.len() ==> (#[trigger] updates[j]).0 != updates[i].0,
    ensures
        overlaid(entries, updates, updates[i].0) == Some(updates[i].1),
    decreases updates.len(),
{
    if i + 1 < updates.len() {
        let shorter = updates.drop_last();
        assert(shorter[i] == updates[i]);
        lemma_overlaid_at(entries, shorter, i);
    }
}

/// A key without an update holds what it held.
pub proof fn lemma_overlaid_elsewhere(
    entries: Seq<(Seq<char>, Value)>,
    updates: Seq<(Seq<char>, Value)>,
    key: Seq<char>,
)
    requires
        forall|j: int| 0 <= j < updates.len() ==> (#[trigger] updates[j]).0 != key,
    ensures
        overlaid(entries, updates, key) == lookup(entries, key),
    decreases updates.len(),
{
    if updates.len() > 0 {
        lemma_overlaid_elsewhere(entries, updates.drop_last(), key);
    }
}

/// Sets several keys, in order.
pub fn put_all(entries: &mut Vec<(String, Json)>, updates: &Vec<(String, Json)>)
    requires
        ordered(entries_view(old(entries)@)),
    ensures
        ordered(entries_view(final(entries)@)),
        forall|key: Seq<char>| #[trigger]
            lookup(entries_view(final(entries)@), key) == overlaid(
                entries_view(old(entries)@),
                entries_view(updates@),
                key,
            ),
{
    let ghost base = entries_view(entries@);
    let ghost all = entries_view(updates@);
    let mut i: usize = 0;
    assert(all.take(0) =~= Seq::empty());
    while i < updates.len()
        invariant
            i <= updates@.len(),
            all == entries_view(updates@),
            ordered(entries_view(entries@)),
            forall|key: Seq<char>| #[trigger]
                lookup(entries_view(entries@), key) == overlaid(base, all.take(i as int), key),
        decreases updates@.len() - i,
    {
        let ghost before = entries_view(entries@);
        put(entries, updates[i].0.as_str(), updates[i].1.copy());
        proof {
            assert(all.take(i + 1).drop_last() =~= all.take(i as int));
            assert(all.take(i + 1).last() == all[i as int]);
            assert forall|key: Seq<char>| #[trigger]
                lookup(entries_view(entries@), key) == overlaid(base, all.take(i + 1), key) by {
                if key != updates@[i as int].0@ {
                    assert(lookup(before, key) == overlaid(base, all.take(i as int), key));
                }
            }
        }
        i = i + 1;
    }
    assert(all.take(all.len() as int) =~= all);
}

/// Sets the keys that are not there yet, in order.
pub fn put_missing(entries: &mut Vec<(String, Json)>, defaults: &Vec<(String, Json)>)
    requires
        ordered(entries_view(old(entries)@)),
    ensures
        ordered(entries_view(final(entries)@)),
        forall|key: Seq<char>| #[trigger]
            lookup(entries_view(final(entries)@), key) == match lookup(
                entries_view(old(entries)@),
                key,
            ) {
                Some(value) => Some(value),
                None => lookup(entries_view(defaults@), key),
            },
{
    let ghost base = entries_view(entries@);
    let ghost all = entries_view(defaults@);
    let mut i: usize = 0;
    assert(all.take(0) =~= Seq::empty());
    while i < defaults.len()
        invariant
            i <= defaults@.len(),
            all == entries_view(defaults@),
            ordered(entries_view(entries@)),
            forall|key: Seq<char>| #[trigger]
                lookup(entries_view(entries@), key) == match lookup(base, key) {
                    Some(value) => Some(value),
                    None => lookup(all.take(i as int), key),
                },
        decreases defaults@.len() - i,
    {
        let ghost before = entries_view(entries@);
        let missing = find(entries, defaults[i].0.as_str()).is_none();
        if missing {
            put(entries, defaults[i].0.as_str(), defaults[i].1.copy());
        }
        proof {
            let entry = all[i as int];
            assert(entry == (defaults@[i as int].0@, defaults@[i as int].1@));
            assert(all.take(i + 1) =~= all.take(i as int).push(entry));
            assert forall|key: Seq<char>| #[trigger]
                lookup(entries_view(entries@), key) == match lookup(base, key) {
                    Some(value) => Some(value),
                    None => lookup(all.take(i + 1), key),
                } by {
                lemma_lookup_push(all.take(i as int), entry, key);
                assert(lookup(before, key) == match lookup(base, key) {
                    Some(value) => Some(value),
                    None => lookup(all.take(i as int), key),
                });
            }
        }
        i = i + 1;
    }
    assert(all.take(all.len() as int) =~= all);
}

proof fn lemma_lookup_push(
    entries: Seq<(Seq<char>, Value)>,
    entry: (Seq<char>, Value),
    key: Seq<char>,
)
    ensures
        lookup(entries.push(entry), key) == match lookup(entries, key) {
            Some(value) => Some(value),
            None => if entry.0 == key {
                Some(entry.1)
            } else {
                None
            },
        },
    decreases entries.len(),
{
    let more = entries.push(entry);
    if entries.len() == 0 {
        assert(more[0] == entry);
        assert(more.drop_first() =~= Seq::empty());
        assert(lookup(more.drop_first(), key) is None);
    } else {
        assert(more[0] == entries[0]);
        assert(more.drop_first() =~= entries.drop_first().push(entry));
        lemma_lookup_push(entries.drop_first(), entry, key);
    }
}

/// A list of texts.
pub open spec fn text_list(texts: Seq<Seq<char>>) -> Value {
    Value::List(texts.map_values(|t: Seq<char>| Value::Text(t)))
}

impl Json {
    /// A list of texts.
    pub fn text_list(list: &Vec<String>) -> (out: Json)
        ensures
            out@ == text_list(texts(list@)),
    {
        let mut items: Vec<Json> = Vec::new();
        let mut i: usize = 0;
        while i < list.len()
            invariant
                i <= list@.len(),
                items@.len() == i,
                forall|k: int| 0 <= k < i ==> (#[trigger] items@[k])@ == Value::Text(list@[k]@),
            decreases list@.len() - i,
        {
            items.push(Json::text(list[i].as_str()));
            i = i + 1;
        }
        let out = Json::List(items);
        assert(out@->List_0 =~= text_list(texts(list@))->List_0);
        out
    }

    /// An object with these entries.
    pub fn object(entries: Vec<(String, Json)>) -> (out: Json)
        ensures
            out@ == Value::Object(entries_view(entries@)),
    {
        let ghost view = entries_view(entries@);
        let out = Json::Object(entries);
        assert(out@->Object_0 =~= view);
        out
    }
}

/// A list is written as its items, each in its own form, with commas between and
/// brackets around; and an object as its entries, each with its key.
pub proof fn a_value_is_written_by_its_parts(items: Seq<Value>, entries: Seq<(Seq<char>, Value)>)
    ensures
        compact_text(Value::List(items)) == seq!['['] + joined(
            items.map_values(|v: Value| compact_text(v)),
            seq![','],
        ) + seq![']'],
        compact_text(Value::Object(entries)) == seq!['{'] + joined(
            entries.map_values(
                |e: (Seq<char>, Value)| string_literal(e.0) + seq![':'] + compact_text(e.1),
            ),
            seq![','],
        ) + seq!['}'],
{
    lemma_items_joined(items, items.len());
    lemma_entries_joined(entries, entries.len());
    assert(items.take(items.len() as int) =~= items);
    assert(entries.take(entries.len() as int) =~= entries);
}

proof fn lemma_items_joined(items: Seq<Value>, n: nat)
    requires
        n <= items.len(),
    ensures
        items_text(items, n) == joined(
            items.take(n as int).map_values(|v: Value| compact_text(v)),
            seq![','],
        ),
    decreases n,
{
    let written = |v: Value| compact_text(v);
    let list = items.take(n as int).map_values(written);
    if n > 0 {
        lemma_items_joined(items, (n - 1) as nat);
        assert(list.drop_last() =~= items.take(n - 1).map_values(written));
        assert(list.last() == compact_text(items[n - 1]));
    }
    assert(items_text(items, n) =~= joined(list, seq![',']));
}

proof fn lemma_entries_joined(entries: Seq<(Seq<char>, Value)>, n: nat)
    requires
        n <= entries.len(),
    ensures
        entries_text(entries, n) == joined(
            entries.take(n as int).map_values(
                |e: (Seq<char>, Value)| string_literal(e.0) + seq![':'] + compact_text(e.1),
            ),
            seq![','],
        ),
    decreases n,
{
    let written = |e: (Seq<char>, Value)| string_literal(e.0) + seq![':'] + compact_text(e.1);
    let list = entries.take(n as int).map_values(written);
    if n > 0 {
        lemma_entries_joined(entries, (n - 1) as nat);
        assert(list.drop_last() =~= entries.take(n - 1).map_values(written));
        assert(list.last() == string_literal(entries[n - 1].0) + seq![':'] + compact_text(
            entries[n - 1].1,
        ));
    }
    assert(entries_text(entries, n) =~= joined(list, seq![',']));
}

/// A plain value is written as it is: the three names, a number in decimal, a
/// real as it was written and a text as its literal.
pub proof fn a_plain_value_is_written_as_it_is(n: int, text: Seq<char>)
    ensures
        compact_text(Value::Null) == "null"@,
        compact_text(Value::Bool(true)) == "true"@,
        compact_text(Value::Bool(false)) == "false"@,
        compact_text(Value::Number(n)) == signed_decimal(n),
        compact_text(Value::Real(text)) == text,
        compact_text(Value::Text(text)) == string_literal(text),
{
    reveal_strlit("null");
    reveal_strlit("true");
    reveal_strlit("false");
    assert(compact_text(Value::Null) =~= "null"@);
    assert(compact_text(Value::Bool(true)) =~= "true"@);
    assert(compact_text(Value::Bool(false)) =~= "false"@);
}

} // verus!
