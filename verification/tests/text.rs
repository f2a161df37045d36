use agentos_core::json::{put, put_all, put_missing, Json};
use agentos_core::lists::{ascii_words_of, fields_of, insert_sorted, join, split, words_of};
use agentos_core::ranking::descending_order;
use agentos_core::text::{
    ascii_alnum_char, byte_length, contains, control_char, lower_char, push_decimal, space_char,
    split_once, strip_prefix, strip_suffix, to_lower, trim, trim_end, width_of,
};

#[test]
fn character_classes_agree_with_the_standard_library() {
    for n in 0..=0x10ffffu32 {
        let Some(c) = char::from_u32(n) else {
            continue;
        };
        assert_eq!(space_char(c), c.is_whitespace(), "{n:#x}");
        assert_eq!(control_char(c), c.is_control(), "{n:#x}");
        assert_eq!(ascii_alnum_char(c), c.is_ascii_alphanumeric(), "{n:#x}");
        assert_eq!(lower_char(c), c.to_ascii_lowercase(), "{n:#x}");
        assert_eq!(width_of(c), c.len_utf8(), "{n:#x}");
    }
}

#[test]
fn text_is_cut_as_the_standard_library_cuts_it() {
    for s in ["", " ", " a b ", "\u{3000}héllo\u{a0}\n", "x", "a\tb\u{2028}c"] {
        assert_eq!(trim(s), s.trim());
        assert_eq!(trim_end(s), s.trim_end());
        assert_eq!(to_lower(s), s.to_ascii_lowercase());
        assert_eq!(byte_length(s), s.len());
        assert_eq!(
            fields_of(s),
            s.split_whitespace().collect::<Vec<&str>>()
        );
        assert_eq!(
            words_of(s),
            s.split(|c: char| !c.is_alphanumeric())
                .filter(|word| !word.is_empty())
                .collect::<Vec<&str>>()
        );
        assert_eq!(split(s, ' '), s.split(' ').collect::<Vec<&str>>());
    }
    assert_eq!(ascii_words_of("re-run it2 é"), vec!["re", "run", "it2"]);
    assert_eq!(
        split_once("a: b: c", ": "),
        Some(("a".to_owned(), "b: c".to_owned()))
    );
    assert_eq!(split_once("abc", ":"), None);
    assert_eq!(strip_prefix("shell:ls", "shell:").as_deref(), Some("ls"));
    assert_eq!(strip_prefix("ls", "shell:"), None);
    assert_eq!(strip_suffix("x```", "```").as_deref(), Some("x"));
    assert_eq!(strip_suffix("x", "```"), None);
    assert!(contains("keys rotate", "s ro"));
    assert!(!contains("keys", "keyss"));
}

#[test]
fn numbers_are_written_in_decimal() {
    for n in [0u64, 7, 10, 1234567890, u64::MAX] {
        let mut out = String::new();
        push_decimal(&mut out, n);
        assert_eq!(out, n.to_string());
    }
}

#[test]
fn lists_are_kept_in_order_without_repeats() {
    let mut list = Vec::new();
    for word in ["b", "a", "é", "b", "ab"] {
        insert_sorted(&mut list, word);
    }
    assert_eq!(list, vec!["a", "ab", "b", "é"]);
    assert_eq!(join(&list, ", "), "a, ab, b, é");
    assert_eq!(descending_order(&vec![3, 9, 3, 1]), vec![1, 0, 2, 3]);
}

fn serde(value: &Json) -> serde_json::Value {
    serde_json::from_str(&value.to_text()).expect("the text is valid JSON")
}

#[test]
fn values_are_written_as_serde_writes_them() {
    let value = Json::Object(vec![
        ("a \"quoted\" key\n".to_owned(), Json::Null),
        (
            "list".to_owned(),
            Json::List(vec![
                Json::Bool(true),
                Json::Bool(false),
                Json::Unsigned(u64::MAX),
                Json::Signed(i64::MIN),
                Json::Real("0.5".to_owned()),
                Json::Text("tab\t and 今".to_owned()),
                Json::List(Vec::new()),
                Json::Object(Vec::new()),
            ]),
        ),
    ]);
    let parsed = serde(&value);
    assert_eq!(serde_json::to_string(&parsed).expect("serializes"), value.to_text());
    assert_eq!(
        serde_json::to_string_pretty(&parsed).expect("serializes"),
        value.to_pretty()
    );
    assert_eq!(parsed["list"][3], i64::MIN);
}

#[test]
fn entries_are_kept_in_key_order() {
    let mut entries = Vec::new();
    put(&mut entries, "b", Json::Unsigned(1));
    put(&mut entries, "a", Json::Unsigned(2));
    put(&mut entries, "b", Json::Unsigned(3));
    put_missing(
        &mut entries,
        &vec![
            ("a".to_owned(), Json::Null),
            ("c".to_owned(), Json::Unsigned(4)),
        ],
    );
    put_all(
        &mut entries,
        &vec![
            ("d".to_owned(), Json::Unsigned(5)),
            ("d".to_owned(), Json::Unsigned(6)),
        ],
    );
    assert_eq!(
        Json::Object(entries).to_text(),
        r#"{"a":2,"b":3,"c":4,"d":6}"#
    );
}

#[test]
fn a_string_is_escaped_as_json_asks() {
    let raw = "a\"b\\c/\u{8}\u{c}\n\r\t\u{1}\u{1f}\u{7f}é今";
    assert_eq!(
        Json::Text(raw.to_owned()).to_text(),
        "\"a\\\"b\\\\c/\\b\\f\\n\\r\\t\\u0001\\u001f\u{7f}é今\""
    );
}
