use agentos_core::json::Json;
use agentos_core::message::{
    Item, Message, MessageRole, SandboxMode, ToolCall, ToolSpec, Transcript,
};
use agentos_core::prompt::compact::{
    finish_compaction, is_under_pressure, last_pressure_percent, plan_summary, pressure_percent,
    record_summary, render_span, select_span, summary_request, CompactionConfig, Span,
    MIN_SPAN_ITEMS, SUMMARY_PREFIX,
};
use agentos_core::prompt::gateway::{record, Usage};
use agentos_core::prompt::projection::{checkpoint, is_checkpoint, visible, visible_positions};
use agentos_core::prompt::prune::{
    to_fit, Budget, Elision, ELIDED_BYTES_KEY, MIN_PRUNABLE_BYTES, SPILL_LOCATOR_KEY,
};
use agentos_core::prompt::sections::{memory_message, MemoryFragment, RequestSource};
use agentos_core::prompt::tokens::{
    estimate_message, estimate_messages, estimate_text, estimate_tool_specs,
    try_estimate_tool_specs, MESSAGE_OVERHEAD_TOKENS,
};
use agentos_core::prompt::{
    assemble, try_assemble, RequestKind, RunContext, SectionId, SkillPrelude,
};
use agentos_core::state::{RunState, TraceEvent};

fn object(entries: Vec<(&str, Json)>) -> Json {
    Json::Object(
        entries
            .into_iter()
            .map(|(key, value)| (key.to_owned(), value))
            .collect(),
    )
}

fn text(value: &str) -> Json {
    Json::Text(value.to_owned())
}

fn metadata_of<'a>(message: &'a Message, key: &str) -> Option<&'a Json> {
    message
        .metadata
        .iter()
        .find(|(name, _)| name == key)
        .map(|(_, value)| value)
}

// Tokens.

#[test]
fn ascii_text_uses_the_four_to_one_rate() {
    // 16 ASCII characters -> 4 tokens.
    assert_eq!(estimate_text("abcdefghijklmnop"), 4);
    // Partial groups round up rather than truncating toward an
    // under-estimate.
    assert_eq!(estimate_text("abcde"), 2);
}

#[test]
fn cjk_text_is_not_divided_by_four() {
    let text = "今天天气很好啊哈";
    assert_eq!(text.chars().count(), 8);
    assert_eq!(estimate_text(text), 8);
}

#[test]
fn mixed_scripts_are_counted_per_character_class() {
    // 8 ASCII (2 tokens) + 4 CJK (4 tokens).
    assert_eq!(
        estimate_text("deploy: 部署完成"),
        estimate_text("deploy: ") + 4
    );
}

#[test]
fn a_message_costs_its_envelope_plus_its_text() {
    let message = Message::text(MessageRole::User, "abcdefghijklmnop");
    assert_eq!(estimate_message(&message), MESSAGE_OVERHEAD_TOKENS + 4);
}

#[test]
fn tool_call_payloads_are_counted() {
    let bare = Message::text(MessageRole::Assistant, "");
    let mut calling = bare.copy();
    calling.tool_calls.push(ToolCall {
        id: "call-1".to_owned(),
        name: "shell".to_owned(),
        args: r#"{"command":"ls","args":["-la"]}"#.to_owned(),
    });
    assert!(estimate_message(&calling) > estimate_message(&bare));
}

fn echo_tool() -> ToolSpec {
    ToolSpec {
        name: "echo".to_owned(),
        description: "Echo the text argument back verbatim.".to_owned(),
        input_schema: object(vec![
            (
                "properties",
                object(vec![("text", object(vec![("type", text("string"))]))]),
            ),
            ("required", Json::List(vec![text("text")])),
            ("type", text("object")),
        ]),
        sandbox: SandboxMode::FullAccess,
        timeout_ms: None,
    }
}

#[test]
fn tool_schemas_are_counted() {
    let tools = vec![echo_tool()];
    assert!(estimate_tool_specs(&tools) > 20);
    assert_eq!(estimate_tool_specs(&Vec::new()), 0);
}

#[test]
fn two_texts_together_cost_no_more_than_both() {
    for (left, right) in [("abcde", "f"), ("a", "研究"), ("", "abc"), ("研a", "b")] {
        let both = estimate_text(&format!("{left}{right}"));
        let (one, other) = (estimate_text(left), estimate_text(right));
        assert!(both >= one && both >= other && both <= one + other);
        assert_eq!(both, estimate_text(&format!("{right}{left}")));
    }
    assert_eq!(estimate_text("abcdef"), 2);
}

#[test]
fn the_estimate_never_falls_below_the_character_count_for_cjk() {
    for text in ["日本語のテキスト", "한국어 텍스트", "中文文本"] {
        let wide = text.chars().filter(|c| !c.is_ascii()).count();
        assert!(estimate_text(text) >= wide, "under-estimated {text}");
    }
}

#[test]
fn a_schema_is_counted_as_it_is_written() {
    let tools = vec![echo_tool()];
    let schema = r#"{"properties":{"text":{"type":"string"}},"required":["text"],"type":"object"}"#;
    let expected = estimate_text("echo")
        + estimate_text("Echo the text argument back verbatim.")
        + estimate_text(schema);
    assert_eq!(estimate_tool_specs(&tools), expected);
    assert_eq!(try_estimate_tool_specs(&tools), Some(expected));
}

#[test]
fn several_messages_cost_their_sum() {
    let messages = vec![
        Message::text(MessageRole::User, "abcd"),
        Message::text(MessageRole::Assistant, "今天"),
    ];
    assert_eq!(
        estimate_messages(&messages),
        (MESSAGE_OVERHEAD_TOKENS + 1) + (MESSAGE_OVERHEAD_TOKENS + 2)
    );
}

// Sections.

fn fragment_with(body: Json) -> MemoryFragment {
    MemoryFragment {
        id: None,
        namespace: "private/conversation/c/semantic/general".to_owned(),
        body,
        metadata: Vec::new(),
    }
}

#[test]
fn no_fragments_render_no_message() {
    assert!(memory_message(&Vec::new()).is_none());
}

#[test]
fn each_body_shape_renders_readable_text() {
    let message = memory_message(&vec![
        fragment_with(object(vec![("fact", text("keys rotate every 90 days"))])),
        fragment_with(object(vec![("summary", text("deploys run at 02:00 UTC"))])),
        fragment_with(text("a bare string body")),
        fragment_with(object(vec![("unrecognized", Json::Unsigned(7))])),
    ])
    .expect("fragments render a message");

    assert_eq!(message.role, MessageRole::System);
    assert!(message.content.contains("- keys rotate every 90 days"));
    assert!(message.content.contains("- deploys run at 02:00 UTC"));
    assert!(message.content.contains("- a bare string body"));
    // Unrecognized shapes fall back to compact JSON rather than vanishing.
    assert!(message.content.contains(r#"- {"unrecognized":7}"#));
}

#[test]
fn fact_key_wins_over_later_keys() {
    let message = memory_message(&vec![fragment_with(object(vec![
        ("fact", text("preferred")),
        ("text", text("ignored")),
    ]))])
    .expect("fragments render a message");
    assert!(message.content.contains("preferred"));
    assert!(!message.content.contains("ignored"));
}

// Projection.

fn user_item(content: &str) -> Item {
    Item {
        message: Message::text(MessageRole::User, content),
        metadata: Vec::new(),
    }
}

fn transcript(items: Vec<Item>) -> Transcript {
    Transcript { items }
}

fn contents(items: &[&Item]) -> Vec<String> {
    items
        .iter()
        .map(|item| item.message.content.clone())
        .collect()
}

fn summary(content: &str, start: usize, end: usize) -> Item {
    checkpoint(Message::text(MessageRole::User, content), start, end)
}

#[test]
fn a_checkpoint_hides_the_range_it_summarizes() {
    let log = transcript(vec![
        user_item("a"),
        user_item("b"),
        user_item("c"),
        summary("summary of a..b", 0, 1),
        user_item("d"),
    ]);
    assert_eq!(contents(&visible(&log)), vec!["c", "summary of a..b", "d"]);
}

#[test]
fn a_later_checkpoint_may_hide_an_earlier_one() {
    let log = transcript(vec![
        user_item("a"),
        user_item("b"),
        summary("first", 0, 1),
        user_item("c"),
        summary("second", 0, 3),
        user_item("d"),
    ]);
    assert_eq!(contents(&visible(&log)), vec!["second", "d"]);
}

#[test]
fn hiding_a_checkpoint_does_not_resurrect_what_it_hid() {
    let log = transcript(vec![
        user_item("a"),
        user_item("b"),
        summary("first", 0, 1),
        summary("second", 2, 2),
        user_item("c"),
    ]);
    assert_eq!(contents(&visible(&log)), vec!["second", "c"]);
}

#[test]
fn malformed_ranges_are_ignored_rather_than_applied() {
    for (start, end, case) in [
        (2usize, 1usize, "reversed"),
        (0, 99, "past the end"),
        (0, 3, "reaching the checkpoint itself"),
        (4, 5, "entirely after the checkpoint"),
    ] {
        let log = transcript(vec![
            user_item("a"),
            user_item("b"),
            user_item("c"),
            summary("bad", start, end),
            user_item("d"),
        ]);
        assert_eq!(
            contents(&visible(&log)),
            vec!["a", "b", "c", "bad", "d"],
            "a {case} range must hide nothing"
        );
    }
}

#[test]
fn a_log_without_checkpoints_shows_everything() {
    for count in 0..12usize {
        let log = transcript((0..count).map(|n| user_item(&n.to_string())).collect());
        assert_eq!(
            visible_positions(&log),
            (0..count).collect::<Vec<usize>>()
        );
    }
}

#[test]
fn a_checkpoint_never_hides_itself_and_order_is_kept() {
    for count in 1..8usize {
        for start in 0..10usize {
            for end in 0..10usize {
                let mut items: Vec<Item> = (0..count).map(|n| user_item(&n.to_string())).collect();
                items.push(summary("checkpoint", start, end));
                let log = transcript(items);
                let positions = visible_positions(&log);
                assert!(positions.windows(2).all(|pair| pair[0] < pair[1]));
                assert_eq!(positions.last(), Some(&count));
                assert!(is_checkpoint(&log.items[count]));
            }
        }
    }
}

// Pruning.

fn tool_result(bytes: usize) -> Message {
    let mut content = String::from("HEAD-MARKER");
    content.push_str(&"x".repeat(bytes - "HEAD-MARKER".len() - "TAIL-MARKER".len()));
    content.push_str("TAIL-MARKER");
    tool_message(content)
}

fn tool_message(content: String) -> Message {
    Message {
        role: MessageRole::Tool,
        content,
        attachments: Vec::new(),
        tool_calls: Vec::new(),
        tool_call_id: Some("call-1".to_owned()),
        metadata: Vec::new(),
    }
}

/// A budget the messages of these tests exceed.
fn tight() -> Budget {
    Budget {
        context_budget_tokens: Some(1_000),
        reserved_tokens: 0,
    }
}

#[test]
fn a_request_within_the_ceiling_is_untouched() {
    let mut messages = vec![tool_result(64 * 1024)];
    let original = messages[0].content.clone();

    let elision = to_fit(
        &mut messages,
        &Budget {
            context_budget_tokens: Some(1_000_000),
            reserved_tokens: 0,
        },
    );

    assert_eq!(elision, Elision::default());
    assert_eq!(messages[0].content, original);
}

#[test]
fn without_a_resolved_window_nothing_is_elided() {
    let mut messages = vec![tool_result(512 * 1024)];
    let original = messages[0].content.clone();

    let elision = to_fit(
        &mut messages,
        &Budget {
            context_budget_tokens: None,
            reserved_tokens: 0,
        },
    );

    assert_eq!(elision, Elision::default());
    assert_eq!(messages[0].content, original);
}

#[test]
fn elision_keeps_both_ends_and_names_the_byte_count() {
    let mut messages = vec![tool_result(64 * 1024)];
    let elision = to_fit(&mut messages, &tight());

    assert_eq!(elision.messages, 1);
    let content = &messages[0].content;
    assert!(content.starts_with("HEAD-MARKER"));
    assert!(content.ends_with("TAIL-MARKER"));
    assert!(content.contains(&format!("{} bytes elided", elision.chars)));
    assert!(content.len() < 64 * 1024);
    assert!(matches!(
        metadata_of(&messages[0], ELIDED_BYTES_KEY),
        Some(Json::Unsigned(bytes)) if *bytes == elision.chars as u64
    ));
}

#[test]
fn a_spilled_result_cites_its_locator_in_the_marker() {
    let mut messages = vec![tool_result(64 * 1024)];
    messages[0].metadata.push((
        SPILL_LOCATOR_KEY.to_owned(),
        text("/w/spill/run-1/shell-call_1.txt"),
    ));

    to_fit(&mut messages, &tight());

    assert!(messages[0]
        .content
        .contains("/w/spill/run-1/shell-call_1.txt"));
    assert!(!messages[0].content.contains("cannot be read back"));
}

#[test]
fn an_unspilled_result_says_so_rather_than_implying_recovery() {
    let mut messages = vec![tool_result(64 * 1024)];
    to_fit(&mut messages, &tight());
    assert!(messages[0].content.contains("cannot be read back"));
}

#[test]
fn the_oldest_result_is_pruned_first_and_the_newest_kept_longest() {
    let mut messages = vec![tool_result(64 * 1024), tool_result(8 * 1024)];
    let newest = messages[1].content.clone();

    // A ceiling that the pair exceeds but that one elision brings it under.
    let elision = to_fit(
        &mut messages,
        &Budget {
            context_budget_tokens: Some(6_000),
            reserved_tokens: 0,
        },
    );

    assert_eq!(elision.messages, 1);
    assert!(metadata_of(&messages[0], ELIDED_BYTES_KEY).is_some());
    assert_eq!(messages[1].content, newest);
}

#[test]
fn only_tool_results_are_candidates() {
    let mut messages = vec![
        Message::text(MessageRole::User, &"u".repeat(64 * 1024)),
        Message::text(MessageRole::Assistant, &"a".repeat(64 * 1024)),
    ];
    let original: Vec<String> = messages
        .iter()
        .map(|message| message.content.clone())
        .collect();

    let elision = to_fit(&mut messages, &tight());

    assert_eq!(elision, Elision::default());
    assert_eq!(messages[0].content, original[0]);
    assert_eq!(messages[1].content, original[1]);
}

#[test]
fn a_result_barely_over_the_keep_window_is_left_whole() {
    let mut messages = vec![tool_result(MIN_PRUNABLE_BYTES - 1)];
    let original = messages[0].content.clone();

    assert_eq!(to_fit(&mut messages, &tight()), Elision::default());
    assert_eq!(messages[0].content, original);
}

#[test]
fn elision_never_splits_a_multibyte_character() {
    for filler in ["今", "日本語", "🙂"] {
        let body = filler.repeat(MIN_PRUNABLE_BYTES);
        let mut messages = vec![tool_message(body)];

        let elision = to_fit(&mut messages, &tight());

        assert_eq!(elision.messages, 1, "{filler} result was not elided");
        assert!(messages[0].content.starts_with(filler));
        assert!(messages[0].content.ends_with(filler));
    }
}

#[test]
fn what_was_removed_is_counted_in_characters() {
    let mut messages = vec![tool_message("今".repeat(4096))];
    let elision = to_fit(&mut messages, &tight());
    assert_eq!(
        elision,
        Elision {
            messages: 1,
            chars: 3073
        }
    );
    // The marker and the metadata count bytes.
    assert!(messages[0].content.contains("9219 bytes elided"));
    assert!(matches!(
        metadata_of(&messages[0], ELIDED_BYTES_KEY),
        Some(Json::Unsigned(9219))
    ));
}

#[test]
fn elision_is_deterministic_across_runs() {
    let mut first = vec![tool_result(64 * 1024), tool_result(64 * 1024)];
    let mut second: Vec<Message> = first.iter().map(Message::copy).collect();

    assert_eq!(to_fit(&mut first, &tight()), to_fit(&mut second, &tight()));
    assert_eq!(first.len(), second.len());
    for (left, right) in first.iter().zip(second.iter()) {
        assert_eq!(left.role, right.role);
        assert_eq!(left.content, right.content);
        assert_eq!(left.tool_call_id, right.tool_call_id);
        assert_eq!(rendered(&left.attachments), rendered(&right.attachments));
        let calls = |message: &Message| -> Vec<(String, String, String)> {
            let calls = message.tool_calls.iter();
            calls
                .map(|call| (call.id.clone(), call.name.clone(), call.args.clone()))
                .collect()
        };
        assert_eq!(calls(left), calls(right));
        let entries = |message: &Message| -> Vec<(String, String)> {
            let entries = message.metadata.iter();
            entries
                .map(|(key, value)| (key.clone(), value.to_text()))
                .collect()
        };
        assert_eq!(entries(left), entries(right));
    }
}

fn rendered(values: &[Json]) -> Vec<String> {
    values.iter().map(Json::to_text).collect()
}

#[test]
fn elision_stops_once_the_request_fits() {
    let mut messages = vec![
        tool_result(256 * 1024),
        tool_result(8 * 1024),
        tool_result(8 * 1024),
    ];
    let untouched = messages[2].content.clone();

    let elision = to_fit(
        &mut messages,
        &Budget {
            context_budget_tokens: Some(8_000),
            reserved_tokens: 0,
        },
    );

    assert_eq!(elision.messages, 1);
    assert_eq!(messages[2].content, untouched);
}

// Compaction.

fn item(role: MessageRole, content: &str) -> Item {
    Item {
        message: Message::text(role, content),
        metadata: Vec::new(),
    }
}

fn call_item(id: &str) -> Item {
    let mut message = Message::text(MessageRole::Assistant, "");
    message.tool_calls.push(ToolCall {
        id: id.to_owned(),
        name: "shell".to_owned(),
        args: r#"{"command":"ls"}"#.to_owned(),
    });
    Item {
        message,
        metadata: Vec::new(),
    }
}

fn result_item(id: &str) -> Item {
    let mut message = Message::text(MessageRole::Tool, "output");
    message.tool_call_id = Some(id.to_owned());
    Item {
        message,
        metadata: Vec::new(),
    }
}

fn chat(turns: usize) -> Vec<Item> {
    (0..turns)
        .flat_map(|index| {
            [
                item(MessageRole::User, &format!("question {index}")),
                item(MessageRole::Assistant, &format!("answer {index}")),
            ]
        })
        .collect()
}

#[test]
fn a_short_conversation_is_not_compacted() {
    let log = transcript(chat(3));
    assert_eq!(select_span(&log, 8, 100_000), None);
}

#[test]
fn the_span_stops_short_of_the_retained_tail() {
    let log = transcript(chat(10));
    let span = select_span(&log, 8, 100_000).expect("20 items leaves a span past an 8 tail");
    assert_eq!(span.start, 0);
    // 20 items, 8 retained, so the newest summarizable position is 11.
    assert_eq!(span.end, 11);
    assert_eq!(span.items, 12);
}

#[test]
fn a_span_never_splits_a_tool_call_from_its_result() {
    let mut items = chat(5);
    items.push(call_item("call-1"));
    items.push(result_item("call-1"));
    items.extend(chat(4));
    let log = transcript(items);

    let span = select_span(&log, 4, 100_000).expect("a span exists");
    let message = &log.items[span.end].message;
    assert!(
        message.tool_calls.is_empty(),
        "a span may not end on an unanswered tool call"
    );
}

#[test]
fn a_span_too_large_for_the_summarizer_is_cut_shorter() {
    let log = transcript(chat(20));
    let generous = select_span(&log, 4, 100_000).expect("a span exists");
    let tight = select_span(&log, 4, 60).expect("a smaller span still exists");
    assert!(tight.end < generous.end, "{tight:?} vs {generous:?}");
}

#[test]
fn a_second_pass_subsumes_the_first_checkpoint() {
    let mut items = chat(10);
    items.push(checkpoint(
        Message::text(MessageRole::User, "first summary"),
        0,
        11,
    ));
    items.extend(chat(10));
    let log = transcript(items);

    let span = select_span(&log, 4, 100_000).expect("a second span exists");
    assert_eq!(span.start, 0);
    assert!(
        span.end > 20,
        "the second span must cover the first summary"
    );

    // Applying it hides the first checkpoint along with everything else.
    let mut with_second: Vec<Item> = log.items.iter().map(Item::copy).collect();
    with_second.push(checkpoint(
        Message::text(MessageRole::User, "second summary"),
        span.start,
        span.end,
    ));
    let second = transcript(with_second);
    let projected = visible(&second);
    assert!(!projected
        .iter()
        .any(|item| item.message.content.contains("first summary")));
}

#[test]
fn rendering_names_the_tool_a_call_turn_invoked() {
    let log = transcript(vec![
        item(MessageRole::User, "list the directory"),
        call_item("call-1"),
        result_item("call-1"),
    ]);
    let rendered = render_span(
        &log,
        &Span {
            start: 0,
            end: 2,
            items: 3,
        },
        100_000,
    );
    assert!(rendered.text.contains("called shell with"));
    assert!(rendered.text.contains("user: list the directory"));
}

fn header_event(percent: Option<u64>) -> TraceEvent {
    TraceEvent {
        span: 0,
        name: "request_header".to_owned(),
        fields: match percent {
            Some(percent) => vec![("pressure_percent".to_owned(), Json::Unsigned(percent))],
            None => Vec::new(),
        },
    }
}

#[test]
fn pressure_is_read_from_the_last_request_header() {
    let mut state = RunState::new("r", "a");
    assert_eq!(last_pressure_percent(&state), None);

    for percent in [40u64, 93] {
        state.trace_events.push(header_event(Some(percent)));
    }
    // The newest reading wins; an older, calmer turn must not mask it.
    assert_eq!(last_pressure_percent(&state), Some(93));
}

#[test]
fn a_run_with_no_request_yet_still_reads_pressure_from_its_transcript() {
    let mut state = RunState::new("r", "a");
    state.transcript.items = chat(40);
    assert!(state.trace_events.is_empty());
    assert!(pressure_percent(&state, 200) > 90);
}

#[test]
fn the_exact_header_reading_wins_when_it_is_higher() {
    let mut state = RunState::new("r", "a");
    state.transcript.items = chat(1);
    state.trace_events.push(header_event(Some(97)));
    assert_eq!(pressure_percent(&state, 1_000_000), 97);
}

#[test]
fn an_unmeasured_window_reads_as_no_pressure_rather_than_low() {
    let mut state = RunState::new("r", "a");
    state.trace_events.push(header_event(None));
    assert_eq!(last_pressure_percent(&state), None);
}

#[test]
fn compaction_waits_for_pressure() {
    let config = CompactionConfig {
        enabled: true,
        pressure_percent: 80,
        retain_tail_turns: 4,
    };
    let mut state = RunState::new("r", "a");
    state.transcript.items = chat(2);
    state.trace_events.push(header_event(Some(79)));
    assert!(!is_under_pressure(&state, &config, Some(1_000_000)));
    state.trace_events.push(header_event(Some(80)));
    assert!(is_under_pressure(&state, &config, Some(1_000_000)));
}

#[test]
fn a_summary_replaces_what_it_summarizes() {
    let mut log = transcript(chat(10));
    let span = select_span(&log, 8, 100_000).expect("a span exists");
    let summary = Message::text(MessageRole::Assistant, "what was said");
    record_summary(&mut log, &span, &summary);

    let shown = contents(&visible(&log));
    // Eight retained items and the summary, which stands where it was written.
    assert_eq!(shown.len(), 9);
    assert_eq!(
        shown.last().map(String::as_str),
        Some(format!("{SUMMARY_PREFIX}what was said").as_str())
    );
    assert!(!shown.iter().any(|content| content == "question 0"));
    assert!(shown.iter().any(|content| content == "answer 9"));
}

#[test]
fn every_selected_span_leaves_its_tail_and_its_pairs() {
    for turns in 0..20usize {
        for retain in 2..6usize {
            let mut items = chat(turns);
            items.push(call_item("open"));
            let log = transcript(items);
            let Some(span) = select_span(&log, retain, 100_000) else {
                continue;
            };
            let shown = visible_positions(&log);
            assert!(shown.iter().filter(|p| **p > span.end).count() >= retain);
            assert!(span.items >= MIN_SPAN_ITEMS);
            // The call that was never answered is not inside the span.
            assert!(span.end < log.items.len() - 1);
        }
    }
}

// Assembly.

fn state_with(items: Vec<&str>) -> RunState {
    let mut state = RunState::new("prompt-test", "agent");
    state.transcript.items = items.into_iter().map(user_item).collect();
    state
}

fn fragment(fact: &str) -> MemoryFragment {
    fragment_with(object(vec![("fact", text(fact))]))
}

#[test]
fn transcript_only_is_unchanged_from_the_pre_p1_shape() {
    let state = state_with(vec!["one", "two"]);
    let mut ctx = RunContext::from_state(&state);
    let prompt = assemble(&mut ctx, None);

    assert_eq!(prompt.messages.len(), 2);
    assert_eq!(prompt.messages[0].content, "one");
    assert_eq!(prompt.messages[1].content, "two");
    assert_eq!(prompt.manifest.messages_in(SectionId::Transcript), 2);
    assert_eq!(prompt.manifest.messages_in(SectionId::Memory), 0);
}

#[test]
fn hydrated_fragments_reach_the_request() {
    let state = state_with(vec!["how often do keys rotate?"]);
    let mut ctx = RunContext::from_state(&state);
    ctx.memory_fragments
        .push(fragment("keys rotate every 90 days"));

    let prompt = assemble(&mut ctx, None);

    assert_eq!(prompt.manifest.messages_in(SectionId::Memory), 1);
    assert!(prompt
        .messages
        .iter()
        .any(|message| message.content.contains("keys rotate every 90 days")));
}

#[test]
fn sections_are_ordered_prelude_memory_then_transcript() {
    let state = state_with(vec!["the user turn"]);
    let mut ctx = RunContext::from_state(&state);
    ctx.memory_fragments.push(fragment("a recalled fact"));
    let prelude = SkillPrelude {
        message: Message::text(MessageRole::System, "the prelude"),
        skills: vec!["deploy-notes".to_owned()],
    };

    let prompt = assemble(&mut ctx, Some(&prelude));

    let ids: Vec<SectionId> = prompt
        .manifest
        .sections
        .iter()
        .map(|section| section.id)
        .collect();
    assert_eq!(
        ids,
        vec![
            SectionId::SkillPrelude,
            SectionId::Memory,
            SectionId::Transcript
        ]
    );
    assert_eq!(prompt.messages[0].content, "the prelude");
    assert!(prompt.messages[1].content.contains("a recalled fact"));
    // The request still ends on the conversation, not on injected context.
    assert_eq!(
        prompt.messages.last().expect("a non-empty prompt").content,
        "the user turn"
    );
}

#[test]
fn assembly_pushes_a_header_naming_its_sources() {
    let state = state_with(vec!["the user turn"]);
    let mut ctx = RunContext::from_state(&state);
    ctx.memory_fragments.push(MemoryFragment {
        id: Some("rec-7".to_owned()),
        namespace: "private/conversation/c/semantic/general".to_owned(),
        body: object(vec![("fact", text("a recalled fact"))]),
        metadata: Vec::new(),
    });
    let prelude = SkillPrelude {
        message: Message::text(MessageRole::System, "the prelude"),
        skills: vec!["deploy-notes".to_owned()],
    };

    assemble(&mut ctx, Some(&prelude));

    assert_eq!(
        ctx.request_sink.len(),
        1,
        "one assembly pushes exactly one header"
    );
    let header = &ctx.request_sink[0];
    assert_eq!(header.total_messages, 3);
    assert_eq!(header.sections[0].sources.len(), 1);
    assert!(matches!(
        &header.sections[0].sources[0],
        RequestSource::Skill(name) if name == "deploy-notes"
    ));
    assert_eq!(header.sections[1].sources.len(), 1);
    assert!(matches!(
        &header.sections[1].sources[0],
        RequestSource::Memory { namespace, record_id }
            if namespace == "private/conversation/c/semantic/general"
                && record_id.as_deref() == Some("rec-7")
    ));
    assert!(header.sections[2].sources.is_empty());
    // The fact itself is in the request, never in the header.
    let shown = format!("{header:?}");
    assert!(shown.contains("rec-7"));
    assert!(!shown.contains("a recalled fact"));
}

#[test]
fn manifest_totals_cover_every_contributed_message() {
    let state = state_with(vec!["a", "bb"]);
    let mut ctx = RunContext::from_state(&state);
    ctx.memory_fragments.push(fragment("f"));
    let prelude = SkillPrelude {
        message: Message::text(MessageRole::System, "p"),
        skills: vec!["s".to_owned()],
    };

    let prompt = assemble(&mut ctx, Some(&prelude));

    assert_eq!(prompt.manifest.total_messages(), prompt.messages.len());
    let chars: usize = prompt
        .messages
        .iter()
        .map(|message| message.content.len())
        .sum();
    assert_eq!(prompt.manifest.total_chars(), chars);
}

#[test]
fn a_request_that_can_be_counted_is_assembled() {
    let state = state_with(vec!["one"]);
    let mut ctx = RunContext::from_state(&state);
    let prompt = try_assemble(&mut ctx, None).expect("a small request");
    assert_eq!(prompt.messages.len(), 1);
    assert_eq!(ctx.request_sink.len(), 1);
}

#[test]
fn a_summary_is_planned_from_the_span() {
    let log = transcript(chat(10));
    let config = CompactionConfig {
        enabled: true,
        pressure_percent: 80,
        retain_tail_turns: 8,
    };
    let request = plan_summary(&log, &config, Some(200_000)).expect("there is a span to summarize");
    assert_eq!(request.span.end, 11);
    assert!(request.input.content.contains("user: question 0"));
    assert!(!request.input.content.contains("question 9"));
    assert_eq!(request.instruction.role, MessageRole::System);
}

#[test]
fn a_pass_is_recorded_and_a_failed_one_changes_nothing() {
    let mut state = RunState::new("r", "a");
    state.transcript = transcript(chat(10));
    let config = CompactionConfig {
        enabled: true,
        pressure_percent: 80,
        retain_tail_turns: 8,
    };
    let planned = plan_summary(&state.transcript, &config, Some(200_000)).expect("a span exists");
    let request = summary_request(&planned, "req-9");
    assert_eq!(request.kind, RequestKind::Compaction);
    assert_eq!(request.logical_request_id, "req-9");
    assert_eq!(request.manifest.messages_in(SectionId::SummaryInstruction), 1);
    assert_eq!(request.manifest.messages_in(SectionId::SummarySpan), 1);
    assert_eq!(
        request.manifest.total_chars(),
        planned.instruction.content.len() + planned.input.content.len()
    );

    assert!(finish_compaction(&mut state, &planned, None).is_none());
    let blank = Message::text(MessageRole::Assistant, " \n");
    let nothing = record(&request, blank, None);
    assert!(finish_compaction(&mut state, &planned, Some(nothing)).is_none());
    assert_eq!(state.transcript.items.len(), 20);

    let usage = Usage {
        input_tokens: 100,
        output_tokens: 5,
    };
    let summary = Message::text(MessageRole::Assistant, "what was said");
    let done = finish_compaction(
        &mut state,
        &planned,
        Some(record(&request, summary, Some(usage))),
    )
    .expect("a pass was made");
    assert_eq!(done.span, planned.span);
    assert_eq!(done.summary_chars, 13);
    assert_eq!(done.replaced_chars, planned.replaced_chars);
    assert_eq!(done.usage, Some(usage));
    assert_eq!(done.header.total_messages, 2);
    assert_eq!(state.transcript.items.len(), 21);
    assert_eq!(visible(&state.transcript).len(), 9);
}
