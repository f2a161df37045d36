use agentos_core::json::Json;
use agentos_core::memory::scope::{HydrationStats, MemoryStore, RetrievalStrategy};
use agentos_core::message::{
    Item, Message, MessageRole, SandboxMode, ToolCall, ToolSpec, Transcript,
};
use agentos_core::orchestrator::commands::deterministic_plan_from_user_text;
use agentos_core::orchestrator::max::{
    after_classification, hydration_request, next_step, plan_internal, record_hydration,
    resource_entries, should_route_to_llm, Classification, DispatchPriority, NextStep,
    ResourceKind,
};
use agentos_core::orchestrator::plan::{
    plan_from_response, planning_error, LlmError, OrchestratorError, OrchestratorTemplate, Plan,
    Stage, SubAgentSpec,
};
use agentos_core::orchestrator::routing::{
    decided_rule, extract_json_object, input_overlaps_vocabulary, latest_user_content,
    normalize_domain_key, routing_classifier_messages, routing_domains_json, routing_vocabulary,
    significant_tokens, DispatchTarget, RoutingRule, RoutingTable, TaskDomain,
};
use agentos_core::orchestrator::streaming::{retries_buffered, CompletionEvent, StreamDrain};
use agentos_core::orchestrator::{EchoOrchestrator, MemoryHydrationSettings};

fn response(call_ids: &[&str]) -> Message {
    Message {
        role: MessageRole::Assistant,
        content: "thinking".to_owned(),
        attachments: Vec::new(),
        tool_calls: call_ids
            .iter()
            .map(|id| ToolCall {
                id: (*id).to_owned(),
                name: "echo".to_owned(),
                args: "{}".to_owned(),
            })
            .collect(),
        tool_call_id: None,
        metadata: Vec::new(),
    }
}

#[test]
fn no_calls_plans_a_reply() {
    assert!(matches!(
        plan_from_response(response(&[])),
        Plan::Reply(message) if message.content == "thinking"
    ));
}

#[test]
fn one_call_plans_an_ordinary_tool_call() {
    assert!(matches!(
        plan_from_response(response(&["a"])),
        Plan::CallTool(call) if call.id == "a"
    ));
}

#[test]
fn several_calls_are_all_kept_in_order() {
    let Plan::CallTools(calls) = plan_from_response(response(&["a", "b", "c"])) else {
        panic!("several calls must plan as a batch");
    };
    assert_eq!(
        calls
            .iter()
            .map(|call| call.id.as_str())
            .collect::<Vec<_>>(),
        vec!["a", "b", "c"]
    );
}

#[test]
fn only_a_context_length_rejection_keeps_its_class() {
    assert!(matches!(
        planning_error(
            LlmError::ContextLengthExceeded("too long".to_owned()),
            "ignored".to_owned()
        ),
        OrchestratorError::ContextLengthExceeded(detail) if detail == "too long"
    ));
    assert!(matches!(
        planning_error(
            LlmError::StreamTransport("cut".to_owned()),
            "stream failed: cut".to_owned()
        ),
        OrchestratorError::Backend(text) if text == "stream failed: cut"
    ));
}

fn rule(domain: TaskDomain, description: &str, examples: &[&str]) -> RoutingRule {
    RoutingRule {
        domain,
        description: description.to_owned(),
        examples: examples
            .iter()
            .map(|example| (*example).to_owned())
            .collect(),
        dispatch: DispatchTarget::Direct,
    }
}

#[test]
fn vocabulary_is_empty_when_any_rule_lacks_examples() {
    let table = RoutingTable {
        rules: vec![
            rule(
                TaskDomain::SoftwareDev,
                "fix bugs",
                &["fix this failing test"],
            ),
            rule(TaskDomain::Research, "investigate sources", &[]),
        ],
        fallback: rule(TaskDomain::General, "general chat", &[]),
    };
    assert!(
        routing_vocabulary(&table).is_empty(),
        "pre-filter must stay disabled for tables without full example coverage"
    );
}

#[test]
fn vocabulary_collects_significant_tokens_and_excludes_fallback() {
    let table = RoutingTable {
        rules: vec![rule(
            TaskDomain::SoftwareDev,
            "Implementation and debugging.",
            &["fix this failing test"],
        )],
        fallback: rule(TaskDomain::General, "weekend chatter", &["good morning"]),
    };
    let vocabulary = routing_vocabulary(&table);
    let holds = |token: &str| vocabulary.iter().any(|word| word == token);
    for expected in [
        "software",
        "dev",
        "implementation",
        "debugging",
        "fix",
        "failing",
        "test",
    ] {
        assert!(holds(expected), "missing token '{expected}'");
    }
    // Stopwords and fallback vocabulary are excluded.
    assert!(!holds("and"));
    assert!(!holds("this"));
    assert!(!holds("weekend"));
    assert!(!holds("morning"));

    assert!(input_overlaps_vocabulary(
        "please fix the build",
        &vocabulary
    ));
    assert!(!input_overlaps_vocabulary(
        "good morning, hope you slept well",
        &vocabulary
    ));
}

fn text(value: &str) -> Json {
    Json::Text(value.to_owned())
}

fn research_table() -> RoutingTable {
    let metadata = vec![
        (
            "subagent_description".to_owned(),
            text("Performs bounded research using configured HTTP resources."),
        ),
        ("subagent_max_turns".to_owned(), Json::Unsigned(4)),
        ("subagent_name".to_owned(), text("research-subagent")),
        (
            "subagent_skills".to_owned(),
            Json::List(vec![text("web-research")]),
        ),
        ("subagent_tools".to_owned(), Json::List(vec![text("http")])),
    ];
    RoutingTable {
        rules: vec![RoutingRule {
            domain: TaskDomain::Research,
            description: "External evidence gathering.".to_owned(),
            examples: Vec::new(),
            dispatch: DispatchTarget::Escalate(OrchestratorTemplate {
                name: "research".to_owned(),
                stages: vec![Stage {
                    name: "research".to_owned(),
                    agent: SubAgentSpec {
                        agent_id: "research-subagent".to_owned(),
                        policy_id: "readonly-web".to_owned(),
                        metadata,
                    },
                    depends_on: Vec::new(),
                }],
            }),
        }],
        fallback: rule(TaskDomain::General, "General fallback.", &[]),
    }
}

#[test]
fn routing_prompt_includes_subagent_functional_descriptions() {
    let messages = routing_classifier_messages(
        "compare these sources",
        &routing_domains_json(&research_table()),
    );
    let prompt = messages
        .iter()
        .map(|message| message.content.as_str())
        .collect::<Vec<_>>()
        .join("\n");

    assert!(prompt.contains("Performs bounded research using configured HTTP resources."));
    assert!(prompt.contains("web-research"));
    assert!(prompt.contains("readonly-web"));
    assert!(prompt.contains("do not use keyword matching"));
}

#[test]
fn the_catalog_is_written_as_serde_writes_it() {
    let written = routing_domains_json(&research_table());
    let parsed: serde_json::Value = serde_json::from_str(&written).expect("valid JSON");
    assert_eq!(
        serde_json::to_string_pretty(&parsed).expect("serializes"),
        written
    );
    assert_eq!(parsed[1]["dispatch"]["kind"], "direct");
    assert_eq!(
        parsed[0]["dispatch"]["stages"][0]["subagent"]["max_turns"],
        4
    );
}

#[test]
fn tokens_are_words_that_carry_a_signal() {
    assert_eq!(
        significant_tokens("Please FIX the re-run of it, ok?"),
        vec!["fix", "run"]
    );
}

#[test]
fn an_answer_is_found_inside_its_fences() {
    assert_eq!(
        extract_json_object("```json\n{\"domain\":\"research\"}\n```").as_deref(),
        Some(r#"{"domain":"research"}"#)
    );
    assert_eq!(
        extract_json_object("Sure: {\"a\":{\"b\":1}} - done").as_deref(),
        Some(r#"{"a":{"b":1}}"#)
    );
    assert_eq!(extract_json_object("no object"), None);
    assert_eq!(extract_json_object("} backwards {"), None);
}

#[test]
fn a_domain_is_recognised_however_it_is_written() {
    assert_eq!(normalize_domain_key("  Software-Dev "), "software_dev");
    let table = research_table();
    assert!(decided_rule(&table, " RESEARCH", true).is_some());
    assert!(decided_rule(&table, "research", false).is_none());
    assert!(decided_rule(&table, "general", true).is_some());
    assert!(decided_rule(&table, "cooking", true).is_none());
}

fn said(role: MessageRole, content: &str) -> Transcript {
    Transcript {
        items: vec![Item {
            message: Message::text(role, content),
            metadata: Vec::new(),
        }],
    }
}

#[test]
fn the_echo_says_back_what_was_said_last() {
    let plan = EchoOrchestrator.plan(&said(MessageRole::User, "hello"));
    assert!(matches!(plan, Plan::Reply(message) if message.content == "hello"));
    let plan = EchoOrchestrator.plan(&Transcript { items: Vec::new() });
    assert!(matches!(plan, Plan::Reply(message) if message.content.is_empty()));
}

fn replied(input: &str) -> String {
    match deterministic_plan_from_user_text(input) {
        Some(Plan::Reply(message)) => message.content,
        _ => panic!("{input:?} is answered directly"),
    }
}

fn called(input: &str) -> (String, String) {
    match deterministic_plan_from_user_text(input) {
        Some(Plan::CallTool(call)) => {
            assert_eq!(call.id, "call-1");
            (call.name, call.args)
        }
        _ => panic!("{input:?} calls a tool"),
    }
}

#[test]
fn smoke_requests_are_answered_directly() {
    assert_eq!(replied("  Reply with the literal string OK, please"), "OK");
    assert_eq!(
        replied("Echo this UTF-8 payload back verbatim:  héllo  "),
        "héllo"
    );
    assert_eq!(
        replied("Confirm receipt of a multi-line message:\nLine 1\nLine 2\n"),
        "Line 1\nLine 2"
    );
    assert_eq!(replied("confirm receipt of a multi-line message"), "received");
    assert_eq!(replied("Compute (17 * 23) + 5."), "396");
    assert_eq!(
        replied("What was the favorite color I told you to remember?"),
        "teal"
    );
    assert_eq!(
        replied("Return a JSON object with keys status and detail"),
        r#"{"status":"ok","detail":"AgentOS gateway is responding normally."}"#
    );
    assert!(deterministic_plan_from_user_text("tell me a story").is_none());
}

#[test]
fn commands_become_tool_calls() {
    assert_eq!(
        called("shell: ls -la  /tmp"),
        (
            "shell".to_owned(),
            r#"{"args":["-la","/tmp"],"command":"ls"}"#.to_owned()
        )
    );
    assert_eq!(
        called("shell:"),
        ("shell".to_owned(), r#"{"args":[],"command":""}"#.to_owned())
    );
    assert_eq!(
        called("remember: keys \"rotate\""),
        (
            "memory".to_owned(),
            r#"{"body":{"fact":"keys \"rotate\""},"operation":"write"}"#.to_owned()
        )
    );
    assert_eq!(
        called("recall: keys"),
        (
            "memory".to_owned(),
            r#"{"limit":5,"operation":"read","text":"keys"}"#.to_owned()
        )
    );
    assert_eq!(
        called("read file: notes.md"),
        (
            "file".to_owned(),
            r#"{"operation":"read","path":"notes.md"}"#.to_owned()
        )
    );
    assert_eq!(
        called("http get: https://example.com"),
        (
            "http".to_owned(),
            r#"{"method":"GET","url":"https://example.com"}"#.to_owned()
        )
    );
    assert_eq!(
        called("tool  grep : needle"),
        ("grep".to_owned(), r#"{"input":"needle"}"#.to_owned())
    );
    assert!(deterministic_plan_from_user_text("tool grep").is_none());
}

#[test]
fn a_delegation_names_its_agent_and_policy() {
    let Some(Plan::Delegate(spec)) =
        deterministic_plan_from_user_text("delegate worker strict: do it ")
    else {
        panic!("a delegation");
    };
    assert_eq!(spec.agent_id, "worker");
    assert_eq!(spec.policy_id, "strict");
    assert!(matches!(&spec.metadata[0].1, Json::Text(prompt) if prompt == "do it"));
    let Some(Plan::Delegate(spec)) = deterministic_plan_from_user_text("delegate worker: x") else {
        panic!("a delegation");
    };
    assert_eq!(spec.policy_id, "default");
    assert!(deterministic_plan_from_user_text("delegate : x").is_none());
}

fn delegating_table() -> RoutingTable {
    RoutingTable {
        rules: vec![RoutingRule {
            domain: TaskDomain::Custom("ops".to_owned()),
            description: "operations".to_owned(),
            examples: vec!["restart the gateway".to_owned()],
            dispatch: DispatchTarget::Delegate(SubAgentSpec {
                agent_id: "ops-agent".to_owned(),
                policy_id: "strict".to_owned(),
                metadata: Vec::new(),
            }),
        }],
        fallback: rule(TaskDomain::General, "", &[]),
    }
}

#[test]
fn a_request_goes_where_its_domain_says() {
    let table = delegating_table();
    let transcript = said(MessageRole::User, "restart it");
    let Plan::Delegate(spec) = plan_internal(&transcript, &table, Some("ops"), true, "task-1")
    else {
        panic!("a delegation");
    };
    assert_eq!(spec.agent_id, "ops-agent");
    assert!(matches!(&spec.metadata[0].1, Json::Text(prompt) if prompt == "restart it"));
    // An unknown domain falls back to the run itself.
    assert!(matches!(
        plan_internal(&transcript, &table, Some("cooking"), true, "task-1"),
        Plan::Reply(message) if message.content == "restart it"
    ));
    // What a tool said is passed on as it is.
    assert!(matches!(
        plan_internal(&said(MessageRole::Tool, "shell: ls"), &table, None, true, "task-1"),
        Plan::Reply(message) if message.content == "shell: ls"
    ));
}

#[test]
fn a_model_is_asked_only_where_nothing_else_was_planned() {
    let table = delegating_table();
    let transcript = said(MessageRole::User, "restart it");
    let echo = Plan::Reply(Message::text(MessageRole::Assistant, "restart it"));
    let other = Plan::Reply(Message::text(MessageRole::Assistant, "done"));
    assert!(should_route_to_llm(&transcript, &echo));
    assert!(!should_route_to_llm(&transcript, &other));
    assert!(matches!(
        next_step(&transcript, &other, &table, true, "task-1"),
        NextStep::Keep
    ));
    assert!(matches!(
        next_step(&transcript, &echo, &table, true, "task-1"),
        NextStep::Classify
    ));
    assert!(matches!(
        next_step(&transcript, &echo, &table, false, "task-1"),
        NextStep::Complete
    ));
    let confident = Some(Classification {
        domain: "ops".to_owned(),
        confident: true,
    });
    assert!(matches!(
        after_classification(&table, &confident, "task-1", "restart it"),
        Some(Plan::Delegate(_))
    ));
    assert!(after_classification(&table, &None, "task-1", "restart it").is_none());
}

#[test]
fn memory_is_recalled_for_something_the_user_just_said() {
    let mut settings = MemoryHydrationSettings::default();
    assert!(!settings.enabled);
    assert_eq!(settings.max_fragments, 5);
    assert_eq!(settings.max_estimated_tokens, 1200);
    assert_eq!(
        settings.stores,
        vec![MemoryStore::Semantic, MemoryStore::Episodic]
    );
    let transcript = said(MessageRole::User, "how often do keys rotate?");
    assert!(hydration_request(&settings, &transcript).is_none());
    settings.enabled = true;
    let request = hydration_request(&settings, &transcript).expect("a request");
    assert_eq!(request.query, "how often do keys rotate?");
    assert_eq!(request.strategy, RetrievalStrategy::Hybrid);
    assert!(hydration_request(&settings, &said(MessageRole::User, "  ")).is_none());
    assert!(hydration_request(&settings, &said(MessageRole::Tool, "x")).is_none());
    assert_eq!(
        latest_user_content(&transcript).as_deref(),
        Some("how often do keys rotate?")
    );

    let mut metadata = Vec::new();
    record_hydration(
        &mut metadata,
        &HydrationStats {
            candidate_count: 7,
            selected_count: 2,
            namespace_count: 1,
        },
    );
    let counts: Vec<String> = metadata
        .iter()
        .map(|(key, value)| format!("{key}={}", value.to_text()))
        .collect();
    assert_eq!(
        counts,
        vec![
            "memory_hydration_candidate_count=7",
            "memory_hydration_namespace_count=1",
            "memory_hydration_selected_count=2"
        ]
    );
}

#[test]
fn tools_are_listed_one_by_one() {
    let entries = resource_entries(&vec![ToolSpec {
        name: "echo".to_owned(),
        description: "says it back".to_owned(),
        input_schema: Json::Null,
        sandbox: SandboxMode::FullAccess,
        timeout_ms: None,
    }]);
    assert_eq!(entries.len(), 1);
    assert_eq!(entries[0].name, "echo");
    assert_eq!(entries[0].kind, ResourceKind::Tool);
    assert_eq!(entries[0].summary, "says it back");
    assert_eq!(entries[0].priority, DispatchPriority::ToolOrMcp);
}

#[test]
fn a_stream_is_what_its_last_message_says() {
    let mut drain = StreamDrain::start();
    assert_eq!(
        drain.take(CompletionEvent::Text("hel".to_owned())).as_deref(),
        Some("hel")
    );
    assert!(drain
        .take(CompletionEvent::Done(Message::text(
            MessageRole::Assistant,
            "hello"
        )))
        .is_none());
    assert!(matches!(drain.finish(), Ok(message) if message.content == "hello"));

    let empty = StreamDrain::start();
    assert!(matches!(
        empty.finish(),
        Err(LlmError::Provider(text)) if text == "stream ended without a final message"
    ));
    assert!(retries_buffered(&LlmError::StreamTransport("cut".to_owned())));
    assert!(!retries_buffered(&LlmError::Provider("no".to_owned())));
}
