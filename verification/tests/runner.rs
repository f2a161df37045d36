use agentos_core::identity::Principal;
use agentos_core::json::Json;
use agentos_core::message::{Item, Message, MessageRole, Transcript};
use agentos_core::orchestrator::plan::LlmError;
use agentos_core::prompt::assembly::PromptManifest;
use agentos_core::prompt::gateway::{
    bounded_detail, first_invocation, journal_error, note_exchange, retry_after, AttemptGuard,
    Invocation, Request, RequestAttemptStatus, Usage,
};
use agentos_core::prompt::RequestKind;
use agentos_core::runner::course::{
    LoopEvent, RunAction, RunCourse, RunEnd, SafetyOutcome, Stage,
};
use agentos_core::runner::resume::{
    settle_pause, ApprovalOutcome, PausedRun, ResumeWitness, RunError,
};
use agentos_core::runner::run::{
    envelope_principal, record_run_finish, run_span_id, start_run, Envelope,
};
use agentos_core::runner::trace::{trace_lines, TraceBatch};
use agentos_core::runner::{
    JsonlTraceSink, RunnerError, SESSION_SCOPE_EPHEMERAL, SESSION_SCOPE_KEY,
};
use agentos_core::state::{ApprovalStatus, Interruption, RunState, SpanKind, TraceSpan};

fn text(value: &str) -> Json {
    Json::Text(value.to_owned())
}

fn envelope(metadata: Vec<(&str, Json)>) -> Envelope {
    Envelope {
        channel_id: "telegram".to_owned(),
        conversation_id: "42".to_owned(),
        sender: "alice".to_owned(),
        message: Message::text(MessageRole::User, "hello"),
        metadata: metadata
            .into_iter()
            .map(|(key, value)| (key.to_owned(), value))
            .collect(),
    }
}

fn history() -> Transcript {
    Transcript {
        items: vec![
            Item {
                message: Message::text(MessageRole::User, "earlier"),
                metadata: Vec::new(),
            },
            Item {
                message: Message::text(MessageRole::Assistant, "reply"),
                metadata: Vec::new(),
            },
        ],
    }
}

fn contents(items: &[Item]) -> Vec<&str> {
    items
        .iter()
        .map(|item| item.message.content.as_str())
        .collect()
}

/// What a run asks for, up to its next step or its end.
fn carried_out(course: &mut RunCourse, state: &RunState) -> Vec<String> {
    let mut seen = Vec::new();
    loop {
        let shown = match course.action(state) {
            RunAction::RecordResolution {
                outcome,
                subject,
                detail,
            } => format!("record {outcome:?} {subject} {detail:?}"),
            RunAction::RememberDenied { reason } => format!("remember denied {reason}"),
            RunAction::EnterApproved {
                approval_instance_id,
            } => format!("enter {approval_instance_id}"),
            RunAction::Step => {
                seen.push("step".to_owned());
                return seen;
            }
            RunAction::RecordFailure {
                span_start,
                event_start,
            } => format!("record failure {span_start} {event_start}"),
            RunAction::Append { principal, items } => {
                format!("append {} {:?}", principal.storage_name(), contents(&items))
            }
            RunAction::KeepTask { phase, items } => {
                format!("keep task {phase} {:?}", contents(&items))
            }
            RunAction::KeepTrace {
                phase,
                span_start,
                event_start,
            } => format!("keep trace {phase} {span_start} {event_start}"),
            RunAction::RememberFinished => "remember finished".to_owned(),
            RunAction::Return(end) => {
                seen.push(
                    match end {
                        RunEnd::Finished => "finished".to_owned(),
                        RunEnd::Paused => "paused".to_owned(),
                        RunEnd::Failed => "failed".to_owned(),
                        RunEnd::Broken => "broken".to_owned(),
                        RunEnd::Stopped(RunError::ApprovalDenied { reason }) => {
                            format!("denied: {reason}")
                        }
                        RunEnd::Stopped(RunError::ApprovalUnanswered { reason }) => {
                            format!("unanswered: {reason}")
                        }
                        RunEnd::Stopped(RunError::NotResumable) => "not resumable".to_owned(),
                    },
                );
                return seen;
            }
        };
        seen.push(shown);
        course.done();
    }
}

fn reply(content: &str) -> LoopEvent {
    LoopEvent::Replied(Message::text(MessageRole::Assistant, content))
}

#[test]
fn a_run_continues_its_conversation() {
    let input = envelope(vec![("sender", text("someone else"))]);
    let (mut state, mut course) = RunCourse::start(&input, history(), "run-1", "main");
    let item = &state.transcript.items[2];
    let metadata: Vec<String> = item
        .metadata
        .iter()
        .map(|(key, value)| format!("{key}={}", value.to_text()))
        .collect();
    // What the envelope said itself stays; the rest is filled in.
    assert_eq!(
        metadata,
        vec![
            r#"channel_id="telegram""#,
            r#"conversation_id="42""#,
            r#"sender="someone else""#
        ]
    );
    assert_eq!(
        envelope_principal("main", &input).storage_name(),
        "v1.main.telegram.42.salice"
    );

    course.stepped(&mut state, LoopEvent::Advanced);
    assert_eq!(carried_out(&mut course, &state), vec!["step"]);
    course.stepped(&mut state, reply("hi"));
    assert_eq!(
        carried_out(&mut course, &state),
        vec![
            r#"append v1.main.telegram.42.n ["hello", "hi"]"#,
            r#"keep task finished ["hello", "hi"]"#,
            "keep trace finished 0 0",
            "remember finished",
            "finished"
        ]
    );
    let output = course
        .output(vec![("episode_id".to_owned(), text("e-1"))])
        .expect("it replied");
    assert_eq!(output.sender, "main");
    assert_eq!(output.message.content, "hi");
    assert_eq!(output.metadata.len(), 1);
    let events: Vec<&str> = state
        .trace_events
        .iter()
        .map(|event| event.name.as_str())
        .collect();
    assert_eq!(events, vec!["run_started", "run_finished"]);
}

#[test]
fn ephemeral_scoped_run_neither_loads_nor_persists_conversation_history() {
    let input = envelope(vec![(SESSION_SCOPE_KEY, text(SESSION_SCOPE_EPHEMERAL))]);
    let (mut state, mut course) = RunCourse::start(&input, history(), "run-1", "main");
    assert_eq!(contents(&state.transcript.items), vec!["hello"]);
    course.stepped(&mut state, reply("tick"));
    assert_eq!(
        carried_out(&mut course, &state),
        vec![
            r#"keep task finished ["hello", "tick"]"#,
            "keep trace finished 0 0",
            "remember finished",
            "finished"
        ]
    );
    // Delivery is unaffected.
    let output = course.output(Vec::new()).expect("it replied");
    assert_eq!(output.conversation_id, "42");
    assert_eq!(output.message.content, "tick");

    let (mut state, mut course) = RunCourse::start(&input, history(), "run-2", "main");
    course.stepped(&mut state, LoopEvent::Paused);
    assert_eq!(
        carried_out(&mut course, &state),
        vec![
            r#"keep task paused ["hello"]"#,
            "keep trace paused 0 0",
            "paused"
        ]
    );
    assert!(course.output(Vec::new()).is_none());

    // Contrast: the default scope still loads and persists history.
    let run = start_run(&envelope(Vec::new()), history(), "run-3", "main");
    assert_eq!(run.persisted_len, 2);
    assert!(!run.ephemeral);
    assert_eq!(run.state.transcript.items.len(), 3);
}

#[test]
fn a_pause_keeps_what_was_added_so_far() {
    let (mut state, mut course) =
        RunCourse::start(&envelope(Vec::new()), history(), "run-1", "main");
    course.stepped(&mut state, LoopEvent::Paused);
    assert_eq!(
        carried_out(&mut course, &state),
        vec![
            r#"append v1.main.telegram.42.salice ["hello"]"#,
            r#"keep task paused ["hello"]"#,
            "keep trace paused 0 0",
            "paused"
        ]
    );
}

#[test]
fn a_failed_loop_is_recorded_and_any_other_failure_ends_the_run() {
    let (mut state, mut course) =
        RunCourse::start(&envelope(Vec::new()), history(), "run-1", "main");
    course.stepped(&mut state, LoopEvent::Failed);
    assert_eq!(
        carried_out(&mut course, &state),
        vec!["record failure 0 0", "failed"]
    );

    let (mut state, mut course) =
        RunCourse::start(&envelope(Vec::new()), history(), "run-1", "main");
    course.stepped(&mut state, reply("hi"));
    assert_eq!(course.stage, Stage::FinishAppending);
    course.failed();
    assert_eq!(carried_out(&mut course, &state), vec!["broken"]);
}

#[test]
fn a_run_is_covered_by_one_span() {
    let (mut state, mut course) =
        RunCourse::start(&envelope(Vec::new()), history(), "run-1", "main");
    assert_eq!(state.trace_spans.len(), 1);
    assert_eq!(state.trace_spans[0].kind, SpanKind::Run);
    assert_eq!(state.trace_spans[0].name, "run");
    let fields: Vec<String> = state.trace_spans[0]
        .fields
        .iter()
        .map(|(key, value)| format!("{key}={}", value.to_text()))
        .collect();
    assert_eq!(fields, vec![r#"active_agent="main""#, r#"run_id="run-1""#]);
    course.stepped(&mut state, reply("hi"));
    assert_eq!(state.trace_spans.len(), 1);
    assert_eq!(state.trace_events[1].span, 0);

    // A run nobody recorded the start of gets its span when it finishes.
    let mut state = RunState::new("run-2", "main");
    state.trace_spans.push(TraceSpan {
        parent: None,
        kind: SpanKind::Tool,
        name: "mock".to_owned(),
        fields: Vec::new(),
    });
    assert_eq!(run_span_id(&state), None);
    record_run_finish(&mut state);
    assert_eq!(run_span_id(&state), Some(1));
    assert_eq!(state.trace_events[0].span, 1);
    assert_eq!(state.trace_events[0].name, "run_finished");
}

fn asker() -> Principal {
    Principal {
        agent: "main".to_owned(),
        channel: "telegram".to_owned(),
        conversation: "42".to_owned(),
        sender: Some("alice".to_owned()),
    }
}

fn paused() -> PausedRun {
    let mut state = RunState::new("run-1", "main");
    state.transcript = history();
    state.approvals.push(Interruption {
        approval_instance_id: "instance-1".to_owned(),
        approval_ticket: "ticket-1".to_owned(),
        id: "approval-1".to_owned(),
        prompting_principal: asker(),
        subject: "mock".to_owned(),
        status: ApprovalStatus::Pending,
        consumed: false,
        resolver_principal: None,
        child_pending: true,
        child_resolver: None,
    });
    PausedRun {
        channel_id: "telegram".to_owned(),
        conversation_id: "42".to_owned(),
        state,
    }
}

fn witness(outcome: ApprovalOutcome) -> ResumeWitness {
    ResumeWitness {
        approval_instance_id: "instance-1".to_owned(),
        ticket: "ticket-1".to_owned(),
        interruption_id: "approval-1".to_owned(),
        prompting_principal: asker(),
        resolver_principal: asker(),
        outcome,
        reason: None,
        expires_at: Some(1_000),
    }
}

#[test]
fn an_approval_is_taken_once() {
    let mut run = paused();
    let approved = witness(ApprovalOutcome::Approved);
    assert_eq!(settle_pause(&mut run, &approved, 999), Some(0));
    let question = &run.state.approvals[0];
    assert!(matches!(question.status, ApprovalStatus::Approved));
    assert!(!question.consumed);
    assert!(question.resolver_principal.is_some());
    assert!(question.child_resolver.is_some());
    assert_eq!(settle_pause(&mut run, &approved, 999), None);
    assert!(matches!(
        RunCourse::resume(&mut run, &approved, 999, "main"),
        Err(RunError::NotResumable)
    ));
}

#[test]
fn an_approved_run_goes_on_where_it_paused() {
    let mut run = paused();
    let mut course = RunCourse::resume(
        &mut run,
        &witness(ApprovalOutcome::Approved),
        999,
        "main",
    )
    .expect("it answers the question");
    let state = &mut run.state;
    assert_eq!(
        carried_out(&mut course, state),
        vec!["record Approved mock None", "enter instance-1", "step"]
    );
    // A second pause leaves what was added with the run.
    state.transcript.items.push(Item {
        message: Message::text(MessageRole::Tool, "done"),
        metadata: Vec::new(),
    });
    course.stepped(state, LoopEvent::Paused);
    assert_eq!(
        carried_out(&mut course, state),
        vec!["keep task paused []", "keep trace paused 0 0", "paused"]
    );

    let mut run = paused();
    let mut course = RunCourse::resume(
        &mut run,
        &witness(ApprovalOutcome::Approved),
        999,
        "main",
    )
    .expect("it answers the question");
    carried_out(&mut course, &run.state);
    course.stepped(&mut run.state, reply("finished"));
    // Whoever answered is not named: the reply belongs to the conversation.
    assert_eq!(
        carried_out(&mut course, &run.state),
        vec![
            r#"append v1.main.telegram.42.n ["finished"]"#,
            r#"keep task finished ["finished"]"#,
            "keep trace finished 0 0",
            "remember finished",
            "finished"
        ]
    );
}

#[test]
fn a_decision_that_cannot_be_recorded_does_not_count() {
    let mut run = paused();
    let mut course = RunCourse::resume(
        &mut run,
        &witness(ApprovalOutcome::Approved),
        999,
        "main",
    )
    .expect("it answers the question");
    assert!(matches!(
        course.action(&run.state),
        RunAction::RecordResolution {
            outcome: SafetyOutcome::Approved,
            ..
        }
    ));
    course.failed();
    assert_eq!(carried_out(&mut course, &run.state), vec!["broken"]);
    // An approval that cannot be acted on is a failure of the loop.
    let mut run = paused();
    let mut course = RunCourse::resume(
        &mut run,
        &witness(ApprovalOutcome::Approved),
        999,
        "main",
    )
    .expect("it answers the question");
    course.done();
    assert_eq!(course.stage, Stage::Entering);
    course.failed();
    assert_eq!(
        carried_out(&mut course, &run.state),
        vec!["record failure 0 0", "failed"]
    );
}

#[test]
fn a_refusal_and_a_silence_are_told_apart() {
    let resumed = |answer: &ResumeWitness, now: u64| {
        let mut run = paused();
        let mut course =
            RunCourse::resume(&mut run, answer, now, "main").expect("it answers the question");
        let seen = carried_out(&mut course, &run.state);
        assert!(run.state.approvals[0].consumed);
        (run, seen)
    };
    let (run, seen) = resumed(&witness(ApprovalOutcome::Rejected), 0);
    assert_eq!(
        seen,
        vec![
            r#"record Rejected mock Some("approval rejected")"#,
            "remember denied approval rejected",
            "keep trace denied 0 0",
            "denied: approval rejected"
        ]
    );
    assert!(matches!(
        &run.state.approvals[0].status,
        ApprovalStatus::Rejected { reason } if reason == "approval rejected"
    ));

    // Nobody decided, so there is no decision to expire.
    let (run, seen) = resumed(&witness(ApprovalOutcome::Unavailable), 5_000);
    assert_eq!(
        seen,
        vec![
            r#"record Unanswered mock Some("approval went unanswered (unavailable)")"#,
            "keep trace unanswered 0 0",
            "unanswered: approval went unanswered (unavailable)"
        ]
    );
    assert!(matches!(
        &run.state.approvals[0].status,
        ApprovalStatus::Unanswered { reason } if reason == "approval went unanswered (unavailable)"
    ));
    let mut cancelled = witness(ApprovalOutcome::Cancelled);
    cancelled.reason = Some("it expired".to_owned());
    let (_, seen) = resumed(&cancelled, 5_000);
    assert_eq!(
        seen.last().map(String::as_str),
        Some("unanswered: it expired (cancelled)")
    );
}

#[test]
fn an_answer_that_settles_nothing_changes_nothing() {
    let late = witness(ApprovalOutcome::Approved);
    let mut elsewhere = witness(ApprovalOutcome::Approved);
    elsewhere.prompting_principal.conversation = "43".to_owned();
    let mut forged = witness(ApprovalOutcome::Approved);
    forged.ticket = "ticket-2".to_owned();
    for (answer, now) in [(late, 1_000), (elsewhere, 0), (forged, 0)] {
        let mut run = paused();
        assert!(matches!(
            RunCourse::resume(&mut run, &answer, now, "main"),
            Err(RunError::NotResumable)
        ));
        let question = &run.state.approvals[0];
        assert!(matches!(question.status, ApprovalStatus::Pending));
        assert!(question.resolver_principal.is_none());
    }
}

#[test]
fn a_trace_says_where_in_the_run_each_record_stands() {
    let batch = TraceBatch {
        run_id: "run-1".to_owned(),
        active_agent: "main".to_owned(),
        phase: "finished".to_owned(),
        emitted_unix: 7,
    };
    let spans = vec![text("first"), text("second")];
    let events = vec![text("only")];
    assert_eq!(
        trace_lines(&batch, &spans, &events, 1, 0),
        vec![
            r#"{"active_agent":"main","emitted_unix":7,"index":1,"phase":"finished","record_type":"span","run_id":"run-1","span":"second"}"#,
            r#"{"active_agent":"main","emitted_unix":7,"event":"only","index":0,"phase":"finished","record_type":"event","run_id":"run-1"}"#
        ]
    );
    assert!(trace_lines(&batch, &spans, &events, 5, 5).is_empty());
    assert_eq!(
        JsonlTraceSink::new("/w/traces").path("run-1"),
        "/w/traces/run-1.jsonl"
    );
}

#[test]
fn errors_say_what_failed() {
    assert_eq!(
        RunnerError::StateIo {
            path: "/w/paused.json".to_owned(),
            source: "denied".to_owned()
        }
        .message(),
        "paused run state I/O failed for /w/paused.json: denied"
    );
    let named = [
        (RunnerError::Run("x".to_owned()), "run loop failed: x"),
        (RunnerError::Session("x".to_owned()), "session failed: x"),
        (
            RunnerError::TaskWorkspace("x".to_owned()),
            "task workspace failed: x",
        ),
    ];
    for (error, expected) in named {
        assert_eq!(error.message(), expected);
    }
    for (error, expected) in [
        (
            RunnerError::StateJson {
                path: "p".to_owned(),
                source: "s".to_owned(),
            },
            "paused run state JSON failed for p: s",
        ),
        (
            RunnerError::TraceIo {
                path: "p".to_owned(),
                source: "s".to_owned(),
            },
            "trace record I/O failed for p: s",
        ),
        (
            RunnerError::TraceJson {
                path: "p".to_owned(),
                source: "s".to_owned(),
            },
            "trace record JSON failed for p: s",
        ),
    ] {
        assert_eq!(error.message(), expected);
    }
}

fn request(kind: RequestKind) -> Request {
    Request {
        logical_request_id: "req-1".to_owned(),
        kind,
        manifest: PromptManifest {
            sections: Vec::new(),
        },
    }
}

#[test]
fn only_a_watched_turn_streams_and_only_a_broken_stream_is_sent_again() {
    let streamed = first_invocation(RequestKind::Turn, true);
    assert_eq!(streamed, Invocation::Streamed { attempt: 1 });
    assert_eq!(
        first_invocation(RequestKind::Turn, false),
        Invocation::Buffered { attempt: 1 }
    );
    assert_eq!(
        first_invocation(RequestKind::Routing, true),
        Invocation::Buffered { attempt: 1 }
    );
    let cut = LlmError::StreamTransport("cut".to_owned());
    let second = retry_after(streamed, &cut);
    assert_eq!(second, Some(Invocation::Buffered { attempt: 2 }));
    assert_eq!(retry_after(Invocation::Buffered { attempt: 2 }, &cut), None);
    assert_eq!(
        retry_after(streamed, &LlmError::Provider("no".to_owned())),
        None
    );
}

#[test]
fn every_attempt_is_journaled_from_its_start() {
    let begin = || AttemptGuard::begin(&request(RequestKind::Turn), "run-1", "main", 2);
    assert_eq!(begin().record.status, RequestAttemptStatus::Started);
    let usage = Usage {
        input_tokens: 10,
        output_tokens: 3,
    };
    let done = begin().succeed(Some(usage));
    assert_eq!(done.status, RequestAttemptStatus::Succeeded);
    assert_eq!(done.usage, Some(usage));
    assert_eq!(done.attempt, 2);
    assert_eq!(done.logical_request_id, "req-1");
    let failed = begin().fail("no route");
    assert_eq!(failed.status, RequestAttemptStatus::Failed);
    assert_eq!(failed.detail.as_deref(), Some("no route"));
    let dropped = begin().cancel();
    assert_eq!(dropped.status, RequestAttemptStatus::Cancelled);
    assert_eq!(
        dropped.detail.as_deref(),
        Some("provider future dropped before an outcome")
    );
}

#[test]
fn a_failure_is_recorded_within_its_bound_and_between_characters() {
    assert_eq!(bounded_detail("short"), "short");
    let long = "x".repeat(600);
    assert_eq!(bounded_detail(&long).len(), 512);
    // 170 three-byte characters fit; the next would end at byte 513.
    let wide = "今".repeat(300);
    let cut = bounded_detail(&wide);
    assert_eq!(cut.len(), 510);
    assert!(wide.starts_with(&cut));
}

#[test]
fn a_turn_records_its_header_when_it_is_assembled() {
    assert!(note_exchange(&request(RequestKind::Turn), None)
        .header
        .is_none());
    let noted = note_exchange(
        &request(RequestKind::Compaction),
        Some(Usage {
            input_tokens: 1,
            output_tokens: 1,
        }),
    );
    assert!(noted.header.is_some());
    assert!(noted.usage.is_some());
    assert!(matches!(
        journal_error("disk full"),
        LlmError::Provider(text)
            if text == "request attempt journal failed before provider transition: disk full"
    ));
}
