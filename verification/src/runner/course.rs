//! The course of a run around its loop: what is recorded, written back and
//! reported, in which order, and what a failure on the way comes to.
//!
//! A course says what is due. Whoever carries it out says how that went, and
//! asks again, until the course says how the run ended.

use super::resume::{
    after_answer, is_same_but_for_approvals, reason_of, settle_pause, settled, stop_reason,
    ApprovalOutcome, PausedRun, ResumeWitness, RunError,
};
use super::run::{
    bare_event, close_run, envelope_principal, finish_event, is_ephemeral_run, is_input_item,
    is_self_contained, marks_ephemeral, new_items, output_item, run_fields, run_span, spans_at_finish, start_run,
    starting_history, Envelope,
};
use crate::identity::{Identity, Principal};
use crate::json::{entries_view, ordered, Json};
use crate::message::{items_view, Item, ItemView, Message, MessageView, Transcript};
use crate::state::{events_view, interruptions_view, spans_view, RunState};
use crate::text::opt_view;
use vstd::prelude::*;

verus! {

/// How far a run has come.
#[derive(Clone, Copy, Debug, PartialEq, Eq, Structural)]
pub enum Stage {
    /// An answer was taken and is about to be put on record.
    Resolving,
    /// It was a refusal, which an episode remembers.
    Denying,
    /// What was traced is about to be kept before the run stops.
    Stopping,
    Stopped,
    /// It was an approval, which the loop is about to act on.
    Entering,
    /// The loop takes its steps.
    Running,
    /// The loop failed, which is about to be recorded.
    Failing,
    Failed,
    /// The loop paused: the session, the task and the trace follow.
    PauseAppending,
    PauseKeeping,
    PauseTracing,
    Paused,
    /// The loop finished: the session, the task, the trace and the episode
    /// follow.
    FinishAppending,
    FinishKeeping,
    FinishTracing,
    FinishRemembering,
    Finished,
    /// Something that was due failed; that failure is the run's.
    Broken,
}

/// How a decision goes on record.
#[derive(Clone, Copy, Debug, PartialEq, Eq, Structural)]
pub enum SafetyOutcome {
    Approved,
    Rejected,
    Unanswered,
}

/// How an answer goes on record.
pub open spec fn recorded_outcome(outcome: ApprovalOutcome) -> SafetyOutcome {
    match outcome {
        ApprovalOutcome::Approved => SafetyOutcome::Approved,
        ApprovalOutcome::Rejected => SafetyOutcome::Rejected,
        _ => SafetyOutcome::Unanswered,
    }
}

/// The answer a run was resumed with.
pub struct Answer {
    pub approval_instance_id: String,
    /// What the question was about.
    pub subject: String,
    pub outcome: ApprovalOutcome,
    /// Why the run stops, when it does.
    pub reason: String,
}

/// What an [`Answer`] stands for.
#[verifier::ext_equal]
pub struct AnswerView {
    pub approval_instance_id: Seq<char>,
    pub subject: Seq<char>,
    pub outcome: ApprovalOutcome,
    pub reason: Seq<char>,
}

impl View for Answer {
    type V = AnswerView;

    open spec fn view(&self) -> AnswerView {
        AnswerView {
            approval_instance_id: self.approval_instance_id@,
            subject: self.subject@,
            outcome: self.outcome,
            reason: self.reason@,
        }
    }
}

/// Where a run came from.
pub enum Origin {
    /// Somebody started it.
    Started { principal: Principal, ephemeral: bool },
    /// It was resumed with an answer.
    Resumed { answer: Answer },
}

/// What an [`Origin`] stands for.
pub enum OriginView {
    Started { principal: Identity, ephemeral: bool },
    Resumed { answer: AnswerView },
}

impl View for Origin {
    type V = OriginView;

    open spec fn view(&self) -> OriginView {
        match *self {
            Origin::Started { principal, ephemeral } => OriginView::Started {
                principal: principal@,
                ephemeral,
            },
            Origin::Resumed { answer } => OriginView::Resumed { answer: answer@ },
        }
    }
}

/// The course of one run.
pub struct RunCourse {
    pub stage: Stage,
    pub origin: Origin,
    pub active_agent: String,
    pub channel_id: String,
    pub conversation_id: String,
    /// How many items, spans and events had been kept when it began.
    pub persisted_len: usize,
    pub span_start: usize,
    pub event_start: usize,
    /// What it replied, once it finished.
    pub reply: Option<Message>,
}

/// What a [`RunCourse`] stands for.
#[verifier::ext_equal]
pub struct CourseView {
    pub stage: Stage,
    pub origin: OriginView,
    pub active_agent: Seq<char>,
    pub channel_id: Seq<char>,
    pub conversation_id: Seq<char>,
    pub persisted_len: nat,
    pub span_start: nat,
    pub event_start: nat,
    pub reply: Option<MessageView>,
}

impl View for RunCourse {
    type V = CourseView;

    open spec fn view(&self) -> CourseView {
        CourseView {
            stage: self.stage,
            origin: self.origin@,
            active_agent: self.active_agent@,
            channel_id: self.channel_id@,
            conversation_id: self.conversation_id@,
            persisted_len: self.persisted_len as nat,
            span_start: self.span_start as nat,
            event_start: self.event_start as nat,
            reply: match self.reply {
                Some(message) => Some(message@),
                None => None,
            },
        }
    }
}

/// The stage after what was due went well.
pub open spec fn stage_after(course: CourseView) -> Stage {
    match course.stage {
        Stage::Resolving => match course.origin {
            OriginView::Resumed { answer } => match answer.outcome {
                ApprovalOutcome::Approved => Stage::Entering,
                ApprovalOutcome::Rejected => Stage::Denying,
                _ => Stage::Stopping,
            },
            _ => Stage::Broken,
        },
        Stage::Denying => Stage::Stopping,
        Stage::Stopping => Stage::Stopped,
        Stage::Entering => Stage::Running,
        Stage::Failing => Stage::Failed,
        Stage::PauseAppending => Stage::PauseKeeping,
        Stage::PauseKeeping => Stage::PauseTracing,
        Stage::PauseTracing => Stage::Paused,
        Stage::FinishAppending => Stage::FinishKeeping,
        Stage::FinishKeeping => Stage::FinishTracing,
        Stage::FinishTracing => Stage::FinishRemembering,
        Stage::FinishRemembering => Stage::Finished,
        ended_or_running => ended_or_running,
    }
}

/// The stage after what was due failed: a failure of the loop is recorded, any
/// other ends the run where it is.
pub open spec fn stage_after_failure(stage: Stage) -> Stage {
    match stage {
        Stage::Entering | Stage::Running => Stage::Failing,
        _ => Stage::Broken,
    }
}

/// Whether a run is over.
pub open spec fn is_over(stage: Stage) -> bool {
    ||| stage == Stage::Stopped
    ||| stage == Stage::Failed
    ||| stage == Stage::Paused
    ||| stage == Stage::Finished
    ||| stage == Stage::Broken
}

/// The stage a pause of the loop leads to. What a started run added goes back
/// to its conversation unless it is self-contained; what a resumed run added
/// stays with it.
pub open spec fn pause_stage(origin: OriginView) -> Stage {
    match origin {
        OriginView::Started { ephemeral, .. } => if ephemeral {
            Stage::PauseKeeping
        } else {
            Stage::PauseAppending
        },
        OriginView::Resumed { .. } => Stage::PauseKeeping,
    }
}

/// The stage a reply of the loop leads to, for the transcript it ends.
pub open spec fn finish_stage(items: Seq<ItemView>) -> Stage {
    if is_ephemeral_run(items) {
        Stage::FinishKeeping
    } else {
        Stage::FinishAppending
    }
}

/// What a step of the loop came to.
pub enum LoopEvent {
    /// It goes on.
    Advanced,
    /// It ended with a reply.
    Replied(Message),
    /// It waits for an answer.
    Paused,
    /// It cannot go on.
    Failed,
}

/// How a run ended.
pub enum RunEnd {
    /// With a reply.
    Finished,
    /// With a question.
    Paused,
    /// With an answer that stops it.
    Stopped(RunError),
    /// With the failure of its loop.
    Failed,
    /// With the failure of what was last due.
    Broken,
}

/// What an end stands for.
pub enum EndView {
    Finished,
    Paused,
    Denied(Seq<char>),
    Unanswered(Seq<char>),
    NotResumable,
    Failed,
    Broken,
}

impl View for RunEnd {
    type V = EndView;

    open spec fn view(&self) -> EndView {
        match *self {
            RunEnd::Finished => EndView::Finished,
            RunEnd::Paused => EndView::Paused,
            RunEnd::Stopped(error) => match error {
                RunError::ApprovalDenied { reason } => EndView::Denied(reason@),
                RunError::ApprovalUnanswered { reason } => EndView::Unanswered(reason@),
                RunError::NotResumable => EndView::NotResumable,
            },
            RunEnd::Failed => EndView::Failed,
            RunEnd::Broken => EndView::Broken,
        }
    }
}

/// What is due.
pub enum RunAction {
    /// Put a decision on record.
    RecordResolution { outcome: SafetyOutcome, subject: String, detail: Option<String> },
    /// Remember a refusal.
    RememberDenied { reason: String },
    /// Act on an approval.
    EnterApproved { approval_instance_id: String },
    /// Let the loop take a step.
    Step,
    /// Record that the loop failed, with what was traced since.
    RecordFailure { span_start: usize, event_start: usize },
    /// Append to a session.
    Append { principal: Principal, items: Vec<Item> },
    /// Keep items with the task.
    KeepTask { phase: String, items: Vec<Item> },
    /// Keep what was traced since.
    KeepTrace { phase: String, span_start: usize, event_start: usize },
    /// Remember a finished run.
    RememberFinished,
    /// Nothing more.
    Return(RunEnd),
}

/// What a [`RunAction`] stands for.
pub enum ActionView {
    RecordResolution { outcome: SafetyOutcome, subject: Seq<char>, detail: Option<Seq<char>> },
    RememberDenied { reason: Seq<char> },
    EnterApproved { approval_instance_id: Seq<char> },
    Step,
    RecordFailure { span_start: nat, event_start: nat },
    Append { principal: Identity, items: Seq<ItemView> },
    KeepTask { phase: Seq<char>, items: Seq<ItemView> },
    KeepTrace { phase: Seq<char>, span_start: nat, event_start: nat },
    RememberFinished,
    Return(EndView),
}

impl View for RunAction {
    type V = ActionView;

    open spec fn view(&self) -> ActionView {
        match *self {
            RunAction::RecordResolution { outcome, subject, detail } => {
                ActionView::RecordResolution {
                    outcome,
                    subject: subject@,
                    detail: opt_view(detail),
                }
            },
            RunAction::RememberDenied { reason } => ActionView::RememberDenied { reason: reason@ },
            RunAction::EnterApproved { approval_instance_id } => ActionView::EnterApproved {
                approval_instance_id: approval_instance_id@,
            },
            RunAction::Step => ActionView::Step,
            RunAction::RecordFailure { span_start, event_start } => ActionView::RecordFailure {
                span_start: span_start as nat,
                event_start: event_start as nat,
            },
            RunAction::Append { principal, items } => ActionView::Append {
                principal: principal@,
                items: items_view(items@),
            },
            RunAction::KeepTask { phase, items } => ActionView::KeepTask {
                phase: phase@,
                items: items_view(items@),
            },
            RunAction::KeepTrace { phase, span_start, event_start } => ActionView::KeepTrace {
                phase: phase@,
                span_start: span_start as nat,
                event_start: event_start as nat,
            },
            RunAction::RememberFinished => ActionView::RememberFinished,
            RunAction::Return(end) => ActionView::Return(end@),
        }
    }
}

/// The conversation a run belongs to, with nobody named: whoever answered a
/// question need not be whoever spoke.
pub open spec fn own_conversation(course: CourseView) -> Identity {
    Identity {
        agent: course.active_agent,
        channel: course.channel_id,
        conversation: course.conversation_id,
        sender: None,
    }
}

/// Whether what a stage keeps is in a transcript of so many items.
pub open spec fn has_items(course: CourseView, items: nat) -> bool {
    match course.stage {
        Stage::PauseAppending | Stage::FinishAppending | Stage::FinishKeeping => {
            course.persisted_len <= items
        },
        Stage::PauseKeeping => course.origin is Resumed || course.persisted_len <= items,
        _ => true,
    }
}

/// What is due of a run with a transcript.
pub open spec fn due(course: CourseView, items: Seq<ItemView>) -> ActionView {
    let added = items.skip(course.persisted_len as int);
    let trace = |phase: Seq<char>|
        ActionView::KeepTrace {
            phase,
            span_start: course.span_start,
            event_start: course.event_start,
        };
    match (course.stage, course.origin) {
        (Stage::Resolving, OriginView::Resumed { answer }) => ActionView::RecordResolution {
            outcome: recorded_outcome(answer.outcome),
            subject: answer.subject,
            detail: if answer.outcome == ApprovalOutcome::Approved {
                None
            } else {
                Some(answer.reason)
            },
        },
        (Stage::Denying, OriginView::Resumed { answer }) => ActionView::RememberDenied {
            reason: answer.reason,
        },
        (Stage::Stopping, OriginView::Resumed { answer }) => trace(
            if answer.outcome == ApprovalOutcome::Rejected {
                "denied"@
            } else {
                "unanswered"@
            },
        ),
        (Stage::Stopped, OriginView::Resumed { answer }) => ActionView::Return(
            if answer.outcome == ApprovalOutcome::Rejected {
                EndView::Denied(answer.reason)
            } else {
                EndView::Unanswered(answer.reason)
            },
        ),
        (Stage::Entering, OriginView::Resumed { answer }) => ActionView::EnterApproved {
            approval_instance_id: answer.approval_instance_id,
        },
        (Stage::Running, _) => ActionView::Step,
        (Stage::Failing, _) => ActionView::RecordFailure {
            span_start: course.span_start,
            event_start: course.event_start,
        },
        (Stage::Failed, _) => ActionView::Return(EndView::Failed),
        (Stage::PauseAppending, OriginView::Started { principal, .. }) => ActionView::Append {
            principal,
            items: added,
        },
        (Stage::PauseKeeping, OriginView::Started { .. }) => ActionView::KeepTask {
            phase: "paused"@,
            items: added,
        },
        (Stage::PauseKeeping, OriginView::Resumed { .. }) => ActionView::KeepTask {
            phase: "paused"@,
            items: Seq::empty(),
        },
        (Stage::PauseTracing, _) => trace("paused"@),
        (Stage::Paused, _) => ActionView::Return(EndView::Paused),
        (Stage::FinishAppending, _) => ActionView::Append {
            principal: own_conversation(course),
            items: added,
        },
        (Stage::FinishKeeping, _) => ActionView::KeepTask { phase: "finished"@, items: added },
        (Stage::FinishTracing, _) => trace("finished"@),
        (Stage::FinishRemembering, _) => ActionView::RememberFinished,
        (Stage::Finished, _) => ActionView::Return(EndView::Finished),
        _ => ActionView::Return(EndView::Broken),
    }
}

/// The course of a run that was just started.
pub open spec fn started_course(
    input: Envelope,
    persisted_len: nat,
    active_agent: Seq<char>,
) -> CourseView {
    CourseView {
        stage: Stage::Running,
        origin: OriginView::Started {
            principal: Identity {
                agent: active_agent,
                channel: input.channel_id@,
                conversation: input.conversation_id@,
                sender: Some(input.sender@),
            },
            ephemeral: marks_ephemeral(entries_view(input.metadata@)),
        },
        active_agent,
        channel_id: input.channel_id@,
        conversation_id: input.conversation_id@,
        persisted_len,
        span_start: 0,
        event_start: 0,
        reply: None,
    }
}

/// The course of a run whose question `at` an answer settled.
pub open spec fn resumed_course(
    paused: PausedRun,
    witness: ResumeWitness,
    at: int,
    active_agent: Seq<char>,
) -> CourseView {
    CourseView {
        stage: Stage::Resolving,
        origin: OriginView::Resumed {
            answer: AnswerView {
                approval_instance_id: witness.approval_instance_id@,
                subject: paused.state.approvals@[at].subject@,
                outcome: witness.outcome,
                reason: stop_reason(witness),
            },
        },
        active_agent,
        channel_id: paused.channel_id@,
        conversation_id: paused.conversation_id@,
        persisted_len: paused.state.transcript@.len(),
        span_start: paused.state.trace_spans@.len(),
        event_start: paused.state.trace_events@.len(),
        reply: None,
    }
}

/// A course once its loop took a step, with the transcript that led to.
pub open spec fn stepped_course(course: CourseView, event: LoopEvent, items: Seq<ItemView>) -> CourseView {
    match event {
        LoopEvent::Advanced => course,
        LoopEvent::Replied(message) => CourseView {
            stage: finish_stage(items.push(output_item(message@))),
            reply: Some(message@),
            ..course
        },
        LoopEvent::Paused => CourseView { stage: pause_stage(course.origin), ..course },
        LoopEvent::Failed => CourseView { stage: Stage::Failing, ..course },
    }
}

/// Whether a state is that of a run nothing happened in but its start.
pub open spec fn is_at_start(state: RunState, run_id: Seq<char>, active_agent: Seq<char>) -> bool {
    &&& state.run_id@ == run_id
    &&& state.active_agent@ == active_agent
    &&& spans_view(state.trace_spans@) == seq![run_span(run_fields(run_id, active_agent))]
    &&& events_view(state.trace_events@) == seq![bare_event(0, "run_started"@)]
    &&& state.approvals@.len() == 0
}

impl RunCourse {
    /// Starts a run on an envelope, after the history of its conversation.
    pub fn start(input: &Envelope, history: Transcript, run_id: &str, active_agent: &str) -> (out: (
        RunState,
        RunCourse,
    ))
        requires
            ordered(entries_view(input.metadata@)),
        ensures
            out.1@ == started_course(
                *input,
                starting_history(*input, history@).len(),
                active_agent@,
            ),
            out.0.transcript@.len() == starting_history(*input, history@).len() + 1,
            out.0.transcript@.drop_last() == starting_history(*input, history@),
            is_input_item(out.0.transcript@.last(), *input),
            is_at_start(out.0, run_id@, active_agent@),
    {
        let run = start_run(input, history, run_id, active_agent);
        assert(run.state.transcript@.drop_last() =~= run.state.transcript@.take(
            run.persisted_len as int,
        ));
        let course = RunCourse {
            stage: Stage::Running,
            origin: Origin::Started {
                principal: envelope_principal(active_agent, input),
                ephemeral: run.ephemeral,
            },
            active_agent: active_agent.to_owned(),
            channel_id: input.channel_id.clone(),
            conversation_id: input.conversation_id.clone(),
            persisted_len: run.persisted_len,
            span_start: 0,
            event_start: 0,
            reply: None,
        };
        assert(course@ =~= started_course(
            *input,
            run.persisted_len as nat,
            active_agent@,
        ));
        (run.state, course)
    }

    /// Resumes a paused run with an answer. An answer that settles nothing
    /// resumes nothing, and leaves the pause as it was.
    pub fn resume(
        paused: &mut PausedRun,
        witness: &ResumeWitness,
        now: u64,
        active_agent: &str,
    ) -> (out: Result<RunCourse, RunError>)
        ensures
            final(paused).channel_id == old(paused).channel_id,
            final(paused).conversation_id == old(paused).conversation_id,
            is_same_but_for_approvals(final(paused).state, old(paused).state),
            match settled(*witness, *old(paused), now) {
                None => {
                    &&& out matches Err(RunError::NotResumable)
                    &&& *final(paused) == *old(paused)
                },
                Some(at) => {
                    &&& out matches Ok(course) && course@ == resumed_course(
                        *old(paused),
                        *witness,
                        at,
                        active_agent@,
                    )
                    &&& interruptions_view(final(paused).state.approvals@) == interruptions_view(
                        old(paused).state.approvals@,
                    ).update(
                        at,
                        after_answer(
                            interruptions_view(old(paused).state.approvals@)[at],
                            *witness,
                        ),
                    )
                },
            },
    {
        let ghost before = *paused;
        let at: usize = match settle_pause(paused, witness, now) {
            Some(at) => at,
            None => {
                return Err(RunError::NotResumable);
            },
        };
        proof {
            let questions = interruptions_view(paused.state.approvals@);
            assert(questions.len() == interruptions_view(before.state.approvals@).len());
            assert(questions[at as int] == paused.state.approvals@[at as int]@);
            assert(interruptions_view(before.state.approvals@)[at as int]
                == before.state.approvals@[at as int]@);
        }
        let course = RunCourse {
            stage: Stage::Resolving,
            origin: Origin::Resumed {
                answer: Answer {
                    approval_instance_id: witness.approval_instance_id.clone(),
                    subject: paused.state.approvals[at].subject.clone(),
                    outcome: witness.outcome,
                    reason: reason_of(witness),
                },
            },
            active_agent: active_agent.to_owned(),
            channel_id: paused.channel_id.clone(),
            conversation_id: paused.conversation_id.clone(),
            persisted_len: paused.state.transcript.items.len(),
            span_start: paused.state.trace_spans.len(),
            event_start: paused.state.trace_events.len(),
            reply: None,
        };
        assert(course@ =~= resumed_course(before, *witness, at as int, active_agent@));
        Ok(course)
    }

    fn keep_trace(&self, phase: &str) -> (out: RunAction)
        ensures
            out@ == (ActionView::KeepTrace {
                phase: phase@,
                span_start: self.span_start as nat,
                event_start: self.event_start as nat,
            }),
    {
        RunAction::KeepTrace {
            phase: phase.to_owned(),
            span_start: self.span_start,
            event_start: self.event_start,
        }
    }

    /// Says what is due of the answer a run was resumed with.
    fn answer_action(&self, answer: &Answer) -> (out: RunAction)
        requires
            self.origin@ == (OriginView::Resumed { answer: answer@ }),
            self.stage == Stage::Resolving || self.stage == Stage::Denying || self.stage
                == Stage::Stopping || self.stage == Stage::Stopped || self.stage == Stage::Entering,
        ensures
            forall|items: Seq<ItemView>| out@ == #[trigger] due(self@, items),
    {
        let denied = answer.outcome == ApprovalOutcome::Rejected;
        match self.stage {
            Stage::Resolving => {
                let outcome = match answer.outcome {
                    ApprovalOutcome::Approved => SafetyOutcome::Approved,
                    ApprovalOutcome::Rejected => SafetyOutcome::Rejected,
                    _ => SafetyOutcome::Unanswered,
                };
                let detail = match answer.outcome {
                    ApprovalOutcome::Approved => None,
                    _ => Some(answer.reason.clone()),
                };
                RunAction::RecordResolution { outcome, subject: answer.subject.clone(), detail }
            },
            Stage::Denying => RunAction::RememberDenied { reason: answer.reason.clone() },
            Stage::Stopping => self.keep_trace(
                if denied {
                    "denied"
                } else {
                    "unanswered"
                },
            ),
            Stage::Stopped => RunAction::Return(
                RunEnd::Stopped(
                    if denied {
                        RunError::ApprovalDenied { reason: answer.reason.clone() }
                    } else {
                        RunError::ApprovalUnanswered { reason: answer.reason.clone() }
                    },
                ),
            ),
            _ => RunAction::EnterApproved {
                approval_instance_id: answer.approval_instance_id.clone(),
            },
        }
    }

    /// Says what is due.
    pub fn action(&self, state: &RunState) -> (out: RunAction)
        requires
            has_items(self@, state.transcript@.len()),
        ensures
            out@ == due(self@, state.transcript@),
    {
        match self.stage {
            Stage::Resolving
            | Stage::Denying
            | Stage::Stopping
            | Stage::Stopped
            | Stage::Entering => match &self.origin {
                Origin::Resumed { answer } => self.answer_action(answer),
                Origin::Started { .. } => RunAction::Return(RunEnd::Broken),
            },
            Stage::Running => RunAction::Step,
            Stage::Failing => RunAction::RecordFailure {
                span_start: self.span_start,
                event_start: self.event_start,
            },
            Stage::Failed => RunAction::Return(RunEnd::Failed),
            Stage::PauseAppending => match &self.origin {
                Origin::Started { principal, .. } => RunAction::Append {
                    principal: principal.copy(),
                    items: new_items(&state.transcript, self.persisted_len),
                },
                Origin::Resumed { .. } => RunAction::Return(RunEnd::Broken),
            },
            Stage::PauseKeeping => {
                let items = match &self.origin {
                    Origin::Started { .. } => new_items(&state.transcript, self.persisted_len),
                    Origin::Resumed { .. } => {
                        let none: Vec<Item> = Vec::new();
                        assert(items_view(none@) =~= Seq::empty());
                        none
                    },
                };
                RunAction::KeepTask { phase: "paused".to_owned(), items }
            },
            Stage::PauseTracing => self.keep_trace("paused"),
            Stage::Paused => RunAction::Return(RunEnd::Paused),
            Stage::FinishAppending => RunAction::Append {
                principal: Principal::conversation(
                    self.active_agent.as_str(),
                    self.channel_id.as_str(),
                    self.conversation_id.as_str(),
                ),
                items: new_items(&state.transcript, self.persisted_len),
            },
            Stage::FinishKeeping => RunAction::KeepTask {
                phase: "finished".to_owned(),
                items: new_items(&state.transcript, self.persisted_len),
            },
            Stage::FinishTracing => self.keep_trace("finished"),
            Stage::FinishRemembering => RunAction::RememberFinished,
            Stage::Finished => RunAction::Return(RunEnd::Finished),
            Stage::Broken => RunAction::Return(RunEnd::Broken),
        }
    }

    /// Takes note that what was due went well.
    pub fn done(&mut self)
        ensures
            final(self)@ == (CourseView { stage: stage_after(old(self)@), ..old(self)@ }),
    {
        self.stage = match self.stage {
            Stage::Resolving => match &self.origin {
                Origin::Resumed { answer } => match answer.outcome {
                    ApprovalOutcome::Approved => Stage::Entering,
                    ApprovalOutcome::Rejected => Stage::Denying,
                    _ => Stage::Stopping,
                },
                Origin::Started { .. } => Stage::Broken,
            },
            Stage::Denying => Stage::Stopping,
            Stage::Stopping => Stage::Stopped,
            Stage::Entering => Stage::Running,
            Stage::Failing => Stage::Failed,
            Stage::PauseAppending => Stage::PauseKeeping,
            Stage::PauseKeeping => Stage::PauseTracing,
            Stage::PauseTracing => Stage::Paused,
            Stage::FinishAppending => Stage::FinishKeeping,
            Stage::FinishKeeping => Stage::FinishTracing,
            Stage::FinishTracing => Stage::FinishRemembering,
            Stage::FinishRemembering => Stage::Finished,
            stage => stage,
        };
    }

    /// Takes note that what was due failed.
    pub fn failed(&mut self)
        ensures
            final(self)@ == (CourseView {
                stage: stage_after_failure(old(self).stage),
                ..old(self)@
            }),
    {
        self.stage = match self.stage {
            Stage::Entering | Stage::Running => Stage::Failing,
            _ => Stage::Broken,
        };
    }

    /// Takes note of what a step of the loop came to. A reply becomes the last
    /// item of the run.
    pub fn stepped(&mut self, state: &mut RunState, event: LoopEvent)
        requires
            old(self).stage == Stage::Running,
        ensures
            final(self)@ == stepped_course(old(self)@, event, old(state).transcript@),
            match event {
                LoopEvent::Replied(message) => {
                    &&& final(state).transcript@ == old(state).transcript@.push(
                        output_item(message@),
                    )
                    &&& spans_view(final(state).trace_spans@) == spans_at_finish(
                        spans_view(old(state).trace_spans@),
                    )
                    &&& events_view(final(state).trace_events@) == events_view(
                        old(state).trace_events@,
                    ).push(finish_event(spans_view(old(state).trace_spans@)))
                    &&& final(state).run_id == old(state).run_id
                    &&& final(state).active_agent == old(state).active_agent
                    &&& final(state).approvals == old(state).approvals
                },
                _ => *final(state) == *old(state),
            },
    {
        match event {
            LoopEvent::Advanced => {},
            LoopEvent::Replied(message) => {
                close_run(state, &message);
                self.stage = if is_self_contained(&state.transcript) {
                    Stage::FinishKeeping
                } else {
                    Stage::FinishAppending
                };
                self.reply = Some(message);
            },
            LoopEvent::Paused => {
                self.stage = match &self.origin {
                    Origin::Started { ephemeral, .. } => if *ephemeral {
                        Stage::PauseKeeping
                    } else {
                        Stage::PauseAppending
                    },
                    Origin::Resumed { .. } => Stage::PauseKeeping,
                };
            },
            LoopEvent::Failed => {
                self.stage = Stage::Failing;
            },
        }
    }

    /// The envelope a finished run answers with: its reply, back where the
    /// input came from, with what its episode adds.
    pub fn output(self, metadata: Vec<(String, Json)>) -> (out: Option<Envelope>)
        ensures
            out is Some <==> self@.reply is Some,
            out matches Some(envelope) ==> {
                &&& envelope.channel_id@ == self.channel_id@
                &&& envelope.conversation_id@ == self.conversation_id@
                &&& envelope.sender@ == self.active_agent@
                &&& Some(envelope.message@) == self@.reply
                &&& envelope.metadata == metadata
            },
    {
        match self.reply {
            Some(message) => Some(
                Envelope {
                    channel_id: self.channel_id,
                    conversation_id: self.conversation_id,
                    sender: self.active_agent,
                    message,
                    metadata,
                },
            ),
            None => None,
        }
    }
}

/// A decision is on record before it counts: that is the first thing due of a
/// resumed run, and when it fails the run is over.
pub proof fn a_decision_is_on_record_before_it_counts(
    paused: PausedRun,
    witness: ResumeWitness,
    at: int,
    active_agent: Seq<char>,
    items: Seq<ItemView>,
)
    ensures
        due(resumed_course(paused, witness, at, active_agent), items) is RecordResolution,
        stage_after_failure(resumed_course(paused, witness, at, active_agent).stage)
            == Stage::Broken,
{
}

/// Whether a run was stopped by the answer it was resumed with.
pub open spec fn is_stopped_by_answer(course: CourseView) -> bool {
    &&& course.origin matches OriginView::Resumed { answer } && answer.outcome
        != ApprovalOutcome::Approved
    &&& course.stage == Stage::Resolving || course.stage == Stage::Denying || course.stage
        == Stage::Stopping || course.stage == Stage::Stopped || course.stage == Stage::Broken
}

/// What was not approved is never acted on: from the answer to the end, no
/// step of the loop is ever due.
pub proof fn only_an_approval_runs(course: CourseView, items: Seq<ItemView>)
    requires
        is_stopped_by_answer(course),
    ensures
        !(due(course, items) is Step),
        !(due(course, items) is EnterApproved),
        is_stopped_by_answer(CourseView { stage: stage_after(course), ..course }),
        is_stopped_by_answer(CourseView { stage: stage_after_failure(course.stage), ..course }),
{
}

/// Whether a stage writes to the session.
pub open spec fn appends(stage: Stage) -> bool {
    stage == Stage::PauseAppending || stage == Stage::FinishAppending
}

/// The session is written to when a run pauses or finishes, and at no other
/// time: no other stage leads there.
pub proof fn only_an_end_of_the_loop_appends(course: CourseView, items: Seq<ItemView>)
    ensures
        due(course, items) is Append ==> appends(course.stage),
        !appends(stage_after(course)) || course.stage == stage_after(course),
        !appends(stage_after_failure(course.stage)),
{
}

/// A self-contained run writes nothing to the session, whether it pauses or
/// finishes, and whether it was started or resumed.
pub proof fn a_self_contained_run_appends_nothing(
    course: CourseView,
    event: LoopEvent,
    items: Seq<ItemView>,
)
    requires
        course.stage == Stage::Running,
        course.origin matches OriginView::Started { ephemeral, .. } ==> ephemeral,
        is_ephemeral_run(items),
    ensures
        !appends(stepped_course(course, event, items).stage),
{
    if let LoopEvent::Replied(message) = event {
        let all = items.push(output_item(message@));
        assert(all[0] == items[0]);
    }
}

/// A resumed run that pauses again writes nothing to the session.
pub proof fn a_second_pause_appends_nothing(course: CourseView, items: Seq<ItemView>)
    requires
        course.origin is Resumed,
        course.stage == Stage::Running,
    ensures
        !appends(stepped_course(course, LoopEvent::Paused, items).stage),
{
}

/// Whether a run is at a stage its origin leads to: only a resumed run has an
/// answer to deal with, and only a started one hands over what it added when
/// it pauses.
pub open spec fn is_coherent(course: CourseView) -> bool {
    match course.origin {
        OriginView::Started { .. } => course.stage != Stage::Resolving && course.stage
            != Stage::Denying && course.stage != Stage::Stopping && course.stage != Stage::Stopped
            && course.stage != Stage::Entering,
        OriginView::Resumed { .. } => course.stage != Stage::PauseAppending,
    }
}

/// Every course is coherent, from its start on.
pub proof fn courses_stay_coherent(
    input: Envelope,
    persisted_len: nat,
    paused: PausedRun,
    witness: ResumeWitness,
    at: int,
    active_agent: Seq<char>,
    course: CourseView,
    event: LoopEvent,
    items: Seq<ItemView>,
)
    ensures
        is_coherent(started_course(input, persisted_len, active_agent)),
        is_coherent(resumed_course(paused, witness, at, active_agent)),
        is_coherent(course) ==> is_coherent(CourseView { stage: stage_after(course), ..course }),
        is_coherent(course) ==> is_coherent(
            CourseView { stage: stage_after_failure(course.stage), ..course },
        ),
        is_coherent(course) && course.stage == Stage::Running ==> is_coherent(
            stepped_course(course, event, items),
        ),
{
}

/// How much is still due at most, apart from the steps of the loop.
pub open spec fn rank(stage: Stage) -> nat {
    match stage {
        Stage::Resolving => 7,
        Stage::Entering => 6,
        Stage::Running => 5,
        Stage::FinishAppending => 4,
        Stage::FinishKeeping | Stage::PauseAppending => 3,
        Stage::FinishTracing | Stage::PauseKeeping | Stage::Denying => 2,
        Stage::FinishRemembering | Stage::PauseTracing | Stage::Stopping | Stage::Failing => 1,
        _ => 0,
    }
}

/// A course comes to an end: whatever happens leaves less due, except that the
/// loop goes on, and once nothing is due the run is over.
pub proof fn what_is_due_runs_out(course: CourseView, event: LoopEvent, items: Seq<ItemView>)
    ensures
        is_over(course.stage) <==> rank(course.stage) == 0,
        is_coherent(course) ==> (is_over(course.stage) <==> due(course, items) is Return),
        !is_over(course.stage) && course.stage != Stage::Running ==> rank(stage_after(course))
            < rank(course.stage),
        !is_over(course.stage) ==> rank(stage_after_failure(course.stage)) < rank(course.stage),
        course.stage == Stage::Running && !(event is Advanced) ==> rank(
            stepped_course(course, event, items).stage,
        ) < rank(course.stage),
{
}

/// A run has finished only once what it added, what it traced and that it
/// finished were kept, each in its turn.
pub proof fn a_finished_run_was_kept(course: CourseView)
    ensures
        stage_after(course) == Stage::Finished ==> course.stage == Stage::Finished || course.stage
            == Stage::FinishRemembering,
        stage_after(course) == Stage::FinishRemembering ==> course.stage == Stage::FinishTracing,
        stage_after(course) == Stage::FinishTracing ==> course.stage == Stage::FinishKeeping,
{
}

/// A pause loses nothing: what the conversation held, what was handed over at
/// the pause, and what is handed over at the end make up the transcript, when
/// the run went on from where it paused.
pub proof fn a_pause_loses_nothing(
    started: CourseView,
    resumed: CourseView,
    history: Seq<ItemView>,
    at_pause: Seq<ItemView>,
    at_end: Seq<ItemView>,
)
    requires
        started.origin is Started,
        started.stage == Stage::PauseAppending,
        has_items(started, at_pause.len()),
        at_pause.take(started.persisted_len as int) == history,
        resumed.stage == Stage::FinishAppending,
        resumed.persisted_len == at_pause.len(),
        has_items(resumed, at_end.len()),
        at_end.take(at_pause.len() as int) == at_pause,
    ensures
        due(started, at_pause) is Append,
        due(resumed, at_end) is Append,
        history + due(started, at_pause)->Append_items + due(resumed, at_end)->Append_items
            == at_end,
{
    assert(history + at_pause.skip(started.persisted_len as int) =~= at_pause);
    assert(at_pause + at_end.skip(at_pause.len() as int) =~= at_end);
}

/// A decision goes on record as what it was; what nobody decided goes on record
/// as unanswered.
pub proof fn a_decision_is_recorded_as_it_was(outcome: ApprovalOutcome)
    ensures
        recorded_outcome(outcome) == SafetyOutcome::Approved <==> outcome
            == ApprovalOutcome::Approved,
        recorded_outcome(outcome) == SafetyOutcome::Rejected <==> outcome
            == ApprovalOutcome::Rejected,
        recorded_outcome(outcome) == SafetyOutcome::Unanswered <==> outcome
            == ApprovalOutcome::Cancelled || outcome == ApprovalOutcome::Unavailable,
{
}

/// What a run added is handed over whole, to the session and to the task: what
/// there was before it, followed by what is handed over, is the transcript.
pub proof fn what_a_run_added_is_handed_over(
    course: CourseView,
    history: Seq<ItemView>,
    added: Seq<ItemView>,
)
    requires
        course.persisted_len == history.len(),
        course.stage == Stage::FinishAppending || course.stage == Stage::FinishKeeping || (
        course.origin is Started && (course.stage == Stage::PauseAppending || course.stage
            == Stage::PauseKeeping)),
    ensures
        (match due(course, history + added) {
            ActionView::Append { items, .. } => items == added,
            ActionView::KeepTask { items, .. } => items == added,
            _ => false,
        }),
{
    assert((history + added).skip(history.len() as int) =~= added);
}

/// What is written to the session at the end goes to the run's own
/// conversation, in nobody's name; what is written at a pause goes there in the
/// name of whoever started it.
pub proof fn what_is_appended_goes_to_its_conversation(
    course: CourseView,
    items: Seq<ItemView>,
)
    ensures
        course.stage == Stage::FinishAppending ==> (due(course, items) matches ActionView::Append {
            principal,
            ..
        } && principal.agent == course.active_agent && principal.channel == course.channel_id
            && principal.conversation == course.conversation_id && principal.sender is None),
        course.stage == Stage::PauseAppending ==> (course.origin matches OriginView::Started {
            principal: own,
            ..
        } ==> (due(course, items) matches ActionView::Append { principal, .. } && principal
            == own)),
{
}

/// What is kept says how the run went, and the trace is kept from where it
/// began.
pub proof fn what_is_kept_says_how_it_went(course: CourseView, items: Seq<ItemView>)
    ensures
        due(course, items) matches ActionView::KeepTrace { phase, span_start, event_start } ==> {
            &&& span_start == course.span_start
            &&& event_start == course.event_start
            &&& phase == "finished"@ ==> course.stage == Stage::FinishTracing
            &&& course.stage == Stage::FinishTracing ==> phase == "finished"@
            &&& course.stage == Stage::PauseTracing ==> phase == "paused"@
            &&& course.stage == Stage::Stopping ==> (course.origin matches OriginView::Resumed {
                answer,
            } && phase == if answer.outcome == ApprovalOutcome::Rejected {
                "denied"@
            } else {
                "unanswered"@
            })
        },
        due(course, items) matches ActionView::KeepTask { phase, .. } ==> {
            &&& course.stage == Stage::FinishKeeping ==> phase == "finished"@
            &&& course.stage == Stage::PauseKeeping ==> phase == "paused"@
        },
        due(course, items) matches ActionView::RecordFailure { span_start, event_start } ==> {
            &&& span_start == course.span_start
            &&& event_start == course.event_start
        },
{
    reveal_strlit("finished");
    reveal_strlit("paused");
    reveal_strlit("denied");
    reveal_strlit("unanswered");
    assert("finished"@.len() == 8);
    assert("paused"@.len() == 6);
    assert("denied"@.len() == 6);
    assert("unanswered"@.len() == 10);
}

/// What an answer stops is told with its reason, and as a refusal only when it
/// was one.
pub proof fn a_stop_is_told_with_its_reason(course: CourseView, items: Seq<ItemView>)
    requires
        course.origin is Resumed,
    ensures
        course.origin matches OriginView::Resumed { answer } ==> {
            &&& course.stage == Stage::Stopped && answer.outcome == ApprovalOutcome::Rejected
                ==> due(course, items) == ActionView::Return(EndView::Denied(answer.reason))
            &&& course.stage == Stage::Stopped && answer.outcome != ApprovalOutcome::Rejected
                ==> due(course, items) == ActionView::Return(EndView::Unanswered(answer.reason))
            &&& course.stage == Stage::Denying ==> due(course, items) == (
            ActionView::RememberDenied { reason: answer.reason })
            &&& course.stage == Stage::Entering ==> due(course, items) == (
            ActionView::EnterApproved { approval_instance_id: answer.approval_instance_id })
            &&& course.stage == Stage::Resolving ==> (due(course, items) matches
                ActionView::RecordResolution { outcome, subject, detail } && subject
                == answer.subject && outcome == recorded_outcome(answer.outcome) && (detail is None
                <==> answer.outcome == ApprovalOutcome::Approved) && (detail matches Some(text)
                ==> text == answer.reason))
        },
{
}

/// A run that just started speaks for whoever sent its input, in their
/// conversation, and keeps its trace from the beginning.
pub proof fn a_started_run_speaks_for_its_sender(
    input: Envelope,
    persisted_len: nat,
    active_agent: Seq<char>,
)
    ensures
        ({
            let course = started_course(input, persisted_len, active_agent);
            &&& course.stage == Stage::Running
            &&& course.origin matches OriginView::Started { principal, ephemeral }
            &&& principal.agent == active_agent
            &&& principal.channel == input.channel_id@
            &&& principal.conversation == input.conversation_id@
            &&& principal.sender == Some(input.sender@)
            &&& ephemeral == marks_ephemeral(entries_view(input.metadata@))
            &&& course.active_agent == active_agent
            &&& course.channel_id == input.channel_id@
            &&& course.conversation_id == input.conversation_id@
            &&& course.persisted_len == persisted_len
            &&& course.span_start == 0
            &&& course.event_start == 0
            &&& course.reply is None
        }),
{
}

/// A resumed run keeps nothing twice: what the pause held counts as kept.
pub proof fn a_resumed_run_keeps_nothing_twice(
    paused: PausedRun,
    witness: ResumeWitness,
    at: int,
    active_agent: Seq<char>,
)
    ensures
        ({
            let course = resumed_course(paused, witness, at, active_agent);
            &&& course.persisted_len == paused.state.transcript@.len()
            &&& course.span_start == paused.state.trace_spans@.len()
            &&& course.event_start == paused.state.trace_events@.len()
            &&& course.channel_id == paused.channel_id@
            &&& course.conversation_id == paused.conversation_id@
            &&& course.active_agent == active_agent
            &&& course.origin matches OriginView::Resumed { answer }
            &&& answer.outcome == witness.outcome
            &&& answer.approval_instance_id == witness.approval_instance_id@
            &&& answer.subject == paused.state.approvals@[at].subject@
            &&& answer.reason == stop_reason(witness)
        }),
{
}

/// An answer is followed: an approval enters the loop, a refusal is remembered
/// before the run stops, and anything else stops it.
pub proof fn an_answer_is_followed(course: CourseView, answer: AnswerView)
    requires
        course.origin == (OriginView::Resumed { answer }),
    ensures
        course.stage == Stage::Resolving && answer.outcome == ApprovalOutcome::Approved
            ==> stage_after(course) == Stage::Entering,
        course.stage == Stage::Resolving && answer.outcome == ApprovalOutcome::Rejected
            ==> stage_after(course) == Stage::Denying,
        course.stage == Stage::Resolving && (answer.outcome == ApprovalOutcome::Cancelled
            || answer.outcome == ApprovalOutcome::Unavailable) ==> stage_after(course)
            == Stage::Stopping,
        course.stage == Stage::Entering ==> stage_after(course) == Stage::Running,
        stage_after(course) == Stage::Stopped ==> course.stage == Stage::Stopping || course.stage
            == Stage::Stopped,
{
}

/// A run has paused only once what it added and what it traced were kept, each
/// in its turn, and has failed only once that was recorded.
pub proof fn a_paused_run_was_kept(course: CourseView)
    ensures
        stage_after(course) == Stage::Paused ==> course.stage == Stage::Paused || course.stage
            == Stage::PauseTracing,
        stage_after(course) == Stage::PauseTracing ==> course.stage == Stage::PauseKeeping,
        stage_after(course) == Stage::PauseKeeping ==> course.stage == Stage::PauseAppending,
        stage_after(course) == Stage::FinishKeeping ==> course.stage == Stage::FinishAppending,
        stage_after(course) == Stage::Failed ==> course.stage == Stage::Failed || course.stage
            == Stage::Failing,
        course.stage == Stage::PauseAppending ==> stage_after(course) == Stage::PauseKeeping,
        course.stage == Stage::FinishAppending ==> stage_after(course) == Stage::FinishKeeping,
{
}

/// What the loop comes to decides what follows: a reply finishes the run and is
/// its reply, a question pauses it, a failure is recorded, and anything else
/// changes nothing. What an ordinary run added goes to its session.
pub proof fn the_loop_decides_what_follows(
    course: CourseView,
    message: Message,
    items: Seq<ItemView>,
)
    ensures
        stepped_course(course, LoopEvent::Advanced, items) == course,
        stepped_course(course, LoopEvent::Failed, items).stage == Stage::Failing,
        stepped_course(course, LoopEvent::Replied(message), items).reply == Some(message@),
        items.len() > 0 ==> (stepped_course(course, LoopEvent::Replied(message), items).stage
            == if marks_ephemeral(items[0].metadata) {
            Stage::FinishKeeping
        } else {
            Stage::FinishAppending
        }),
        course.origin matches OriginView::Started { ephemeral, .. } ==> (stepped_course(
            course,
            LoopEvent::Paused,
            items,
        ).stage == if ephemeral {
            Stage::PauseKeeping
        } else {
            Stage::PauseAppending
        }),
        stepped_course(course, LoopEvent::Paused, items).reply == course.reply,
        stepped_course(course, LoopEvent::Replied(message), items).persisted_len
            == course.persisted_len,
{
    if items.len() > 0 {
        assert(items.push(output_item(message@))[0] == items[0]);
    }
}

/// A failure of the loop is recorded; any other failure is the run's own.
pub proof fn only_a_failure_of_the_loop_is_recorded(stage: Stage)
    ensures
        stage_after_failure(stage) == Stage::Failing <==> stage == Stage::Entering || stage
            == Stage::Running,
        stage_after_failure(stage) == Stage::Failing || stage_after_failure(stage) == Stage::Broken,
{
}

} // verus!
