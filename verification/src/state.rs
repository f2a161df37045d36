//! The state of one run, as far as its decisions read it.

use crate::identity::{Identity, Principal};
use crate::json::{entries_view, Json, Value};
use crate::message::Transcript;
use vstd::prelude::*;

verus! {

/// What a span of a run covers.
#[derive(Clone, Copy, Debug, PartialEq, Eq, Structural)]
pub enum SpanKind {
    /// The run itself.
    Run,
    /// One tool call.
    Tool,
    Other,
}

/// A stretch of a run. Its place in the run's list is what names it.
pub struct TraceSpan {
    pub parent: Option<usize>,
    pub kind: SpanKind,
    pub name: String,
    pub fields: Vec<(String, Json)>,
}

/// What a [`TraceSpan`] stands for.
#[verifier::ext_equal]
pub struct SpanView {
    pub parent: Option<usize>,
    pub kind: SpanKind,
    pub name: Seq<char>,
    pub fields: Seq<(Seq<char>, Value)>,
}

impl View for TraceSpan {
    type V = SpanView;

    open spec fn view(&self) -> SpanView {
        SpanView {
            parent: self.parent,
            kind: self.kind,
            name: self.name@,
            fields: entries_view(self.fields@),
        }
    }
}

/// The spans of a list.
pub open spec fn spans_view(spans: Seq<TraceSpan>) -> Seq<SpanView> {
    spans.map_values(|s: TraceSpan| s@)
}

/// Something that happened during a run, in the order it happened.
pub struct TraceEvent {
    /// The place of the span it happened in.
    pub span: usize,
    pub name: String,
    pub fields: Vec<(String, Json)>,
}

/// What a [`TraceEvent`] stands for.
#[verifier::ext_equal]
pub struct EventView {
    pub span: nat,
    pub name: Seq<char>,
    pub fields: Seq<(Seq<char>, Value)>,
}

impl View for TraceEvent {
    type V = EventView;

    open spec fn view(&self) -> EventView {
        EventView { span: self.span as nat, name: self.name@, fields: entries_view(self.fields@) }
    }
}

/// The events of a list.
pub open spec fn events_view(events: Seq<TraceEvent>) -> Seq<EventView> {
    events.map_values(|e: TraceEvent| e@)
}

/// Where a question stands.
pub enum ApprovalStatus {
    Pending,
    Approved,
    Rejected { reason: String },
    Unanswered { reason: String },
}

/// What an [`ApprovalStatus`] stands for.
pub enum StatusView {
    Pending,
    Approved,
    Rejected { reason: Seq<char> },
    Unanswered { reason: Seq<char> },
}

impl View for ApprovalStatus {
    type V = StatusView;

    open spec fn view(&self) -> StatusView {
        match *self {
            ApprovalStatus::Pending => StatusView::Pending,
            ApprovalStatus::Approved => StatusView::Approved,
            ApprovalStatus::Rejected { reason } => StatusView::Rejected { reason: reason@ },
            ApprovalStatus::Unanswered { reason } => StatusView::Unanswered { reason: reason@ },
        }
    }
}

/// A question a run paused for.
pub struct Interruption {
    pub approval_instance_id: String,
    pub approval_ticket: String,
    pub id: String,
    /// Whom it was asked on behalf of.
    pub prompting_principal: Principal,
    /// What it is about.
    pub subject: String,
    pub status: ApprovalStatus,
    /// Whether it was acted on and cannot be again.
    pub consumed: bool,
    /// Who answered it.
    pub resolver_principal: Option<Principal>,
    /// Whether it stands for a sub-agent's own pending question.
    pub child_pending: bool,
    /// Who answered the sub-agent's question.
    pub child_resolver: Option<Principal>,
}

/// The view of an optional principal.
pub open spec fn principal_view(principal: Option<Principal>) -> Option<Identity> {
    match principal {
        Some(principal) => Some(principal@),
        None => None,
    }
}

/// What an [`Interruption`] stands for.
#[verifier::ext_equal]
pub struct InterruptionView {
    pub approval_instance_id: Seq<char>,
    pub approval_ticket: Seq<char>,
    pub id: Seq<char>,
    pub prompting_principal: Identity,
    pub subject: Seq<char>,
    pub status: StatusView,
    pub consumed: bool,
    pub resolver_principal: Option<Identity>,
    pub child_pending: bool,
    pub child_resolver: Option<Identity>,
}

impl View for Interruption {
    type V = InterruptionView;

    open spec fn view(&self) -> InterruptionView {
        InterruptionView {
            approval_instance_id: self.approval_instance_id@,
            approval_ticket: self.approval_ticket@,
            id: self.id@,
            prompting_principal: self.prompting_principal@,
            subject: self.subject@,
            status: self.status@,
            consumed: self.consumed,
            resolver_principal: principal_view(self.resolver_principal),
            child_pending: self.child_pending,
            child_resolver: principal_view(self.child_resolver),
        }
    }
}

/// The questions of a list.
pub open spec fn interruptions_view(list: Seq<Interruption>) -> Seq<InterruptionView> {
    list.map_values(|i: Interruption| i@)
}

/// One run: who is active, the conversation so far, what was traced, and what
/// it asked.
pub struct RunState {
    pub run_id: String,
    pub active_agent: String,
    pub transcript: Transcript,
    pub trace_spans: Vec<TraceSpan>,
    pub trace_events: Vec<TraceEvent>,
    pub approvals: Vec<Interruption>,
}

impl RunState {
    /// A run that has not started: nothing said, traced or asked.
    pub fn new(run_id: &str, active_agent: &str) -> (out: RunState)
        ensures
            out.run_id@ == run_id@,
            out.active_agent@ == active_agent@,
            out.transcript@.len() == 0,
            out.trace_spans@.len() == 0,
            out.trace_events@.len() == 0,
            out.approvals@.len() == 0,
    {
        RunState {
            run_id: run_id.to_owned(),
            active_agent: active_agent.to_owned(),
            transcript: Transcript { items: Vec::new() },
            trace_spans: Vec::new(),
            trace_events: Vec::new(),
            approvals: Vec::new(),
        }
    }
}

} // verus!
