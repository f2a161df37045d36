//! What a turn comes to.

use crate::json::{copy_entries, entries_view, Json, Value};
use crate::lists::copy_texts;
use crate::message::{calls_view, CallView, Message, MessageView, ToolCall};
use crate::text::texts;
use vstd::prelude::*;

verus! {

/// A sub-agent to hand work to.
pub struct SubAgentSpec {
    pub agent_id: String,
    pub policy_id: String,
    pub metadata: Vec<(String, Json)>,
}

/// What a [`SubAgentSpec`] stands for.
#[verifier::ext_equal]
pub struct SubAgentView {
    pub agent_id: Seq<char>,
    pub policy_id: Seq<char>,
    pub metadata: Seq<(Seq<char>, Value)>,
}

impl View for SubAgentSpec {
    type V = SubAgentView;

    open spec fn view(&self) -> SubAgentView {
        SubAgentView {
            agent_id: self.agent_id@,
            policy_id: self.policy_id@,
            metadata: entries_view(self.metadata@),
        }
    }
}

impl SubAgentSpec {
    /// Copies a sub-agent.
    pub fn copy(&self) -> (out: SubAgentSpec)
        ensures
            out@ == self@,
    {
        SubAgentSpec {
            agent_id: self.agent_id.clone(),
            policy_id: self.policy_id.clone(),
            metadata: copy_entries(&self.metadata),
        }
    }
}

/// One stage of an escalation.
pub struct Stage {
    pub name: String,
    pub agent: SubAgentSpec,
    /// The stages that come first.
    pub depends_on: Vec<String>,
}

/// What a [`Stage`] stands for.
#[verifier::ext_equal]
pub struct StageView {
    pub name: Seq<char>,
    pub agent: SubAgentView,
    pub depends_on: Seq<Seq<char>>,
}

impl View for Stage {
    type V = StageView;

    open spec fn view(&self) -> StageView {
        StageView { name: self.name@, agent: self.agent@, depends_on: texts(self.depends_on@) }
    }
}

/// An escalation: named stages that depend on one another.
pub struct OrchestratorTemplate {
    pub name: String,
    pub stages: Vec<Stage>,
}

/// What an [`OrchestratorTemplate`] stands for.
#[verifier::ext_equal]
pub struct TemplateView {
    pub name: Seq<char>,
    pub stages: Seq<StageView>,
}

/// The stages of a list.
pub open spec fn stages_view(stages: Seq<Stage>) -> Seq<StageView> {
    stages.map_values(|s: Stage| s@)
}

impl View for OrchestratorTemplate {
    type V = TemplateView;

    open spec fn view(&self) -> TemplateView {
        TemplateView { name: self.name@, stages: stages_view(self.stages@) }
    }
}

impl OrchestratorTemplate {
    /// Copies a template.
    pub fn copy(&self) -> (out: OrchestratorTemplate)
        ensures
            out@ == self@,
    {
        let mut stages: Vec<Stage> = Vec::new();
        let mut i: usize = 0;
        while i < self.stages.len()
            invariant
                i <= self.stages@.len(),
                stages@.len() == i,
                forall|k: int| 0 <= k < i ==> (#[trigger] stages@[k])@ == self.stages@[k]@,
            decreases self.stages@.len() - i,
        {
            let stage: &Stage = &self.stages[i];
            stages.push(
                Stage {
                    name: stage.name.clone(),
                    agent: stage.agent.copy(),
                    depends_on: copy_texts(&stage.depends_on),
                },
            );
            i = i + 1;
        }
        let out = OrchestratorTemplate { name: self.name.clone(), stages };
        assert(out@ =~= self@);
        out
    }
}

/// An escalation to run for a task.
pub struct SubOrchSpec {
    pub template: OrchestratorTemplate,
    pub task_id: String,
    pub policy_id: String,
    pub metadata: Vec<(String, Json)>,
}

/// What a turn comes to.
pub enum Plan {
    Reply(Message),
    CallTool(ToolCall),
    /// Several calls, each of which is approved and made on its own.
    CallTools(Vec<ToolCall>),
    Delegate(SubAgentSpec),
    Escalate(SubOrchSpec),
}

/// What a [`Plan`] stands for.
pub enum PlanView {
    Reply(MessageView),
    CallTool(CallView),
    CallTools(Seq<CallView>),
    Delegate(SubAgentView),
    Escalate {
        template: TemplateView,
        task_id: Seq<char>,
        policy_id: Seq<char>,
        metadata: Seq<(Seq<char>, Value)>,
    },
}

impl View for Plan {
    type V = PlanView;

    open spec fn view(&self) -> PlanView {
        match *self {
            Plan::Reply(message) => PlanView::Reply(message@),
            Plan::CallTool(call) => PlanView::CallTool(call@),
            Plan::CallTools(calls) => PlanView::CallTools(calls_view(calls@)),
            Plan::Delegate(spec) => PlanView::Delegate(spec@),
            Plan::Escalate(spec) => PlanView::Escalate {
                template: spec.template@,
                task_id: spec.task_id@,
                policy_id: spec.policy_id@,
                metadata: entries_view(spec.metadata@),
            },
        }
    }
}

/// The view of an optional plan.
pub open spec fn plan_view(plan: Option<Plan>) -> Option<PlanView> {
    match plan {
        Some(plan) => Some(plan@),
        None => None,
    }
}

/// Why a provider failed.
pub enum LlmError {
    /// The request did not fit the model's window.
    ContextLengthExceeded(String),
    /// A stream broke while it was read.
    StreamTransport(String),
    /// Anything else, as it is reported.
    Provider(String),
}

/// Why planning failed.
pub enum OrchestratorError {
    ContextLengthExceeded(String),
    Backend(String),
}

/// How a failure is reported: the text of it, for what has no class of its
/// own.
pub fn planning_error(error: LlmError, reported: String) -> (out: OrchestratorError)
    ensures
        error matches LlmError::ContextLengthExceeded(detail) ==> out
            == OrchestratorError::ContextLengthExceeded(detail),
        !(error is ContextLengthExceeded) ==> out == OrchestratorError::Backend(reported),
{
    match error {
        LlmError::ContextLengthExceeded(detail) => OrchestratorError::ContextLengthExceeded(detail),
        _ => OrchestratorError::Backend(reported),
    }
}

/// What a response comes to: its calls, all of them, or the response itself
/// when it asks for none.
pub open spec fn planned(response: MessageView) -> PlanView {
    if response.tool_calls.len() == 0 {
        PlanView::Reply(response)
    } else if response.tool_calls.len() == 1 {
        PlanView::CallTool(response.tool_calls[0])
    } else {
        PlanView::CallTools(response.tool_calls)
    }
}

/// Computes [`planned`].
pub fn plan_from_response(response: Message) -> (plan: Plan)
    ensures
        plan@ == planned(response@),
{
    let ghost view = response@;
    assert(view.tool_calls.len() == response.tool_calls@.len());
    let count: usize = response.tool_calls.len();
    if count == 0 {
        Plan::Reply(response)
    } else if count == 1 {
        let call = response.tool_calls[0].copy();
        assert(view.tool_calls[0] == call@);
        Plan::CallTool(call)
    } else {
        Plan::CallTools(response.tool_calls)
    }
}

/// No call a model asked for is dropped: the calls of the plan are the calls
/// of the response, in order.
pub proof fn every_call_is_planned(response: MessageView)
    ensures
        (match planned(response) {
            PlanView::CallTool(call) => seq![call],
            PlanView::CallTools(calls) => calls,
            _ => Seq::<CallView>::empty(),
        }) =~= response.tool_calls,
{
}

/// A response that asks for nothing is the reply, whole; one call is made by
/// itself, and several are made together.
pub proof fn a_response_without_calls_is_the_reply(response: MessageView)
    ensures
        response.tool_calls.len() == 0 <==> planned(response) == PlanView::Reply(response),
        response.tool_calls.len() == 1 <==> planned(response) is CallTool,
        response.tool_calls.len() > 1 <==> planned(response) is CallTools,
{
}

} // verus!
