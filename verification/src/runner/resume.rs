//! Answering the question a run paused for.
//!
//! An answer is taken once, only for the question it was bound to, only in the
//! conversation that asked, and, where somebody decided, only before it
//! expires. Everything else leaves the pause as it was.

use crate::identity::Principal;
use crate::state::{
    interruptions_view, ApprovalStatus, Interruption, InterruptionView, RunState, StatusView,
};
use crate::text::same;
use vstd::prelude::*;

verus! {

/// How a question was answered.
#[derive(Clone, Copy, Debug, PartialEq, Eq, Structural)]
pub enum ApprovalOutcome {
    Approved,
    Rejected,
    /// It was withdrawn, or it expired.
    Cancelled,
    /// There was nobody to ask.
    Unavailable,
}

/// The stable name of an outcome.
pub open spec fn approval_name(outcome: ApprovalOutcome) -> Seq<char> {
    match outcome {
        ApprovalOutcome::Approved => "approved"@,
        ApprovalOutcome::Rejected => "rejected"@,
        ApprovalOutcome::Cancelled => "cancelled"@,
        ApprovalOutcome::Unavailable => "unavailable"@,
    }
}

impl ApprovalOutcome {
    /// The stable name of this outcome.
    pub fn as_str(self) -> (name: &'static str)
        ensures
            name@ == approval_name(self),
    {
        match self {
            ApprovalOutcome::Approved => "approved",
            ApprovalOutcome::Rejected => "rejected",
            ApprovalOutcome::Cancelled => "cancelled",
            ApprovalOutcome::Unavailable => "unavailable",
        }
    }
}

/// An answer, bound to the question it is for.
pub struct ResumeWitness {
    pub approval_instance_id: String,
    pub ticket: String,
    pub interruption_id: String,
    pub prompting_principal: Principal,
    pub resolver_principal: Principal,
    pub outcome: ApprovalOutcome,
    pub reason: Option<String>,
    /// When a decision stops counting, in Unix seconds.
    pub expires_at: Option<u64>,
}

/// A run that waits for an answer, and where it was asked.
pub struct PausedRun {
    pub channel_id: String,
    pub conversation_id: String,
    pub state: RunState,
}

/// Why a run does not go on.
#[derive(Debug)]
pub enum RunError {
    NotResumable,
    ApprovalDenied { reason: String },
    ApprovalUnanswered { reason: String },
}

/// Whether an answer is for a question that is still open.
pub open spec fn answers(witness: ResumeWitness, question: InterruptionView) -> bool {
    &&& question.approval_instance_id == witness.approval_instance_id@
    &&& question.approval_ticket == witness.ticket@
    &&& question.id == witness.interruption_id@
    &&& question.prompting_principal == witness.prompting_principal@
    &&& question.status is Pending
    &&& !question.consumed
}

fn is_answer(witness: &ResumeWitness, question: &Interruption) -> (yes: bool)
    ensures
        yes == answers(*witness, question@),
{
    let open = match &question.status {
        ApprovalStatus::Pending => !question.consumed,
        _ => false,
    };
    open && same(
        question.approval_instance_id.as_str(),
        witness.approval_instance_id.as_str(),
    ) && same(question.approval_ticket.as_str(), witness.ticket.as_str()) && same(
        question.id.as_str(),
        witness.interruption_id.as_str(),
    ) && question.prompting_principal.same_as(&witness.prompting_principal)
}

/// The first question at or after `i` an answer is for.
pub open spec fn answered_question(
    witness: ResumeWitness,
    questions: Seq<InterruptionView>,
    i: int,
) -> Option<int>
    decreases questions.len() - i,
{
    if i < 0 || i >= questions.len() {
        None
    } else if answers(witness, questions[i]) {
        Some(i)
    } else {
        answered_question(witness, questions, i + 1)
    }
}

/// Whether an answer comes from the conversation that paused.
pub open spec fn is_own_conversation(witness: ResumeWitness, paused: PausedRun) -> bool {
    &&& witness.prompting_principal@.agent == paused.state.active_agent@
    &&& witness.prompting_principal@.channel == paused.channel_id@
    &&& witness.prompting_principal@.conversation == paused.conversation_id@
}

/// Whether a decision came too late. What nobody decided does not expire.
pub open spec fn is_expired(witness: ResumeWitness, now: u64) -> bool {
    &&& witness.outcome == ApprovalOutcome::Approved || witness.outcome
        == ApprovalOutcome::Rejected
    &&& witness.expires_at matches Some(expires_at) && now >= expires_at
}

/// The question an answer settles, when it settles any.
pub open spec fn settled(witness: ResumeWitness, paused: PausedRun, now: u64) -> Option<int> {
    if is_own_conversation(witness, paused) && !is_expired(witness, now) {
        answered_question(witness, interruptions_view(paused.state.approvals@), 0)
    } else {
        None
    }
}

/// Why a run stops, when its question was not approved.
pub open spec fn stop_reason(witness: ResumeWitness) -> Seq<char> {
    match witness.outcome {
        ApprovalOutcome::Approved => ""@,
        ApprovalOutcome::Rejected => match witness.reason {
            Some(reason) => reason@,
            None => "approval rejected"@,
        },
        _ => (match witness.reason {
            Some(reason) => reason@,
            None => "approval went unanswered"@,
        }) + " ("@ + approval_name(witness.outcome) + ")"@,
    }
}

/// A question once it is settled.
pub open spec fn after_answer(question: InterruptionView, witness: ResumeWitness) -> InterruptionView {
    InterruptionView {
        status: match witness.outcome {
            ApprovalOutcome::Approved => StatusView::Approved,
            ApprovalOutcome::Rejected => StatusView::Rejected { reason: stop_reason(witness) },
            _ => StatusView::Unanswered { reason: stop_reason(witness) },
        },
        consumed: witness.outcome != ApprovalOutcome::Approved,
        resolver_principal: Some(witness.resolver_principal@),
        child_resolver: if question.child_pending {
            Some(witness.resolver_principal@)
        } else {
            question.child_resolver
        },
        ..question
    }
}

/// Says why a run stops.
pub fn reason_of(witness: &ResumeWitness) -> (out: String)
    ensures
        out@ == stop_reason(*witness),
{
    if witness.outcome == ApprovalOutcome::Approved {
        return "".to_owned();
    }
    if witness.outcome == ApprovalOutcome::Rejected {
        return match &witness.reason {
            Some(reason) => reason.clone(),
            None => "approval rejected".to_owned(),
        };
    }
    let mut out = match &witness.reason {
        Some(reason) => reason.clone(),
        None => "approval went unanswered".to_owned(),
    };
    out.push_str(" (");
    out.push_str(witness.outcome.as_str());
    out.push_str(")");
    out
}

fn settle_question(question: &Interruption, witness: &ResumeWitness) -> (out: Interruption)
    requires
        answers(*witness, question@),
    ensures
        out@ == after_answer(question@, *witness),
{
    let status = match witness.outcome {
        ApprovalOutcome::Approved => ApprovalStatus::Approved,
        ApprovalOutcome::Rejected => ApprovalStatus::Rejected { reason: reason_of(witness) },
        _ => ApprovalStatus::Unanswered { reason: reason_of(witness) },
    };
    let child_resolver = if question.child_pending {
        Some(witness.resolver_principal.copy())
    } else {
        match &question.child_resolver {
            Some(principal) => Some(principal.copy()),
            None => None,
        }
    };
    Interruption {
        approval_instance_id: question.approval_instance_id.clone(),
        approval_ticket: question.approval_ticket.clone(),
        id: question.id.clone(),
        prompting_principal: question.prompting_principal.copy(),
        subject: question.subject.clone(),
        status,
        consumed: witness.outcome != ApprovalOutcome::Approved,
        resolver_principal: Some(witness.resolver_principal.copy()),
        child_pending: question.child_pending,
        child_resolver,
    }
}

/// Whether two states differ in what they ask at most.
pub open spec fn is_same_but_for_approvals(state: RunState, other: RunState) -> bool {
    &&& state.run_id == other.run_id
    &&& state.active_agent == other.active_agent
    &&& state.transcript == other.transcript
    &&& state.trace_spans == other.trace_spans
    &&& state.trace_events == other.trace_events
}

/// Applies an answer to a paused run, and says which question it settled. An
/// answer that settles nothing changes nothing.
pub fn settle_pause(paused: &mut PausedRun, witness: &ResumeWitness, now: u64) -> (out: Option<usize>)
    ensures
        final(paused).channel_id == old(paused).channel_id,
        final(paused).conversation_id == old(paused).conversation_id,
        is_same_but_for_approvals(final(paused).state, old(paused).state),
        match settled(*witness, *old(paused), now) {
            None => out is None && *final(paused) == *old(paused),
            Some(at) => {
                &&& out matches Some(index) && index == at
                &&& 0 <= at < old(paused).state.approvals@.len()
                &&& interruptions_view(final(paused).state.approvals@) == interruptions_view(
                    old(paused).state.approvals@,
                ).update(
                    at,
                    after_answer(interruptions_view(old(paused).state.approvals@)[at], *witness),
                )
            },
        },
{
    let prompt: &Principal = &witness.prompting_principal;
    if !same(prompt.agent.as_str(), paused.state.active_agent.as_str()) || !same(
        prompt.channel.as_str(),
        paused.channel_id.as_str(),
    ) || !same(prompt.conversation.as_str(), paused.conversation_id.as_str()) {
        return None;
    }
    let decided = witness.outcome == ApprovalOutcome::Approved || witness.outcome
        == ApprovalOutcome::Rejected;
    let late = match witness.expires_at {
        Some(expires_at) => now >= expires_at,
        None => false,
    };
    if decided && late {
        return None;
    }
    let ghost questions = interruptions_view(paused.state.approvals@);
    let mut at: usize = 0;
    while at < paused.state.approvals.len() && !is_answer(witness, &paused.state.approvals[at])
        invariant
            at <= paused.state.approvals@.len(),
            *paused == *old(paused),
            questions == interruptions_view(paused.state.approvals@),
            answered_question(*witness, questions, 0) == answered_question(
                *witness,
                questions,
                at as int,
            ),
        decreases paused.state.approvals@.len() - at,
    {
        assert(questions[at as int] == paused.state.approvals@[at as int]@);
        at = at + 1;
    }
    if at == paused.state.approvals.len() {
        return None;
    }
    assert(questions[at as int] == paused.state.approvals@[at as int]@);
    let question = settle_question(&paused.state.approvals[at], witness);
    let ghost view = question@;
    paused.state.approvals.set(at, question);
    assert(interruptions_view(paused.state.approvals@) =~= questions.update(at as int, view));
    Some(at)
}

/// A question is settled once: no answer is ever for it again.
pub proof fn a_question_is_settled_once(
    question: InterruptionView,
    first: ResumeWitness,
    second: ResumeWitness,
)
    requires
        answers(first, question),
    ensures
        !answers(second, after_answer(question, first)),
{
}

/// Only the ticket a question was issued with answers it.
pub proof fn only_the_issued_ticket_answers(witness: ResumeWitness, question: InterruptionView)
    requires
        witness.ticket@ != question.approval_ticket,
    ensures
        !answers(witness, question),
{
}

/// A late decision settles nothing.
pub proof fn late_decisions_settle_nothing(witness: ResumeWitness, paused: PausedRun, now: u64)
    requires
        witness.outcome == ApprovalOutcome::Approved || witness.outcome
            == ApprovalOutcome::Rejected,
        witness.expires_at matches Some(expires_at) && now >= expires_at,
    ensures
        settled(witness, paused, now) is None,
{
}

/// Nobody answers for another conversation.
pub proof fn answers_stay_in_their_conversation(witness: ResumeWitness, paused: PausedRun, now: u64)
    requires
        witness.prompting_principal@.conversation != paused.conversation_id@
            || witness.prompting_principal@.channel != paused.channel_id@
            || witness.prompting_principal@.agent != paused.state.active_agent@,
    ensures
        settled(witness, paused, now) is None,
{
}

/// Only an approval leaves a question open to be acted on.
pub proof fn only_approval_goes_on(question: InterruptionView, witness: ResumeWitness)
    ensures
        !after_answer(question, witness).consumed <==> witness.outcome == ApprovalOutcome::Approved,
        after_answer(question, witness).status is Approved <==> witness.outcome
            == ApprovalOutcome::Approved,
{
}

/// The first open question an answer is bound to is the one it settles: bound
/// to it by its instance, its ticket, its id and by whom it was asked, in the
/// conversation that asked, and in time where somebody decided.
pub proof fn the_first_bound_question_is_settled(
    witness: ResumeWitness,
    paused: PausedRun,
    now: u64,
    at: int,
)
    requires
        witness.prompting_principal@.agent == paused.state.active_agent@,
        witness.prompting_principal@.channel == paused.channel_id@,
        witness.prompting_principal@.conversation == paused.conversation_id@,
        witness.expires_at matches Some(end) ==> (witness.outcome == ApprovalOutcome::Approved
            || witness.outcome == ApprovalOutcome::Rejected ==> now < end),
        0 <= at < paused.state.approvals@.len(),
        ({
            let question = interruptions_view(paused.state.approvals@)[at];
            &&& question.approval_instance_id == witness.approval_instance_id@
            &&& question.approval_ticket == witness.ticket@
            &&& question.id == witness.interruption_id@
            &&& question.prompting_principal == witness.prompting_principal@
            &&& question.status == StatusView::Pending
            &&& !question.consumed
        }),
        forall|j: int|
            0 <= j < at ==> (#[trigger] interruptions_view(
                paused.state.approvals@,
            )[j]).approval_instance_id != witness.approval_instance_id@,
    ensures
        settled(witness, paused, now) == Some(at),
{
    lemma_questions_passed(witness, interruptions_view(paused.state.approvals@), at);
}

proof fn lemma_questions_passed(
    witness: ResumeWitness,
    questions: Seq<InterruptionView>,
    at: int,
)
    requires
        0 <= at <= questions.len(),
        forall|j: int|
            0 <= j < at ==> (#[trigger] questions[j]).approval_instance_id
                != witness.approval_instance_id@,
    ensures
        answered_question(witness, questions, 0) == answered_question(witness, questions, at),
    decreases at,
{
    if at > 0 {
        lemma_questions_passed(witness, questions, at - 1);
        assert(questions[at - 1].approval_instance_id != witness.approval_instance_id@);
    }
}

/// What an answer settles is a question it is bound to in every way.
pub proof fn what_is_settled_was_asked(witness: ResumeWitness, paused: PausedRun, now: u64)
    ensures
        settled(witness, paused, now) matches Some(at) ==> {
            &&& 0 <= at < paused.state.approvals@.len()
            &&& ({
                let question = interruptions_view(paused.state.approvals@)[at];
                &&& question.approval_instance_id == witness.approval_instance_id@
                &&& question.approval_ticket == witness.ticket@
                &&& question.id == witness.interruption_id@
                &&& question.prompting_principal == witness.prompting_principal@
                &&& question.status is Pending
                &&& !question.consumed
            })
        },
{
    lemma_answered(witness, interruptions_view(paused.state.approvals@), 0);
}

proof fn lemma_answered(witness: ResumeWitness, questions: Seq<InterruptionView>, i: int)
    requires
        0 <= i,
    ensures
        answered_question(witness, questions, i) matches Some(at) ==> i <= at < questions.len()
            && answers(witness, questions[at]),
    decreases questions.len() - i,
{
    if i < questions.len() {
        lemma_answered(witness, questions, i + 1);
    }
}

/// A settled question says who settled it and why, and is otherwise as it was.
pub proof fn a_settled_question_says_who_settled_it(
    question: InterruptionView,
    witness: ResumeWitness,
)
    ensures
        ({
            let after = after_answer(question, witness);
            &&& after.resolver_principal == Some(witness.resolver_principal@)
            &&& question.child_pending ==> after.child_resolver == Some(witness.resolver_principal@)
            &&& !question.child_pending ==> after.child_resolver == question.child_resolver
            &&& after.child_pending == question.child_pending
            &&& after.subject == question.subject
            &&& after.id == question.id
            &&& after.approval_instance_id == question.approval_instance_id
            &&& after.approval_ticket == question.approval_ticket
            &&& after.prompting_principal == question.prompting_principal
            &&& after.status is Rejected <==> witness.outcome == ApprovalOutcome::Rejected
            &&& after.status is Unanswered <==> witness.outcome == ApprovalOutcome::Cancelled
                || witness.outcome == ApprovalOutcome::Unavailable
            &&& witness.reason matches Some(reason) ==> (after.status matches StatusView::Rejected {
                reason: kept,
            } ==> kept == reason@)
        }),
{
}

/// A run stops for the reason that was given, or for the usual one; where nobody
/// decided, the reason says how the question ended.
pub proof fn a_run_stops_for_the_reason_given(witness: ResumeWitness, reason: String)
    ensures
        witness.reason == Some(reason) && witness.outcome == ApprovalOutcome::Rejected
            ==> stop_reason(witness) == reason@,
        witness.reason == Some(reason) && witness.outcome == ApprovalOutcome::Cancelled
            ==> stop_reason(witness) == reason@ + " (cancelled)"@,
        witness.reason == Some(reason) && witness.outcome == ApprovalOutcome::Unavailable
            ==> stop_reason(witness) == reason@ + " (unavailable)"@,
        witness.reason is None && witness.outcome == ApprovalOutcome::Rejected ==> stop_reason(
            witness,
        ) == "approval rejected"@,
        witness.reason is None && witness.outcome == ApprovalOutcome::Cancelled ==> stop_reason(
            witness,
        ) == "approval went unanswered"@ + " (cancelled)"@,
        witness.reason is None && witness.outcome == ApprovalOutcome::Unavailable ==> stop_reason(
            witness,
        ) == "approval went unanswered"@ + " (unavailable)"@,
        witness.outcome == ApprovalOutcome::Approved ==> stop_reason(witness).len() == 0,
{
    reveal_strlit(" (");
    reveal_strlit(")");
    reveal_strlit("cancelled");
    reveal_strlit(" (cancelled)");
    reveal_strlit("unavailable");
    reveal_strlit(" (unavailable)");
    assert(" ("@ + "cancelled"@ + ")"@ =~= " (cancelled)"@);
    assert(" ("@ + "unavailable"@ + ")"@ =~= " (unavailable)"@);
    reveal_strlit("");
    let given = match witness.reason {
        Some(own) => own@,
        None => "approval went unanswered"@,
    };
    assert(given + " ("@ + "cancelled"@ + ")"@ =~= given + (" ("@ + "cancelled"@ + ")"@));
    assert(given + " ("@ + "unavailable"@ + ")"@ =~= given + (" ("@ + "unavailable"@ + ")"@));
}

/// The names of outcomes tell them apart.
pub proof fn outcome_names_tell_apart(a: ApprovalOutcome, b: ApprovalOutcome)
    ensures
        approval_name(a) == approval_name(b) ==> a == b,
{
    reveal_strlit("approved");
    reveal_strlit("rejected");
    reveal_strlit("cancelled");
    reveal_strlit("unavailable");
    assert("approved"@[0] == 'a');
    assert("rejected"@[0] == 'r');
    assert("cancelled"@[0] == 'c');
    assert("unavailable"@[0] == 'u');
}

} // verus!
