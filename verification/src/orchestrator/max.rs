//! The orchestrator that routes: commands first, then specialised agents, and
//! a model for everything else.

use super::commands::{commanded, deterministic_plan_from_user_text};
use super::plan::{plan_view, Plan, PlanView};
use super::routing::{
    decided_rule, dispatch_ordered, domain_name, first_rule, is_dispatch, latest_request, latest_user_content,
    materialize_dispatch, rule_for_domain_key, rule_named,
    the_first_rule_of_a_domain_is_found, underscored, RoutingRule, RoutingTable,
};
use crate::json::{entries_view, lookup, ordered, overlaid, put_all, Json, Value};
use crate::memory::scope::{HydrationRequest, HydrationStats, MemoryStore, RetrievalStrategy};
use crate::message::{plain_message, ItemView, Message, MessageRole, ToolSpec, Transcript};
use crate::text::{blank_is_white_space_alone, is_blank, is_space, lowered, same, trimmed};
use vstd::prelude::*;

verus! {

/// How many fragments a turn recalls, unless told otherwise.
pub const DEFAULT_MEMORY_HYDRATION_MAX_FRAGMENTS: usize = 5;

/// How many tokens a turn recalls, unless told otherwise.
pub const DEFAULT_MEMORY_HYDRATION_MAX_TOKENS: usize = 1_200;

/// Whether and how a turn recalls memory.
pub struct MemoryHydrationSettings {
    pub enabled: bool,
    pub max_fragments: usize,
    pub max_estimated_tokens: usize,
    pub stores: Vec<MemoryStore>,
    pub strategy: RetrievalStrategy,
    pub allowed_shared_domains: Vec<String>,
}

impl Default for MemoryHydrationSettings {
    fn default() -> (out: MemoryHydrationSettings)
        ensures
            !out.enabled,
            out.max_fragments == 5,
            out.max_estimated_tokens == 1200,
            out.stores@ == seq![MemoryStore::Semantic, MemoryStore::Episodic],
            out.strategy == RetrievalStrategy::Hybrid,
            out.allowed_shared_domains@.len() == 0,
    {
        let mut stores: Vec<MemoryStore> = Vec::new();
        stores.push(MemoryStore::Semantic);
        stores.push(MemoryStore::Episodic);
        assert(stores@ =~= seq![MemoryStore::Semantic, MemoryStore::Episodic]);
        MemoryHydrationSettings {
            enabled: false,
            max_fragments: DEFAULT_MEMORY_HYDRATION_MAX_FRAGMENTS,
            max_estimated_tokens: DEFAULT_MEMORY_HYDRATION_MAX_TOKENS,
            stores,
            strategy: RetrievalStrategy::Hybrid,
            allowed_shared_domains: Vec::new(),
        }
    }
}

/// Whether a turn recalls memory: it is switched on, and the user just said
/// something.
pub open spec fn recalls(enabled: bool, items: Seq<ItemView>) -> bool {
    enabled && (latest_request(items) matches Some(query) && trimmed(query).len() > 0)
}

/// What a turn asks of memory, when it does.
pub fn hydration_request(settings: &MemoryHydrationSettings, transcript: &Transcript) -> (out: Option<
    HydrationRequest,
>)
    ensures
        out is Some <==> recalls(settings.enabled, transcript@),
        out matches Some(request) ==> {
            &&& Some(request.query@) == latest_request(transcript@)
            &&& request.domain is None
            &&& request.max_fragments == settings.max_fragments
            &&& request.max_tokens == settings.max_estimated_tokens
            &&& request.stores@ == settings.stores@
            &&& request.strategy == settings.strategy
        },
{
    if !settings.enabled {
        return None;
    }
    let query = match latest_user_content(transcript) {
        Some(query) => query,
        None => {
            return None;
        },
    };
    if is_blank(query.as_str()) {
        return None;
    }
    let mut stores: Vec<MemoryStore> = Vec::new();
    let mut i: usize = 0;
    while i < settings.stores.len()
        invariant
            i <= settings.stores@.len(),
            stores@ == settings.stores@.take(i as int),
        decreases settings.stores@.len() - i,
    {
        stores.push(settings.stores[i]);
        assert(stores@ =~= settings.stores@.take(i + 1));
        i = i + 1;
    }
    assert(settings.stores@.take(settings.stores@.len() as int) =~= settings.stores@);
    Some(
        HydrationRequest {
            query,
            domain: None,
            max_fragments: settings.max_fragments,
            max_tokens: settings.max_estimated_tokens,
            stores,
            strategy: settings.strategy,
        },
    )
}

/// What the run's metadata learns of a hydration.
pub open spec fn hydration_marks(stats: HydrationStats) -> Seq<(Seq<char>, Value)> {
    seq![
        ("memory_hydration_candidate_count"@, Value::Number(stats.candidate_count as int)),
        ("memory_hydration_selected_count"@, Value::Number(stats.selected_count as int)),
        ("memory_hydration_namespace_count"@, Value::Number(stats.namespace_count as int)),
    ]
}

/// Enters a hydration's counts in the run's metadata.
pub fn record_hydration(metadata: &mut Vec<(String, Json)>, stats: &HydrationStats)
    requires
        ordered(entries_view(old(metadata)@)),
    ensures
        ordered(entries_view(final(metadata)@)),
        forall|key: Seq<char>| #[trigger]
            lookup(entries_view(final(metadata)@), key) == overlaid(
                entries_view(old(metadata)@),
                hydration_marks(*stats),
                key,
            ),
{
    let mut marks: Vec<(String, Json)> = Vec::new();
    marks.push(
        (
            "memory_hydration_candidate_count".to_owned(),
            Json::Unsigned(stats.candidate_count as u64),
        ),
    );
    marks.push(
        (
            "memory_hydration_selected_count".to_owned(),
            Json::Unsigned(stats.selected_count as u64),
        ),
    );
    marks.push(
        (
            "memory_hydration_namespace_count".to_owned(),
            Json::Unsigned(stats.namespace_count as u64),
        ),
    );
    assert(entries_view(marks@) =~= hydration_marks(*stats));
    put_all(metadata, &marks);
}

/// Whether the metadata of every target of a table is in order.
pub open spec fn table_ordered(table: RoutingTable) -> bool {
    &&& dispatch_ordered(table.fallback.dispatch@)
    &&& forall|i: int|
        0 <= i < table.rules@.len() ==> dispatch_ordered((#[trigger] table.rules@[i]).dispatch@)
}

proof fn lemma_first_rule_ordered(rules: Seq<RoutingRule>, domain: Seq<char>, i: int)
    requires
        0 <= i,
        forall|k: int| 0 <= k < rules.len() ==> dispatch_ordered((#[trigger] rules[k]).dispatch@),
    ensures
        first_rule(rules, domain, i) matches Some(rule) ==> dispatch_ordered(rule.dispatch@),
    decreases rules.len() - i,
{
    if i < rules.len() {
        lemma_first_rule_ordered(rules, domain, i + 1);
    }
}

/// The rule a request is routed by: the one for its domain, else the fallback
/// where that is allowed.
pub open spec fn routing_rule(
    table: RoutingTable,
    domain: Option<Seq<char>>,
    allow_fallback: bool,
) -> Option<RoutingRule> {
    let named = match domain {
        Some(name) => rule_named(table, name),
        None => None,
    };
    match named {
        Some(rule) => Some(rule),
        None => if allow_fallback {
            Some(table.fallback)
        } else {
            None
        },
    }
}

/// Whether a plan is where routing sends a request.
pub open spec fn is_route(
    table: RoutingTable,
    domain: Option<Seq<char>>,
    allow_fallback: bool,
    task_id: Seq<char>,
    input: Seq<char>,
    plan: Option<PlanView>,
) -> bool {
    match routing_rule(table, domain, allow_fallback) {
        Some(rule) => is_dispatch(rule.dispatch@, task_id, input, plan),
        None => plan is None,
    }
}

/// Routes a request whose domain is known, or is not.
pub fn route_user_text(
    routing_table: &RoutingTable,
    domain: Option<&str>,
    allow_fallback: bool,
    task_id: &str,
    input: &str,
) -> (plan: Option<Plan>)
    requires
        table_ordered(*routing_table),
    ensures
        is_route(
            *routing_table,
            (match domain {
                Some(name) => Some(name@),
                None => None,
            }),
            allow_fallback,
            task_id@,
            input@,
            plan_view(plan),
        ),
{
    let named = match domain {
        Some(name) => {
            proof {
                lemma_first_rule_ordered(routing_table.rules@, name@, 0);
            }
            rule_for_domain_key(routing_table, name)
        },
        None => None,
    };
    match named {
        Some(rule) => materialize_dispatch(task_id, input, &rule.dispatch),
        None => if allow_fallback {
            materialize_dispatch(task_id, input, &routing_table.fallback.dispatch)
        } else {
            None
        },
    }
}

/// A plain reply from the assistant.
pub open spec fn says(text: Seq<char>) -> PlanView {
    PlanView::Reply(plain_message(MessageRole::Assistant, text))
}

/// Whether a plan is what a turn comes to without a model: a command the user
/// typed, where their request is routed, or what was said last.
pub open spec fn is_own_plan(
    items: Seq<ItemView>,
    table: RoutingTable,
    domain: Option<Seq<char>>,
    allow_fallback: bool,
    task_id: Seq<char>,
    plan: PlanView,
) -> bool {
    if items.len() == 0 {
        plan == says(""@)
    } else {
        let content = items.last().message.content;
        if items.last().message.role != MessageRole::User {
            plan == says(content)
        } else if commanded(content) is Some {
            plan == commanded(content)->0
        } else {
            ||| is_route(table, domain, allow_fallback, task_id, content, Some(plan))
            ||| is_route(table, domain, allow_fallback, task_id, content, None) && plan == says(
                content,
            )
        }
    }
}

/// Plans a turn without a model.
pub fn plan_internal(
    transcript: &Transcript,
    routing_table: &RoutingTable,
    domain: Option<&str>,
    allow_fallback: bool,
    task_id: &str,
) -> (plan: Plan)
    requires
        table_ordered(*routing_table),
    ensures
        is_own_plan(
            transcript@,
            *routing_table,
            (match domain {
                Some(name) => Some(name@),
                None => None,
            }),
            allow_fallback,
            task_id@,
            plan@,
        ),
{
    let n: usize = transcript.items.len();
    if n == 0 {
        return Plan::Reply(Message::text(MessageRole::Assistant, ""));
    }
    assert(transcript@.last() == transcript.items@[n - 1]@);
    let message: &Message = &transcript.items[n - 1].message;
    if message.role == MessageRole::User {
        if let Some(plan) = deterministic_plan_from_user_text(message.content.as_str()) {
            return plan;
        }
        if let Some(plan) = route_user_text(
            routing_table,
            domain,
            allow_fallback,
            task_id,
            message.content.as_str(),
        ) {
            return plan;
        }
    }
    Plan::Reply(Message::text(MessageRole::Assistant, message.content.as_str()))
}

/// Whether a plan only says a request back, so that a model is asked instead.
pub open spec fn only_echoes(items: Seq<ItemView>, plan: PlanView) -> bool {
    &&& latest_request(items) is Some
    &&& plan matches PlanView::Reply(message)
    &&& message.role == MessageRole::Assistant
    &&& Some(message.content) == latest_request(items)
}

/// Decides [`only_echoes`].
pub fn should_route_to_llm(transcript: &Transcript, plan: &Plan) -> (yes: bool)
    ensures
        yes == only_echoes(transcript@, plan@),
{
    let request = match latest_user_content(transcript) {
        Some(request) => request,
        None => {
            return false;
        },
    };
    match plan {
        Plan::Reply(message) => message.role == MessageRole::Assistant && same(
            message.content.as_str(),
            request.as_str(),
        ),
        _ => false,
    }
}

/// What a turn with a model does next.
pub enum NextStep {
    /// The plan already made stands.
    Keep,
    /// The request goes where it was routed.
    Routed(Plan),
    /// The model is asked which domain the request is of.
    Classify,
    /// The model is asked for a reply, or the turn is planned without one when
    /// none is to be had.
    Complete,
}

/// What a turn with a model does once it was planned without one.
pub fn next_step(
    transcript: &Transcript,
    planned: &Plan,
    routing_table: &RoutingTable,
    llm_available: bool,
    task_id: &str,
) -> (step: NextStep)
    requires
        table_ordered(*routing_table),
    ensures
        step is Keep <==> !only_echoes(transcript@, planned@),
        step is Classify <==> only_echoes(transcript@, planned@) && routing_table.rules@.len() > 0
            && llm_available,
        step matches NextStep::Routed(plan) ==> routing_table.rules@.len() == 0 && is_dispatch(
            routing_table.fallback.dispatch@,
            task_id@,
            latest_request(transcript@)->0,
            Some(plan@),
        ),
        step is Complete ==> (routing_table.rules@.len() == 0 ==> is_dispatch(
            routing_table.fallback.dispatch@,
            task_id@,
            latest_request(transcript@)->0,
            None,
        )),
{
    if !should_route_to_llm(transcript, planned) {
        return NextStep::Keep;
    }
    let request = match latest_user_content(transcript) {
        Some(request) => request,
        None => {
            return NextStep::Keep;
        },
    };
    if routing_table.rules.len() == 0 {
        return match materialize_dispatch(
            task_id,
            request.as_str(),
            &routing_table.fallback.dispatch,
        ) {
            Some(plan) => NextStep::Routed(plan),
            None => NextStep::Complete,
        };
    }
    if llm_available {
        NextStep::Classify
    } else {
        NextStep::Complete
    }
}

/// The domain a classifier answered, with whether it was confident enough.
pub struct Classification {
    pub domain: String,
    pub confident: bool,
}

/// The rule a classifier's answer comes to: the one it is confident of, when
/// the table has it, else the fallback.
pub open spec fn classified_rule(
    table: RoutingTable,
    answer: Option<Classification>,
) -> RoutingRule {
    let named = match answer {
        Some(classification) => if classification.confident {
            rule_named(table, underscored(lowered(trimmed(classification.domain@))))
        } else {
            None
        },
        None => None,
    };
    match named {
        Some(rule) => rule,
        None => table.fallback,
    }
}

/// Where a classified request goes; `None` when the run handles it itself.
pub fn after_classification(
    routing_table: &RoutingTable,
    answer: &Option<Classification>,
    task_id: &str,
    input: &str,
) -> (plan: Option<Plan>)
    requires
        table_ordered(*routing_table),
    ensures
        is_dispatch(
            classified_rule(*routing_table, *answer).dispatch@,
            task_id@,
            input@,
            plan_view(plan),
        ),
{
    let named = match answer {
        Some(classification) => {
            proof {
                lemma_first_rule_ordered(
                    routing_table.rules@,
                    underscored(lowered(trimmed(classification.domain@))),
                    0,
                );
            }
            decided_rule(
                routing_table,
                classification.domain.as_str(),
                classification.confident,
            )
        },
        None => None,
    };
    match named {
        Some(rule) => materialize_dispatch(task_id, input, &rule.dispatch),
        None => materialize_dispatch(task_id, input, &routing_table.fallback.dispatch),
    }
}

/// What kind of thing a run can use.
#[derive(Clone, Copy, Debug, PartialEq, Eq, Structural)]
pub enum ResourceKind {
    Tool,
}

/// Which class of dispatch a resource is considered in.
#[derive(Clone, Copy, Debug, PartialEq, Eq, Structural)]
pub enum DispatchPriority {
    ToolOrMcp,
}

/// Something a run can use, as it is listed.
pub struct ResourceEntry {
    pub name: String,
    pub kind: ResourceKind,
    pub summary: String,
    pub priority: DispatchPriority,
}

/// What a [`ResourceEntry`] stands for.
#[verifier::ext_equal]
pub struct EntryView {
    pub name: Seq<char>,
    pub kind: ResourceKind,
    pub summary: Seq<char>,
    pub priority: DispatchPriority,
}

impl View for ResourceEntry {
    type V = EntryView;

    open spec fn view(&self) -> EntryView {
        EntryView {
            name: self.name@,
            kind: self.kind,
            summary: self.summary@,
            priority: self.priority,
        }
    }
}

/// How a tool is listed.
pub open spec fn listed_tool(tool: ToolSpec) -> EntryView {
    EntryView {
        name: tool.name@,
        kind: ResourceKind::Tool,
        summary: tool.description@,
        priority: DispatchPriority::ToolOrMcp,
    }
}

/// The listing of tools: one entry for each. No order is promised.
pub fn resource_entries(tools: &Vec<ToolSpec>) -> (out: Vec<ResourceEntry>)
    ensures
        out@.map_values(|e: ResourceEntry| e@).to_multiset() == tools@.map_values(
            |t: ToolSpec| listed_tool(t),
        ).to_multiset(),
{
    let mut out: Vec<ResourceEntry> = Vec::new();
    let mut i: usize = 0;
    while i < tools.len()
        invariant
            i <= tools@.len(),
            out@.len() == i,
            forall|k: int| 0 <= k < i ==> (#[trigger] out@[k])@ == listed_tool(tools@[k]),
        decreases tools@.len() - i,
    {
        out.push(
            ResourceEntry {
                name: tools[i].name.clone(),
                kind: ResourceKind::Tool,
                summary: tools[i].description.clone(),
                priority: DispatchPriority::ToolOrMcp,
            },
        );
        i = i + 1;
    }
    assert(out@.map_values(|e: ResourceEntry| e@) =~= tools@.map_values(
        |t: ToolSpec| listed_tool(t),
    ));
    out
}

/// A turn recalls memory exactly when it may and the user's last word is more
/// than white space.
pub proof fn only_a_said_request_recalls(enabled: bool, items: Seq<ItemView>, item: ItemView)
    ensures
        !recalls(false, items),
        !recalls(enabled, Seq::empty()),
        recalls(enabled, items.push(item)) <==> enabled && item.message.role == MessageRole::User
            && exists|k: int|
            0 <= k < item.message.content.len() && !is_space(#[trigger] item.message.content[k]),
{
    blank_is_white_space_alone(item.message.content);
}

/// The counts of a hydration stand under their own names, and nothing else of
/// the metadata changes.
pub proof fn hydration_counts_are_recorded(
    had: Seq<(Seq<char>, Value)>,
    stats: HydrationStats,
    key: Seq<char>,
)
    ensures
        overlaid(had, hydration_marks(stats), "memory_hydration_candidate_count"@) == Some(
            Value::Number(stats.candidate_count as int),
        ),
        overlaid(had, hydration_marks(stats), "memory_hydration_selected_count"@) == Some(
            Value::Number(stats.selected_count as int),
        ),
        overlaid(had, hydration_marks(stats), "memory_hydration_namespace_count"@) == Some(
            Value::Number(stats.namespace_count as int),
        ),
        key != "memory_hydration_candidate_count"@ && key != "memory_hydration_selected_count"@
            && key != "memory_hydration_namespace_count"@ ==> overlaid(
            had,
            hydration_marks(stats),
            key,
        ) == lookup(had, key),
{
    reveal_strlit("memory_hydration_candidate_count");
    reveal_strlit("memory_hydration_selected_count");
    reveal_strlit("memory_hydration_namespace_count");
    reveal_with_fuel(overlaid, 5);
    assert("memory_hydration_candidate_count"@[17] == 'c');
    assert("memory_hydration_selected_count"@[17] == 's');
    assert("memory_hydration_namespace_count"@[17] == 'n');
}

/// A request goes by the rule of its domain; without one it goes by the
/// fallback where that is allowed, and nowhere where it is not.
pub proof fn a_known_domain_goes_by_its_rule(table: RoutingTable, domain: Seq<char>, i: int)
    ensures
        0 <= i < table.rules@.len() && domain_name(table.rules@[i].domain) == domain && (forall|
            j: int,
        |
            0 <= j < i ==> domain_name((#[trigger] table.rules@[j]).domain) != domain) ==> (
        routing_rule(table, Some(domain), true) == Some(table.rules@[i]) && routing_rule(
            table,
            Some(domain),
            false,
        ) == Some(table.rules@[i])),
        routing_rule(table, None, true) == Some(table.fallback),
        routing_rule(table, None, false) is None,
        (forall|j: int|
            0 <= j < table.rules@.len() ==> domain_name((#[trigger] table.rules@[j]).domain)
                != domain) ==> routing_rule(table, Some(domain), true) == Some(table.fallback) && (
        routing_rule(table, Some(domain), false) is Some <==> domain_name(table.fallback.domain)
            == domain),
{
    the_first_rule_of_a_domain_is_found(table, domain);
}

/// A classifier is followed where it is confident and names a rule the table
/// has, however it writes the name; else the fallback is.
pub proof fn only_a_confident_answer_is_followed(
    table: RoutingTable,
    answer: Classification,
    i: int,
)
    ensures
        classified_rule(table, None) == table.fallback,
        !answer.confident ==> classified_rule(table, Some(answer)) == table.fallback,
        answer.confident && 0 <= i < table.rules@.len() && domain_name(table.rules@[i].domain)
            == underscored(lowered(trimmed(answer.domain@))) && (forall|j: int|
            0 <= j < i ==> domain_name((#[trigger] table.rules@[j]).domain) != underscored(
                lowered(trimmed(answer.domain@)),
            )) ==> classified_rule(table, Some(answer)) == table.rules@[i],
        (forall|j: int|
            0 <= j < table.rules@.len() ==> domain_name((#[trigger] table.rules@[j]).domain)
                != underscored(lowered(trimmed(answer.domain@)))) ==> classified_rule(
            table,
            Some(answer),
        ) == table.fallback,
{
    the_first_rule_of_a_domain_is_found(table, underscored(lowered(trimmed(answer.domain@))));
}

/// Without a model a user's command is carried out, another request goes where
/// it is routed, and whatever goes nowhere is said back.
pub proof fn a_turn_is_a_command_a_route_or_an_echo(
    items: Seq<ItemView>,
    item: ItemView,
    table: RoutingTable,
    domain: Option<Seq<char>>,
    allow_fallback: bool,
    task_id: Seq<char>,
    plan: PlanView,
)
    requires
        is_own_plan(items.push(item), table, domain, allow_fallback, task_id, plan),
    ensures
        item.message.role != MessageRole::User ==> plan == PlanView::Reply(
            plain_message(MessageRole::Assistant, item.message.content),
        ),
        item.message.role == MessageRole::User && commanded(item.message.content) is Some ==> Some(
            plan,
        ) == commanded(item.message.content),
        item.message.role == MessageRole::User && commanded(item.message.content) is None ==> (
        match routing_rule(table, domain, allow_fallback) {
            Some(rule) => is_dispatch(
                rule.dispatch@,
                task_id,
                item.message.content,
                if rule.dispatch@ is Direct {
                    None
                } else {
                    Some(plan)
                },
            ),
            None => true,
        }),
        item.message.role == MessageRole::User && commanded(item.message.content) is None && (
        routing_rule(table, domain, allow_fallback) matches Some(rule) ==> rule.dispatch@ is Direct)
            ==> plan == PlanView::Reply(
            plain_message(MessageRole::Assistant, item.message.content),
        ),
{
    assert(items.push(item).last() == item);
}

/// A model is asked exactly when the plan says a user's last word back to them.
pub proof fn an_echo_is_handed_to_the_model(
    items: Seq<ItemView>,
    item: ItemView,
    text: Seq<char>,
    plan: PlanView,
)
    ensures
        only_echoes(
            items.push(item),
            PlanView::Reply(plain_message(MessageRole::Assistant, text)),
        ) <==> item.message.role == MessageRole::User && item.message.content == text,
        !(plan is Reply) ==> !only_echoes(items, plan),
        !only_echoes(Seq::empty(), plan),
{
}

/// A tool is listed by its own name, with what it says of itself.
pub proof fn a_tool_is_listed_by_its_name(tool: ToolSpec)
    ensures
        listed_tool(tool).name == tool.name@,
        listed_tool(tool).summary == tool.description@,
{
}

} // verus!
