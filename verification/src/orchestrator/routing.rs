//! Which specialised agent a request goes to.
//!
//! A model classifies the request against a catalog of domains; a lexical
//! pre-filter spares it requests that share no word with any of them.

use super::plan::{
    OrchestratorTemplate, Plan, PlanView, Stage, StageView, SubAgentSpec, SubAgentView,
    SubOrchSpec, TemplateView,
};
use crate::json::{
    entries_view, find, find_text, lookup, member, ordered, put, text_list, text_of, unsigned, Json,
    Value,
};
use crate::lists::{ascii_words, ascii_words_of, contains_text, increasing, insert_sorted};
use crate::message::{messages_view, plain_message, ItemView, Message, MessageRole, Transcript};
use crate::pretty::pretty_text;
use crate::text::{
    begins, chars_of, ends, lowered, opt_view, same, string_of, strip_prefix, strip_suffix, texts,
    to_lower, trim, trimmed,
};
use vstd::prelude::*;

verus! {

/// What kind of work a request is.
pub enum TaskDomain {
    SoftwareDev,
    ContentOps,
    Research,
    Editing,
    General,
    Custom(String),
}

/// The stable name of a domain.
pub open spec fn domain_name(domain: TaskDomain) -> Seq<char> {
    match domain {
        TaskDomain::SoftwareDev => "software_dev"@,
        TaskDomain::ContentOps => "content_ops"@,
        TaskDomain::Research => "research"@,
        TaskDomain::Editing => "editing"@,
        TaskDomain::General => "general"@,
        TaskDomain::Custom(name) => name@,
    }
}

/// Computes [`domain_name`].
pub fn domain_key(domain: &TaskDomain) -> (out: String)
    ensures
        out@ == domain_name(*domain),
{
    match domain {
        TaskDomain::SoftwareDev => "software_dev".to_owned(),
        TaskDomain::ContentOps => "content_ops".to_owned(),
        TaskDomain::Research => "research".to_owned(),
        TaskDomain::Editing => "editing".to_owned(),
        TaskDomain::General => "general".to_owned(),
        TaskDomain::Custom(name) => name.clone(),
    }
}

/// Where a request is sent.
pub enum DispatchTarget {
    /// Nowhere: the run handles it.
    Direct,
    Delegate(SubAgentSpec),
    Escalate(OrchestratorTemplate),
}

/// What a [`DispatchTarget`] stands for.
pub enum DispatchView {
    Direct,
    Delegate(SubAgentView),
    Escalate(TemplateView),
}

impl View for DispatchTarget {
    type V = DispatchView;

    open spec fn view(&self) -> DispatchView {
        match *self {
            DispatchTarget::Direct => DispatchView::Direct,
            DispatchTarget::Delegate(spec) => DispatchView::Delegate(spec@),
            DispatchTarget::Escalate(template) => DispatchView::Escalate(template@),
        }
    }
}

/// One domain of the catalog.
pub struct RoutingRule {
    pub domain: TaskDomain,
    pub description: String,
    pub examples: Vec<String>,
    pub dispatch: DispatchTarget,
}

/// The catalog, and what takes everything else.
pub struct RoutingTable {
    pub rules: Vec<RoutingRule>,
    pub fallback: RoutingRule,
}

/// What the user said, when they spoke last.
pub open spec fn latest_request(items: Seq<ItemView>) -> Option<Seq<char>> {
    if items.len() > 0 && items.last().message.role == MessageRole::User {
        Some(items.last().message.content)
    } else {
        None
    }
}

/// Computes [`latest_request`].
pub fn latest_user_content(transcript: &Transcript) -> (out: Option<String>)
    ensures
        opt_view(out) == latest_request(transcript@),
{
    let n: usize = transcript.items.len();
    if n == 0 {
        return None;
    }
    assert(transcript@.last() == transcript.items@[n - 1]@);
    let message: &Message = &transcript.items[n - 1].message;
    if message.role == MessageRole::User {
        Some(message.content.clone())
    } else {
        None
    }
}

/// The first of the rules at or after `i` for a domain.
pub open spec fn first_rule(rules: Seq<RoutingRule>, domain: Seq<char>, i: int) -> Option<RoutingRule>
    decreases rules.len() - i,
{
    if i < 0 || i >= rules.len() {
        None
    } else if domain_name(rules[i].domain) == domain {
        Some(rules[i])
    } else {
        first_rule(rules, domain, i + 1)
    }
}

/// The rule for a domain: the first of the catalog, else the fallback when it
/// is its own.
pub open spec fn rule_named(table: RoutingTable, domain: Seq<char>) -> Option<RoutingRule> {
    match first_rule(table.rules@, domain, 0) {
        Some(rule) => Some(rule),
        None => if domain_name(table.fallback.domain) == domain {
            Some(table.fallback)
        } else {
            None
        },
    }
}

proof fn lemma_first_rule(rules: Seq<RoutingRule>, domain: Seq<char>, from: int, i: int)
    requires
        0 <= from <= i < rules.len(),
        domain_name(rules[i].domain) == domain,
        forall|j: int| from <= j < i ==> domain_name((#[trigger] rules[j]).domain) != domain,
    ensures
        first_rule(rules, domain, from) == Some(rules[i]),
    decreases i - from,
{
    if from < i {
        lemma_first_rule(rules, domain, from + 1, i);
    }
}

proof fn lemma_no_rule(rules: Seq<RoutingRule>, domain: Seq<char>, from: int)
    requires
        0 <= from <= rules.len(),
        forall|j: int|
            from <= j < rules.len() ==> domain_name((#[trigger] rules[j]).domain) != domain,
    ensures
        first_rule(rules, domain, from) is None,
    decreases rules.len() - from,
{
    if from < rules.len() {
        lemma_no_rule(rules, domain, from + 1);
    }
}

/// The rule for a domain is the one at the smallest place of the catalog that
/// has it, wherever that is. The fallback takes its own domain only when no
/// rule has it, and nothing else is ever found.
pub proof fn the_first_rule_of_a_domain_is_found(table: RoutingTable, domain: Seq<char>)
    ensures
        forall|i: int|
            0 <= i < table.rules@.len() && domain_name((#[trigger] table.rules@[i]).domain)
                == domain && (forall|j: int|
                0 <= j < i ==> domain_name((#[trigger] table.rules@[j]).domain) != domain)
                ==> rule_named(table, domain) == Some(table.rules@[i]),
        (forall|j: int|
            0 <= j < table.rules@.len() ==> domain_name((#[trigger] table.rules@[j]).domain)
                != domain) ==> rule_named(table, domain) == if domain_name(table.fallback.domain)
            == domain {
            Some(table.fallback)
        } else {
            None
        },
        (exists|i: int|
            0 <= i < table.rules@.len() && domain_name((#[trigger] table.rules@[i]).domain)
                == domain) ==> rule_named(table, domain) is Some,
        rule_named(table, domain) matches Some(rule) ==> domain_name(rule.domain) == domain,
{
    let rules = table.rules@;
    assert forall|i: int|
        0 <= i < rules.len() && domain_name((#[trigger] rules[i]).domain) == domain && (forall|
            j: int,
        | 0 <= j < i ==> domain_name((#[trigger] rules[j]).domain) != domain) implies rule_named(
        table,
        domain,
    ) == Some(rules[i]) by {
        lemma_first_rule(rules, domain, 0, i);
    }
    if exists|i: int| 0 <= i < rules.len() && domain_name((#[trigger] rules[i]).domain) == domain {
        let any = choose|i: int|
            0 <= i < rules.len() && domain_name((#[trigger] rules[i]).domain) == domain;
        let i = lemma_least_rule(rules, domain, any);
        lemma_first_rule(rules, domain, 0, i);
    } else {
        lemma_no_rule(rules, domain, 0);
    }
}

proof fn lemma_least_rule(rules: Seq<RoutingRule>, domain: Seq<char>, any: int) -> (least: int)
    requires
        0 <= any < rules.len(),
        domain_name(rules[any].domain) == domain,
    ensures
        0 <= least <= any,
        domain_name(rules[least].domain) == domain,
        forall|j: int| 0 <= j < least ==> domain_name((#[trigger] rules[j]).domain) != domain,
    decreases any,
{
    if exists|j: int| 0 <= j < any && domain_name((#[trigger] rules[j]).domain) == domain {
        let j = choose|j: int| 0 <= j < any && domain_name((#[trigger] rules[j]).domain) == domain;
        lemma_least_rule(rules, domain, j)
    } else {
        any
    }
}

/// No two domains that come with the runtime share a name, and a domain of
/// one's own is called what it is called.
pub proof fn domain_names_tell_domains_apart(name: String)
    ensures
        domain_name(TaskDomain::Custom(name)) == name@,
        seq![
            domain_name(TaskDomain::SoftwareDev),
            domain_name(TaskDomain::ContentOps),
            domain_name(TaskDomain::Research),
            domain_name(TaskDomain::Editing),
            domain_name(TaskDomain::General),
        ] == seq!["software_dev"@, "content_ops"@, "research"@, "editing"@, "general"@],
        domain_name(TaskDomain::SoftwareDev) != domain_name(TaskDomain::ContentOps),
        domain_name(TaskDomain::SoftwareDev) != domain_name(TaskDomain::Research),
        domain_name(TaskDomain::SoftwareDev) != domain_name(TaskDomain::Editing),
        domain_name(TaskDomain::SoftwareDev) != domain_name(TaskDomain::General),
        domain_name(TaskDomain::ContentOps) != domain_name(TaskDomain::Research),
        domain_name(TaskDomain::ContentOps) != domain_name(TaskDomain::Editing),
        domain_name(TaskDomain::ContentOps) != domain_name(TaskDomain::General),
        domain_name(TaskDomain::Research) != domain_name(TaskDomain::Editing),
        domain_name(TaskDomain::Research) != domain_name(TaskDomain::General),
        domain_name(TaskDomain::Editing) != domain_name(TaskDomain::General),
{
    reveal_strlit("software_dev");
    reveal_strlit("content_ops");
    reveal_strlit("research");
    reveal_strlit("editing");
    reveal_strlit("general");
    assert("software_dev"@[0] == 's' && "content_ops"@[0] == 'c' && "research"@[0] == 'r'
        && "editing"@[0] == 'e' && "general"@[0] == 'g');
}

/// Finds [`rule_named`].
pub fn rule_for_domain_key<'a>(routing_table: &'a RoutingTable, domain: &str) -> (rule: Option<
    &'a RoutingRule,
>)
    ensures
        (match rule {
            Some(rule) => Some(*rule),
            None => None,
        }) == rule_named(*routing_table, domain@),
{
    let mut i: usize = 0;
    while i < routing_table.rules.len()
        invariant
            i <= routing_table.rules@.len(),
            first_rule(routing_table.rules@, domain@, 0) == first_rule(
                routing_table.rules@,
                domain@,
                i as int,
            ),
        decreases routing_table.rules@.len() - i,
    {
        let key = domain_key(&routing_table.rules[i].domain);
        if same(key.as_str(), domain) {
            return Some(&routing_table.rules[i]);
        }
        i = i + 1;
    }
    let key = domain_key(&routing_table.fallback.domain);
    if same(key.as_str(), domain) {
        Some(&routing_table.fallback)
    } else {
        None
    }
}

/// The text under a key, or null.
pub open spec fn text_or_null(metadata: Seq<(Seq<char>, Value)>, key: Seq<char>) -> Value {
    match text_of(lookup(metadata, key)) {
        Some(text) => Value::Text(text),
        None => Value::Null,
    }
}

fn text_at(metadata: &Vec<(String, Json)>, key: &str) -> (out: Json)
    ensures
        out@ == text_or_null(entries_view(metadata@), key@),
{
    match find_text(metadata, key) {
        Some(text) => Json::text(text),
        None => Json::Null,
    }
}

/// The list under a key, or an empty one.
pub open spec fn list_or_empty(metadata: Seq<(Seq<char>, Value)>, key: Seq<char>) -> Value {
    match lookup(metadata, key) {
        Some(Value::List(items)) => Value::List(items),
        _ => Value::List(Seq::empty()),
    }
}

fn list_at(metadata: &Vec<(String, Json)>, key: &str) -> (out: Json)
    ensures
        out@ == list_or_empty(entries_view(metadata@), key@),
{
    let empty = Json::List(Vec::new());
    assert(empty@->List_0 =~= Seq::empty());
    match find(metadata, key) {
        Some(value) => match value {
            Json::List(_) => value.copy(),
            _ => empty,
        },
        None => empty,
    }
}

/// The whole number under a key, or null.
pub open spec fn count_or_null(metadata: Seq<(Seq<char>, Value)>, key: Seq<char>) -> Value {
    match lookup(metadata, key) {
        Some(value) => match unsigned(value) {
            Some(n) => Value::Number(n as int),
            None => Value::Null,
        },
        None => Value::Null,
    }
}

fn count_at(metadata: &Vec<(String, Json)>, key: &str) -> (out: Json)
    ensures
        out@ == count_or_null(entries_view(metadata@), key@),
{
    match find(metadata, key) {
        Some(value) => match value.as_unsigned() {
            Some(n) => Json::Unsigned(n),
            None => Json::Null,
        },
        None => Json::Null,
    }
}

/// How a sub-agent is described to the classifier.
pub open spec fn described_agent(metadata: Seq<(Seq<char>, Value)>) -> Value {
    Value::Object(
        seq![
            ("description"@, text_or_null(metadata, "subagent_description"@)),
            ("max_turns"@, count_or_null(metadata, "subagent_max_turns"@)),
            ("name"@, text_or_null(metadata, "subagent_name"@)),
            ("skills"@, list_or_empty(metadata, "subagent_skills"@)),
            ("tools"@, list_or_empty(metadata, "subagent_tools"@)),
        ],
    )
}

fn subagent_descriptor(metadata: &Vec<(String, Json)>) -> (out: Json)
    ensures
        out@ == described_agent(entries_view(metadata@)),
{
    let mut entries: Vec<(String, Json)> = Vec::new();
    entries.push(("description".to_owned(), text_at(metadata, "subagent_description")));
    entries.push(("max_turns".to_owned(), count_at(metadata, "subagent_max_turns")));
    entries.push(("name".to_owned(), text_at(metadata, "subagent_name")));
    entries.push(("skills".to_owned(), list_at(metadata, "subagent_skills")));
    entries.push(("tools".to_owned(), list_at(metadata, "subagent_tools")));
    assert(entries_view(entries@) =~= described_agent(entries_view(metadata@))->Object_0);
    Json::object(entries)
}

/// How a stage is described to the classifier.
pub open spec fn described_stage(stage: StageView) -> Value {
    Value::Object(
        seq![
            ("agent_id"@, Value::Text(stage.agent.agent_id)),
            ("depends_on"@, text_list(stage.depends_on)),
            ("policy_id"@, Value::Text(stage.agent.policy_id)),
            ("stage"@, Value::Text(stage.name)),
            ("subagent"@, described_agent(stage.agent.metadata)),
        ],
    )
}

fn stage_descriptor(stage: &Stage) -> (out: Json)
    ensures
        out@ == described_stage(stage@),
{
    let mut entries: Vec<(String, Json)> = Vec::new();
    entries.push(("agent_id".to_owned(), Json::text(stage.agent.agent_id.as_str())));
    entries.push(("depends_on".to_owned(), Json::text_list(&stage.depends_on)));
    entries.push(("policy_id".to_owned(), Json::text(stage.agent.policy_id.as_str())));
    entries.push(("stage".to_owned(), Json::text(stage.name.as_str())));
    entries.push(("subagent".to_owned(), subagent_descriptor(&stage.agent.metadata)));
    assert(entries_view(entries@) =~= described_stage(stage@)->Object_0);
    Json::object(entries)
}

/// How a target is described to the classifier.
pub open spec fn described_dispatch(dispatch: DispatchView) -> Value {
    match dispatch {
        DispatchView::Direct => Value::Object(
            seq![
                ("description"@, Value::Text("Handle directly in the parent run."@)),
                ("kind"@, Value::Text("direct"@)),
                ("target"@, Value::Text("parent"@)),
            ],
        ),
        DispatchView::Delegate(spec) => Value::Object(
            seq![
                ("agent_id"@, Value::Text(spec.agent_id)),
                ("kind"@, Value::Text("delegate"@)),
                ("policy_id"@, Value::Text(spec.policy_id)),
                ("subagent"@, described_agent(spec.metadata)),
            ],
        ),
        DispatchView::Escalate(template) => Value::Object(
            seq![
                ("kind"@, Value::Text("escalate"@)),
                (
                    "stages"@,
                    Value::List(template.stages.map_values(|s: StageView| described_stage(s))),
                ),
                ("template"@, Value::Text(template.name)),
            ],
        ),
    }
}

fn dispatch_descriptor(dispatch: &DispatchTarget) -> (out: Json)
    ensures
        out@ == described_dispatch(dispatch@),
{
    let mut entries: Vec<(String, Json)> = Vec::new();
    match dispatch {
        DispatchTarget::Direct => {
            entries.push(
                ("description".to_owned(), Json::text("Handle directly in the parent run.")),
            );
            entries.push(("kind".to_owned(), Json::text("direct")));
            entries.push(("target".to_owned(), Json::text("parent")));
        },
        DispatchTarget::Delegate(spec) => {
            entries.push(("agent_id".to_owned(), Json::text(spec.agent_id.as_str())));
            entries.push(("kind".to_owned(), Json::text("delegate")));
            entries.push(("policy_id".to_owned(), Json::text(spec.policy_id.as_str())));
            entries.push(("subagent".to_owned(), subagent_descriptor(&spec.metadata)));
        },
        DispatchTarget::Escalate(template) => {
            let mut stages: Vec<Json> = Vec::new();
            let mut i: usize = 0;
            while i < template.stages.len()
                invariant
                    i <= template.stages@.len(),
                    stages@.len() == i,
                    forall|k: int|
                        0 <= k < i ==> (#[trigger] stages@[k])@ == described_stage(
                            template.stages@[k]@,
                        ),
                decreases template.stages@.len() - i,
            {
                stages.push(stage_descriptor(&template.stages[i]));
                i = i + 1;
            }
            let list = Json::List(stages);
            assert(list@->List_0 =~= template@.stages.map_values(
                |s: StageView| described_stage(s),
            ));
            entries.push(("kind".to_owned(), Json::text("escalate")));
            entries.push(("stages".to_owned(), list));
            entries.push(("template".to_owned(), Json::text(template.name.as_str())));
        },
    }
    assert(entries_view(entries@) =~= described_dispatch(dispatch@)->Object_0);
    Json::object(entries)
}

/// How a rule is described to the classifier.
pub open spec fn described_rule(rule: RoutingRule) -> Value {
    Value::Object(
        seq![
            ("description"@, Value::Text(rule.description@)),
            ("dispatch"@, described_dispatch(rule.dispatch@)),
            ("domain"@, Value::Text(domain_name(rule.domain))),
            ("examples"@, text_list(texts(rule.examples@))),
        ],
    )
}

fn rule_descriptor(rule: &RoutingRule) -> (out: Json)
    ensures
        out@ == described_rule(*rule),
{
    let mut entries: Vec<(String, Json)> = Vec::new();
    entries.push(("description".to_owned(), Json::text(rule.description.as_str())));
    entries.push(("dispatch".to_owned(), dispatch_descriptor(&rule.dispatch)));
    entries.push(("domain".to_owned(), Json::text(domain_key(&rule.domain).as_str())));
    entries.push(("examples".to_owned(), Json::text_list(&rule.examples)));
    assert(entries_view(entries@) =~= described_rule(*rule)->Object_0);
    Json::object(entries)
}

/// The catalog as the classifier reads it: every rule, then the fallback.
pub open spec fn catalog(table: RoutingTable) -> Value {
    Value::List(
        table.rules@.push(table.fallback).map_values(|r: RoutingRule| described_rule(r)),
    )
}

/// Writes [`catalog`] over several lines.
pub fn routing_domains_json(routing_table: &RoutingTable) -> (out: String)
    ensures
        out@ == pretty_text(catalog(*routing_table), Seq::empty()),
{
    let mut domains: Vec<Json> = Vec::new();
    let mut i: usize = 0;
    while i < routing_table.rules.len()
        invariant
            i <= routing_table.rules@.len(),
            domains@.len() == i,
            forall|k: int|
                0 <= k < i ==> (#[trigger] domains@[k])@ == described_rule(
                    routing_table.rules@[k],
                ),
        decreases routing_table.rules@.len() - i,
    {
        domains.push(rule_descriptor(&routing_table.rules[i]));
        i = i + 1;
    }
    domains.push(rule_descriptor(&routing_table.fallback));
    let list = Json::List(domains);
    assert(list@->List_0 =~= catalog(*routing_table)->List_0);
    list.to_pretty()
}

/// What the classifier is told to do.
pub const CLASSIFIER_INSTRUCTIONS: &'static str = "Classify the user's task using only the provided routing domains and their delegate/escalation target descriptions. Prefer the target whose functional description best matches the requested work; do not use keyword matching. Return only JSON with fields: domain, confidence.";

/// What the classifier is asked.
pub fn routing_classifier_messages(input: &str, domains_json: &str) -> (out: Vec<Message>)
    ensures
        messages_view(out@) == seq![
            plain_message(MessageRole::System, CLASSIFIER_INSTRUCTIONS@),
            plain_message(
                MessageRole::User,
                "Routing domains:\n"@ + domains_json@ + "\n\nUser prompt:\n"@ + input@,
            ),
        ],
{
    let mut prompt = "Routing domains:\n".to_owned();
    prompt.push_str(domains_json);
    prompt.push_str("\n\nUser prompt:\n");
    prompt.push_str(input);
    let mut out: Vec<Message> = Vec::new();
    out.push(Message::text(MessageRole::System, CLASSIFIER_INSTRUCTIONS));
    out.push(Message::text(MessageRole::User, prompt.as_str()));
    assert(messages_view(out@) =~= seq![
        plain_message(MessageRole::System, CLASSIFIER_INSTRUCTIONS@),
        plain_message(MessageRole::User, prompt@),
    ]);
    out
}

/// Function words that carry no routing signal.
pub open spec fn stopwords() -> Seq<Seq<char>> {
    seq![
        "and"@,
        "are"@,
        "but"@,
        "can"@,
        "could"@,
        "did"@,
        "does"@,
        "for"@,
        "from"@,
        "had"@,
        "has"@,
        "have"@,
        "how"@,
        "into"@,
        "its"@,
        "our"@,
        "please"@,
        "should"@,
        "that"@,
        "the"@,
        "their"@,
        "them"@,
        "then"@,
        "there"@,
        "these"@,
        "they"@,
        "this"@,
        "those"@,
        "wants"@,
        "was"@,
        "were"@,
        "what"@,
        "when"@,
        "where"@,
        "which"@,
        "who"@,
        "why"@,
        "will"@,
        "with"@,
        "would"@,
        "you"@,
        "your"@,
    ]
}

fn is_stopword(token: &str) -> (yes: bool)
    ensures
        yes == stopwords().contains(token@),
{
    let mut words: Vec<&'static str> = Vec::new();
    words.push("and");
    words.push("are");
    words.push("but");
    words.push("can");
    words.push("could");
    words.push("did");
    words.push("does");
    words.push("for");
    words.push("from");
    words.push("had");
    words.push("has");
    words.push("have");
    words.push("how");
    words.push("into");
    words.push("its");
    words.push("our");
    words.push("please");
    words.push("should");
    words.push("that");
    words.push("the");
    words.push("their");
    words.push("them");
    words.push("then");
    words.push("there");
    words.push("these");
    words.push("they");
    words.push("this");
    words.push("those");
    words.push("wants");
    words.push("was");
    words.push("were");
    words.push("what");
    words.push("when");
    words.push("where");
    words.push("which");
    words.push("who");
    words.push("why");
    words.push("will");
    words.push("with");
    words.push("would");
    words.push("you");
    words.push("your");
    let ghost all = stopwords();
    assert(words@.map_values(|w: &str| w@) =~= all);
    let mut i: usize = 0;
    while i < words.len()
        invariant
            i <= words@.len(),
            all == stopwords(),
            all == words@.map_values(|w: &str| w@),
            forall|k: int| 0 <= k < i ==> #[trigger] all[k] != token@,
        decreases words@.len() - i,
    {
        assert(all[i as int] == words@[i as int]@);
        if same(words[i], token) {
            assert(all.contains(token@));
            return true;
        }
        i = i + 1;
    }
    assert(!all.contains(token@));
    false
}

/// The tokens among the first `n` words: at least three letters long, in lower
/// case, and no stopwords.
pub open spec fn tokens_among(words: Seq<Seq<char>>, n: int) -> Seq<Seq<char>>
    decreases n,
{
    if n <= 0 {
        Seq::empty()
    } else if words[n - 1].len() >= 3 && !stopwords().contains(lowered(words[n - 1])) {
        tokens_among(words, n - 1).push(lowered(words[n - 1]))
    } else {
        tokens_among(words, n - 1)
    }
}

/// The tokens of a text that carry a routing signal.
pub open spec fn significant(input: Seq<char>) -> Seq<Seq<char>> {
    tokens_among(ascii_words(input), ascii_words(input).len() as int)
}

proof fn lemma_tokens_among(words: Seq<Seq<char>>, n: int, token: Seq<char>)
    requires
        0 <= n <= words.len(),
    ensures
        tokens_among(words, n).contains(token) <==> exists|i: int|
            0 <= i < n && (#[trigger] words[i]).len() >= 3 && lowered(words[i]) == token
                && !stopwords().contains(token),
    decreases n,
{
    if n > 0 {
        lemma_tokens_among(words, n - 1, token);
        let before = tokens_among(words, n - 1);
        let after = tokens_among(words, n);
        let last = words[n - 1];
        let taken = last.len() >= 3 && !stopwords().contains(lowered(last));
        if taken {
            crate::lists::lemma_push_members(before, lowered(last));
            assert(after.contains(token) <==> after.to_set().contains(token));
            assert(before.contains(token) <==> before.to_set().contains(token));
        } else {
            assert(after == before);
        }
        if after.contains(token) && !before.contains(token) {
            assert(taken);
            assert(lowered(words[n - 1]) == token);
            assert(words[n - 1].len() >= 3);
        }
        if after.contains(token) && before.contains(token) {
            let i = choose|i: int|
                0 <= i < n - 1 && (#[trigger] words[i]).len() >= 3 && lowered(words[i]) == token
                    && !stopwords().contains(token);
            assert(words[i].len() >= 3);
        }
        if exists|i: int|
            0 <= i < n && (#[trigger] words[i]).len() >= 3 && lowered(words[i]) == token
                && !stopwords().contains(token) {
            let i = choose|i: int|
                0 <= i < n && (#[trigger] words[i]).len() >= 3 && lowered(words[i]) == token
                    && !stopwords().contains(token);
            if i < n - 1 {
                assert(words[i].len() >= 3);
            }
        }
    }
}

/// What carries a routing signal is every word of three letters or more that
/// is no stopword, in lower case, and nothing else.
pub proof fn significant_words_are_found(input: Seq<char>, token: Seq<char>)
    ensures
        significant(input).contains(token) <==> exists|word: Seq<char>|
            #[trigger] ascii_words(input).contains(word) && word.len() >= 3 && lowered(word)
                == token && !stopwords().contains(token),
{
    let words = ascii_words(input);
    lemma_tokens_among(words, words.len() as int, token);
    if significant(input).contains(token) {
        let i = choose|i: int|
            0 <= i < words.len() && (#[trigger] words[i]).len() >= 3 && lowered(words[i]) == token
                && !stopwords().contains(token);
        assert(words.contains(words[i]));
    }
    if exists|word: Seq<char>| #[trigger]
        words.contains(word) && word.len() >= 3 && lowered(word) == token && !stopwords().contains(
            token,
        ) {
        let word = choose|word: Seq<char>| #[trigger]
            words.contains(word) && word.len() >= 3 && lowered(word) == token
                && !stopwords().contains(token);
        let i = choose|i: int| 0 <= i < words.len() && words[i] == word;
        assert(words[i].len() >= 3);
    }
}

/// Computes [`significant`].
pub fn significant_tokens(input: &str) -> (out: Vec<String>)
    ensures
        texts(out@) == significant(input@),
{
    let words = ascii_words_of(input);
    let ghost all = ascii_words(input@);
    let mut out: Vec<String> = Vec::new();
    let mut i: usize = 0;
    assert(texts(out@) =~= Seq::empty());
    assert(all.len() == words@.len());
    while i < words.len()
        invariant
            i <= words@.len(),
            all == texts(words@),
            texts(out@) == tokens_among(all, i as int),
        decreases words@.len() - i,
    {
        assert(all[i as int] == words@[i as int]@);
        let ghost before = texts(out@);
        if chars_of(words[i].as_str()).len() >= 3 {
            let token = to_lower(words[i].as_str());
            if !is_stopword(token.as_str()) {
                let ghost view = token@;
                out.push(token);
                assert(texts(out@) =~= before.push(view));
            }
        }
        i = i + 1;
    }
    out
}

/// The tokens of the first `n` texts.
pub open spec fn tokens_of(list: Seq<Seq<char>>, n: int) -> Set<Seq<char>>
    decreases n,
{
    if n <= 0 {
        Set::empty()
    } else {
        tokens_of(list, n - 1).union(significant(list[n - 1]).to_set())
    }
}

/// The tokens of one rule: of its domain, its description and its examples.
pub open spec fn rule_tokens(rule: RoutingRule) -> Set<Seq<char>> {
    significant(domain_name(rule.domain)).to_set().union(
        significant(rule.description@).to_set(),
    ).union(tokens_of(texts(rule.examples@), rule.examples@.len() as int))
}

/// The tokens of the first `n` rules.
pub open spec fn rules_tokens(rules: Seq<RoutingRule>, n: int) -> Set<Seq<char>>
    decreases n,
{
    if n <= 0 {
        Set::empty()
    } else {
        rules_tokens(rules, n - 1).union(rule_tokens(rules[n - 1]))
    }
}

/// Whether every specialised rule has an example.
pub open spec fn has_examples(table: RoutingTable) -> bool {
    forall|i: int| 0 <= i < table.rules@.len() ==> (#[trigger] table.rules@[i]).examples@.len() > 0
}

/// The tokens of the specialised rules. Empty, which turns the pre-filter off,
/// unless every one of them has an example; the fallback never counts.
pub open spec fn vocabulary(table: RoutingTable) -> Set<Seq<char>> {
    if has_examples(table) {
        rules_tokens(table.rules@, table.rules@.len() as int)
    } else {
        Set::empty()
    }
}

fn add_tokens(list: &mut Vec<String>, input: &str)
    requires
        increasing(texts(old(list)@)),
    ensures
        increasing(texts(final(list)@)),
        texts(final(list)@).to_set() == texts(old(list)@).to_set().union(
            significant(input@).to_set(),
        ),
{
    let tokens = significant_tokens(input);
    let ghost all = significant(input@);
    let ghost base = texts(list@).to_set();
    let mut i: usize = 0;
    assert(all.len() == tokens@.len());
    assert(base =~= base.union(all.take(0).to_set()));
    while i < tokens.len()
        invariant
            i <= tokens@.len(),
            all == texts(tokens@),
            increasing(texts(list@)),
            texts(list@).to_set() == base.union(all.take(i as int).to_set()),
        decreases tokens@.len() - i,
    {
        insert_sorted(list, tokens[i].as_str());
        proof {
            assert(all.take(i + 1) =~= all.take(i as int).push(all[i as int]));
            crate::lists::lemma_push_members(all.take(i as int), all[i as int]);
            assert(texts(list@).to_set() =~= base.union(all.take(i + 1).to_set()));
        }
        i = i + 1;
    }
    assert(all.take(all.len() as int) =~= all);
}

fn add_rule_tokens(list: &mut Vec<String>, rule: &RoutingRule)
    requires
        increasing(texts(old(list)@)),
    ensures
        increasing(texts(final(list)@)),
        texts(final(list)@).to_set() == texts(old(list)@).to_set().union(rule_tokens(*rule)),
{
    let ghost base = texts(list@).to_set();
    let key = domain_key(&rule.domain);
    add_tokens(list, key.as_str());
    add_tokens(list, rule.description.as_str());
    let ghost examples = texts(rule.examples@);
    let ghost start = texts(list@).to_set();
    let mut i: usize = 0;
    assert(start =~= start.union(tokens_of(examples, 0)));
    while i < rule.examples.len()
        invariant
            i <= rule.examples@.len(),
            examples == texts(rule.examples@),
            increasing(texts(list@)),
            texts(list@).to_set() == start.union(tokens_of(examples, i as int)),
        decreases rule.examples@.len() - i,
    {
        add_tokens(list, rule.examples[i].as_str());
        assert(examples[i as int] == rule.examples@[i as int]@);
        assert(texts(list@).to_set() =~= start.union(tokens_of(examples, i + 1)));
        i = i + 1;
    }
    assert(texts(list@).to_set() =~= base.union(rule_tokens(*rule)));
}

/// Computes [`vocabulary`], in order.
pub fn routing_vocabulary(routing_table: &RoutingTable) -> (out: Vec<String>)
    ensures
        increasing(texts(out@)),
        texts(out@).to_set() == vocabulary(*routing_table),
{
    let mut out: Vec<String> = Vec::new();
    assert(texts(out@).to_set() =~= Set::empty());
    let mut n: usize = 0;
    while n < routing_table.rules.len()
        invariant
            n <= routing_table.rules@.len(),
            out@.len() == 0,
            texts(out@).to_set() == Set::<Seq<char>>::empty(),
            forall|k: int|
                0 <= k < n ==> (#[trigger] routing_table.rules@[k]).examples@.len() > 0,
        decreases routing_table.rules@.len() - n,
    {
        if routing_table.rules[n].examples.len() == 0 {
            assert(!has_examples(*routing_table));
            return out;
        }
        n = n + 1;
    }
    let mut i: usize = 0;
    while i < routing_table.rules.len()
        invariant
            i <= routing_table.rules@.len(),
            increasing(texts(out@)),
            texts(out@).to_set() == rules_tokens(routing_table.rules@, i as int),
        decreases routing_table.rules@.len() - i,
    {
        add_rule_tokens(&mut out, &routing_table.rules[i]);
        i = i + 1;
    }
    out
}

/// Whether a request shares a token with a vocabulary.
pub fn input_overlaps_vocabulary(input: &str, vocabulary: &Vec<String>) -> (yes: bool)
    ensures
        yes == exists|i: int|
            0 <= i < significant(input@).len() && texts(vocabulary@).contains(
                #[trigger] significant(input@)[i],
            ),
{
    let tokens = significant_tokens(input);
    let ghost all = significant(input@);
    assert(all.len() == tokens@.len());
    let mut i: usize = 0;
    while i < tokens.len()
        invariant
            i <= tokens@.len(),
            all == significant(input@),
            all == texts(tokens@),
            forall|k: int| 0 <= k < i ==> !texts(vocabulary@).contains(#[trigger] all[k]),
        decreases tokens@.len() - i,
    {
        assert(all[i as int] == tokens@[i as int]@);
        if contains_text(vocabulary, tokens[i].as_str()) {
            assert(texts(vocabulary@).contains(all[i as int]));
            return true;
        }
        i = i + 1;
    }
    false
}

/// The pre-filter never turns away a rule's own words: a request that shares a
/// token with a rule of a full table shares it with the vocabulary.
pub proof fn rule_tokens_are_in_the_vocabulary(table: RoutingTable, i: int, token: Seq<char>)
    requires
        has_examples(table),
        0 <= i < table.rules@.len(),
        rule_tokens(table.rules@[i]).contains(token),
    ensures
        vocabulary(table).contains(token),
{
    lemma_rules_tokens(table.rules@, i, table.rules@.len() as int, token);
}

proof fn lemma_rules_tokens(rules: Seq<RoutingRule>, i: int, n: int, token: Seq<char>)
    requires
        0 <= i < n <= rules.len(),
        rule_tokens(rules[i]).contains(token),
    ensures
        rules_tokens(rules, n).contains(token),
    decreases n,
{
    if i < n - 1 {
        lemma_rules_tokens(rules, i, n - 1, token);
    }
}

/// A text without a fence around it.
pub open spec fn unfenced(input: Seq<char>) -> Seq<char> {
    let opened = trimmed(
        if begins(input, "```json"@) {
            input.skip("```json"@.len() as int)
        } else if begins(input, "```"@) {
            input.skip("```"@.len() as int)
        } else {
            input
        },
    );
    trimmed(
        if ends(opened, "```"@) {
            opened.take(opened.len() - "```"@.len())
        } else {
            opened
        },
    )
}

/// The first place of a character at or after `i`; the length when there is
/// none.
pub open spec fn first_place(s: Seq<char>, c: char, i: int) -> int
    decreases s.len() - i,
{
    if i >= s.len() {
        s.len() as int
    } else if i >= 0 && s[i] == c {
        i
    } else {
        first_place(s, c, i + 1)
    }
}

/// The last place of a character before `n`; minus one when there is none.
pub open spec fn last_place(s: Seq<char>, c: char, n: int) -> int
    decreases n,
{
    if n <= 0 {
        -1
    } else if n <= s.len() && s[n - 1] == c {
        n - 1
    } else {
        last_place(s, c, n - 1)
    }
}

/// The object a text holds, fences and chatter aside: from its first opening
/// brace to its last closing one.
pub open spec fn held_object(input: Seq<char>) -> Option<Seq<char>> {
    let text = unfenced(input);
    let start = first_place(text, '{', 0);
    let end = last_place(text, '}', text.len() as int);
    if start <= end {
        Some(text.subrange(start, end + 1))
    } else {
        None
    }
}

fn strip_fences(input: &str) -> (out: String)
    ensures
        out@ == unfenced(input@),
{
    let opened = match strip_prefix(input, "```json") {
        Some(rest) => trim(rest.as_str()),
        None => match strip_prefix(input, "```") {
            Some(rest) => trim(rest.as_str()),
            None => trim(input),
        },
    };
    match strip_suffix(opened.as_str(), "```") {
        Some(rest) => trim(rest.as_str()),
        None => trim(opened.as_str()),
    }
}

/// Finds [`held_object`].
pub fn extract_json_object(input: &str) -> (out: Option<String>)
    ensures
        opt_view(out) == held_object(input@),
{
    let text = strip_fences(input);
    let chars = chars_of(text.as_str());
    let ghost s = text@;
    let mut start: usize = 0;
    while start < chars.len() && chars[start] != '{'
        invariant
            start <= chars@.len(),
            chars@ == s,
            first_place(s, '{', 0) == first_place(s, '{', start as int),
        decreases chars@.len() - start,
    {
        start = start + 1;
    }
    let mut end: usize = chars.len();
    while end > 0 && chars[end - 1] != '}'
        invariant
            end <= chars@.len(),
            chars@ == s,
            last_place(s, '}', s.len() as int) == last_place(s, '}', end as int),
        decreases end,
    {
        end = end - 1;
    }
    if start < end {
        Some(string_of(&chars, start, end))
    } else {
        None
    }
}

/// A text with its dashes made underscores.
pub open spec fn underscored(s: Seq<char>) -> Seq<char> {
    s.map_values(|c: char| if c == '-' { '_' } else { c })
}

/// A domain as a model writes it: trimmed, in lower case, with underscores.
pub fn normalize_domain_key(input: &str) -> (out: String)
    ensures
        out@ == underscored(lowered(trimmed(input@))),
{
    let lower = to_lower(trim(input).as_str());
    let chars = chars_of(lower.as_str());
    let ghost s = lower@;
    let mut out = String::new();
    let mut i: usize = 0;
    assert(out@ =~= underscored(s.take(0)));
    while i < chars.len()
        invariant
            i <= chars@.len(),
            chars@ == s,
            out@ == underscored(s.take(i as int)),
        decreases chars@.len() - i,
    {
        let ghost before = out@;
        if chars[i] == '-' {
            out.push('_');
        } else {
            out.push(chars[i]);
        }
        assert(s.take(i + 1) =~= s.take(i as int).push(s[i as int]));
        assert(out@ =~= underscored(s.take(i + 1)));
        i = i + 1;
    }
    assert(s.take(s.len() as int) =~= s);
    out
}

/// The rule a classifier chose, when it was confident and the table has it.
pub fn decided_rule<'a>(routing_table: &'a RoutingTable, domain: &str, confident: bool) -> (rule:
    Option<&'a RoutingRule>)
    ensures
        (match rule {
            Some(rule) => Some(*rule),
            None => None,
        }) == if confident {
            rule_named(*routing_table, underscored(lowered(trimmed(domain@))))
        } else {
            None
        },
{
    if !confident {
        return None;
    }
    rule_for_domain_key(routing_table, normalize_domain_key(domain).as_str())
}

/// Whether metadata is what a sub-agent gets: its own, with the request as its
/// prompt unless it has one.
pub open spec fn is_prompted(
    metadata: Seq<(Seq<char>, Value)>,
    input: Seq<char>,
    out: Seq<(Seq<char>, Value)>,
) -> bool {
    if lookup(metadata, "prompt"@) is Some {
        out == metadata
    } else {
        &&& ordered(out)
        &&& lookup(out, "prompt"@) == Some(Value::Text(input))
        &&& forall|key: Seq<char>|
            key != "prompt"@ ==> lookup(out, key) == #[trigger] lookup(metadata, key)
    }
}

/// Whether a plan sends a request to a target.
pub open spec fn is_dispatch(
    dispatch: DispatchView,
    task_id: Seq<char>,
    input: Seq<char>,
    plan: Option<PlanView>,
) -> bool {
    match dispatch {
        DispatchView::Direct => plan is None,
        DispatchView::Delegate(spec) => {
            &&& plan matches Some(PlanView::Delegate(out))
            &&& out.agent_id == spec.agent_id
            &&& out.policy_id == spec.policy_id
            &&& is_prompted(spec.metadata, input, out.metadata)
        },
        DispatchView::Escalate(template) => plan == Some(
            PlanView::Escalate {
                template,
                task_id,
                policy_id: "default"@,
                metadata: seq![("prompt"@, Value::Text(input))],
            },
        ),
    }
}

/// Whether the metadata of a target is in order, as metadata is kept.
pub open spec fn dispatch_ordered(dispatch: DispatchView) -> bool {
    dispatch matches DispatchView::Delegate(spec) ==> ordered(spec.metadata)
}

/// The plan that sends a request to a target; `None` when the run handles it
/// itself.
pub fn materialize_dispatch(task_id: &str, input: &str, dispatch: &DispatchTarget) -> (plan: Option<
    Plan,
>)
    requires
        dispatch_ordered(dispatch@),
    ensures
        is_dispatch(dispatch@, task_id@, input@, super::plan::plan_view(plan)),
{
    match dispatch {
        DispatchTarget::Direct => None,
        DispatchTarget::Delegate(spec) => {
            let mut out = spec.copy();
            if find(&out.metadata, "prompt").is_none() {
                put(&mut out.metadata, "prompt", Json::text(input));
            }
            Some(Plan::Delegate(out))
        },
        DispatchTarget::Escalate(template) => {
            let mut metadata: Vec<(String, Json)> = Vec::new();
            metadata.push(("prompt".to_owned(), Json::text(input)));
            assert(entries_view(metadata@) =~= seq![("prompt"@, Value::Text(input@))]);
            Some(
                Plan::Escalate(
                    SubOrchSpec {
                        template: template.copy(),
                        task_id: task_id.to_owned(),
                        policy_id: "default".to_owned(),
                        metadata,
                    },
                ),
            )
        },
    }
}

proof fn lemma_examples_tokens(list: Seq<Seq<char>>, n: int, token: Seq<char>)
    requires
        0 <= n <= list.len(),
    ensures
        tokens_of(list, n).contains(token) <==> exists|i: int|
            0 <= i < n && significant(#[trigger] list[i]).contains(token),
    decreases n,
{
    if n > 0 {
        lemma_examples_tokens(list, n - 1, token);
        let last = significant(list[n - 1]);
        assert(last.to_set().contains(token) <==> last.contains(token));
        if exists|i: int| 0 <= i < n - 1 && significant(#[trigger] list[i]).contains(token) {
            let i = choose|i: int|
                0 <= i < n - 1 && significant(#[trigger] list[i]).contains(token);
            assert(significant(list[i]).contains(token));
        }
        if exists|i: int| 0 <= i < n && significant(#[trigger] list[i]).contains(token) {
            let i = choose|i: int| 0 <= i < n && significant(#[trigger] list[i]).contains(token);
            if i < n - 1 {
                assert(significant(list[i]).contains(token));
            }
        }
    }
}

/// A word of the request's is in the vocabulary exactly when every rule has an
/// example and some rule has it in its domain, its description or an example.
pub proof fn the_vocabulary_is_what_the_rules_say(table: RoutingTable, token: Seq<char>)
    ensures
        vocabulary(table).contains(token) <==> (forall|i: int|
            0 <= i < table.rules@.len() ==> (#[trigger] table.rules@[i]).examples@.len() > 0)
            && exists|i: int|
            0 <= i < table.rules@.len() && says_word(#[trigger] table.rules@[i], token),
{
    let rules = table.rules@;
    lemma_vocabulary(rules, rules.len() as int, token);
}

/// Whether a rule has a significant word in its domain, its description or one
/// of its examples.
pub open spec fn says_word(rule: RoutingRule, token: Seq<char>) -> bool {
    ||| significant(domain_name(rule.domain)).contains(token)
    ||| significant(rule.description@).contains(token)
    ||| exists|k: int|
        0 <= k < rule.examples@.len() && significant((#[trigger] rule.examples@[k])@).contains(
            token,
        )
}

proof fn lemma_rule_says(rule: RoutingRule, token: Seq<char>)
    ensures
        rule_tokens(rule).contains(token) <==> says_word(rule, token),
{
    let list = texts(rule.examples@);
    lemma_examples_tokens(list, rule.examples@.len() as int, token);
    let (a, b) = (significant(domain_name(rule.domain)), significant(rule.description@));
    assert(a.to_set().contains(token) <==> a.contains(token));
    assert(b.to_set().contains(token) <==> b.contains(token));
    if exists|i: int| 0 <= i < list.len() && significant(#[trigger] list[i]).contains(token) {
        let i = choose|i: int| 0 <= i < list.len() && significant(#[trigger] list[i]).contains(token);
        assert(significant(rule.examples@[i]@).contains(token));
    }
    if exists|k: int|
        0 <= k < rule.examples@.len() && significant((#[trigger] rule.examples@[k])@).contains(
            token,
        ) {
        let k = choose|k: int|
            0 <= k < rule.examples@.len() && significant((#[trigger] rule.examples@[k])@).contains(
                token,
            );
        assert(significant(list[k]).contains(token));
    }
}

proof fn lemma_vocabulary(rules: Seq<RoutingRule>, n: int, token: Seq<char>)
    requires
        0 <= n <= rules.len(),
    ensures
        rules_tokens(rules, n).contains(token) <==> exists|i: int|
            0 <= i < n && says_word(#[trigger] rules[i], token),
    decreases n,
{
    if n > 0 {
        lemma_vocabulary(rules, n - 1, token);
        lemma_rule_says(rules[n - 1], token);
        if exists|i: int| 0 <= i < n - 1 && says_word(#[trigger] rules[i], token) {
            let i = choose|i: int| 0 <= i < n - 1 && says_word(#[trigger] rules[i], token);
            assert(says_word(rules[i], token));
        }
        if exists|i: int| 0 <= i < n && says_word(#[trigger] rules[i], token) {
            let i = choose|i: int| 0 <= i < n && says_word(#[trigger] rules[i], token);
            if i < n - 1 {
                assert(says_word(rules[i], token));
            }
        }
    }
}

proof fn lemma_places(s: Seq<char>, c: char, i: int, n: int)
    requires
        0 <= i <= s.len(),
        0 <= n <= s.len(),
    ensures
        i <= first_place(s, c, i) <= s.len(),
        forall|k: int| i <= k < first_place(s, c, i) ==> s[k] != c,
        first_place(s, c, i) < s.len() ==> s[first_place(s, c, i)] == c,
        -1 <= last_place(s, c, n) < n || n == 0,
        forall|k: int| last_place(s, c, n) < k < n ==> s[k] != c,
        last_place(s, c, n) >= 0 ==> s[last_place(s, c, n)] == c,
        n == 0 ==> last_place(s, c, n) == -1,
    decreases s.len() - i, n,
{
    if i < s.len() && s[i] != c {
        lemma_places(s, c, i + 1, n);
    } else if n > 0 && s[n - 1] != c {
        lemma_places(s, c, i, n - 1);
    }
}

/// Whether a character is neither of the two braces.
pub open spec fn is_no_brace(c: char) -> bool {
    c != '{' && c != '}'
}

proof fn lemma_trim_keeps_braces(s: Seq<char>) -> (cut: (int, int))
    ensures
        0 <= cut.0 <= cut.1 <= s.len(),
        trimmed(s) == s.subrange(cut.0, cut.1),
        forall|k: int| 0 <= k < cut.0 || cut.1 <= k < s.len() ==> is_no_brace(#[trigger] s[k]),
{
    let cut = crate::text::trimming_takes_only_white_space(s);
    assert forall|k: int| 0 <= k < cut.0 || cut.1 <= k < s.len() implies is_no_brace(
        #[trigger] s[k],
    ) by {
        crate::text::visible_ascii_is_no_space('{');
        crate::text::visible_ascii_is_no_space('}');
        assert(crate::text::is_space(s[k]));
    }
    cut
}

#[verifier::rlimit(80)]
#[verifier::spinoff_prover]
proof fn lemma_unfenced(input: Seq<char>) -> (cut: (int, int))
    ensures
        0 <= cut.0 <= cut.1 <= input.len(),
        unfenced(input) == input.subrange(cut.0, cut.1),
        forall|k: int|
            0 <= k < cut.0 || cut.1 <= k < input.len() ==> is_no_brace(#[trigger] input[k]),
{
    reveal_strlit("```json");
    reveal_strlit("```");
    let skip: int = if begins(input, "```json"@) {
        7
    } else if begins(input, "```"@) {
        3
    } else {
        0
    };
    assert forall|k: int| 0 <= k < skip implies is_no_brace(#[trigger] input[k]) by {
        if skip == 7 {
            assert(input.take(7)[k] == "```json"@[k]);
        } else {
            assert(input.take(3)[k] == "```"@[k]);
        }
    }
    let body = input.skip(skip);
    assert(input.skip(0) =~= input);
    let first = lemma_trim_keeps_braces(body);
    let opened = trimmed(body);
    let keep: int = if ends(opened, "```"@) {
        opened.len() - 3
    } else {
        opened.len() as int
    };
    let closed = opened.take(keep);
    assert(opened.take(opened.len() as int) =~= opened);
    assert forall|k: int| keep <= k < opened.len() implies is_no_brace(#[trigger] opened[k]) by {
        assert(opened.skip(keep)[k - keep] == "```"@[k - keep]);
    }
    let second = lemma_trim_keeps_braces(closed);
    let lo = skip + first.0 + second.0;
    let hi = skip + first.0 + second.1;
    assert(unfenced(input) =~= input.subrange(lo, hi));
    assert forall|k: int| 0 <= k < lo || hi <= k < input.len() implies is_no_brace(
        #[trigger] input[k],
    ) by {
        if k >= skip {
            let b = k - skip;
            assert(body[b] == input[k]);
            if first.0 <= b < first.1 {
                let o = b - first.0;
                assert(opened[o] == body[b]);
                if o < keep {
                    assert(closed[o] == opened[o]);
                }
            }
        }
    }
    (lo, hi)
}

/// The object a model wrote is what lies between the first opening brace and
/// the last closing one, both included, whatever stands around it; and nothing
/// is found only where no closing brace follows an opening one.
pub proof fn the_object_is_between_the_outer_braces(input: Seq<char>, start: int, end: int)
    requires
        0 <= start < input.len(),
        0 <= end < input.len(),
        input[start] == '{',
        forall|k: int| 0 <= k < start ==> input[k] != '{',
        input[end] == '}',
        forall|k: int| end < k < input.len() ==> input[k] != '}',
    ensures
        start <= end ==> held_object(input) == Some(input.subrange(start, end + 1)),
        start > end ==> held_object(input) is None,
{
    let cut = lemma_unfenced(input);
    let text = unfenced(input);
    assert(cut.0 <= start < cut.1) by {
        if start < cut.0 || start >= cut.1 {
            assert(is_no_brace(input[start]));
        }
    }
    assert(cut.0 <= end < cut.1) by {
        if end < cut.0 || end >= cut.1 {
            assert(is_no_brace(input[end]));
        }
    }
    lemma_places(text, '{', 0, text.len() as int);
    lemma_places(text, '}', 0, text.len() as int);
    let a = first_place(text, '{', 0);
    let b = last_place(text, '}', text.len() as int);
    assert(text[start - cut.0] == '{');
    assert(text[end - cut.0] == '}');
    if a < start - cut.0 {
        assert(input[a + cut.0] == '{');
    }
    if b > end - cut.0 {
        assert(input[b + cut.0] == '}');
    }
    assert(a == start - cut.0);
    assert(b == end - cut.0);
    if start <= end {
        assert(text.subrange(a, b + 1) =~= input.subrange(start, end + 1));
    }
}

/// Without a brace of either kind there is no object.
pub proof fn no_brace_no_object(input: Seq<char>)
    requires
        (forall|k: int| 0 <= k < input.len() ==> input[k] != '{') || (forall|k: int|
            0 <= k < input.len() ==> input[k] != '}'),
    ensures
        held_object(input) is None,
{
    let cut = lemma_unfenced(input);
    let text = unfenced(input);
    lemma_places(text, '{', 0, text.len() as int);
    lemma_places(text, '}', 0, text.len() as int);
    let a = first_place(text, '{', 0);
    let b = last_place(text, '}', text.len() as int);
    if a < text.len() {
        assert(input[a + cut.0] == '{');
    }
    if b >= 0 {
        assert(input[b + cut.0] == '}');
    }
}

/// A domain is looked up without dashes, and otherwise as it is written.
pub proof fn dashes_become_underscores(s: Seq<char>, i: int)
    requires
        0 <= i < s.len(),
    ensures
        underscored(s).len() == s.len(),
        s[i] == '-' ==> underscored(s)[i] == '_',
        s[i] != '-' ==> underscored(s)[i] == s[i],
{
}

/// A request goes where its rule says: to the rule's sub-agent under its
/// policy, to the rule's template, or nowhere; and whoever gets it is given the
/// request as its prompt, unless the rule has a prompt of its own.
pub proof fn a_dispatch_goes_where_the_rule_says(
    dispatch: DispatchView,
    task_id: Seq<char>,
    input: Seq<char>,
    plan: Option<PlanView>,
)
    requires
        is_dispatch(dispatch, task_id, input, plan),
    ensures
        dispatch is Direct <==> plan is None,
        dispatch matches DispatchView::Delegate(spec) ==> {
            &&& plan matches Some(PlanView::Delegate(out))
            &&& out.agent_id == spec.agent_id
            &&& out.policy_id == spec.policy_id
            &&& lookup(out.metadata, "prompt"@) == match lookup(spec.metadata, "prompt"@) {
                Some(own) => Some(own),
                None => Some(Value::Text(input)),
            }
            &&& forall|key: Seq<char>|
                key != "prompt"@ ==> lookup(out.metadata, key) == #[trigger] lookup(
                    spec.metadata,
                    key,
                )
        },
        dispatch matches DispatchView::Escalate(template) ==> {
            &&& plan matches Some(
                PlanView::Escalate { template: sent, task_id: task, policy_id, metadata },
            )
            &&& sent == template
            &&& task == task_id
            &&& policy_id == "default"@
            &&& lookup(metadata, "prompt"@) == Some(Value::Text(input))
        },
{
    if let DispatchView::Escalate(template) = dispatch {
        let metadata = seq![("prompt"@, Value::Text(input))];
        assert(metadata[0].0 == "prompt"@);
    }
}

/// The classifier is shown every rule, in order, and the fallback last, each
/// with its domain, its description, its examples and where it leads.
pub proof fn the_catalog_shows_every_rule(table: RoutingTable, i: int)
    requires
        0 <= i <= table.rules@.len(),
    ensures
        catalog(table) matches Value::List(shown) && shown.len() == table.rules@.len() + 1 && {
            let rule = if i < table.rules@.len() {
                table.rules@[i]
            } else {
                table.fallback
            };
            &&& member(shown[i], "domain"@) == Some(Value::Text(domain_name(rule.domain)))
            &&& member(shown[i], "description"@) == Some(Value::Text(rule.description@))
            &&& member(shown[i], "examples"@) == Some(text_list(texts(rule.examples@)))
            &&& member(shown[i], "dispatch"@) == Some(described_dispatch(rule.dispatch@))
        },
{
    reveal_strlit("description");
    reveal_strlit("dispatch");
    reveal_strlit("domain");
    reveal_strlit("examples");
    assert("description"@.len() == 11 && "dispatch"@.len() == 8 && "domain"@.len() == 6
        && "examples"@.len() == 8 && "examples"@[0] == 'e' && "dispatch"@[0] == 'd');
    let rule = if i < table.rules@.len() {
        table.rules@[i]
    } else {
        table.fallback
    };
    let entries = described_rule(rule)->Object_0;
    crate::json::the_first_entry_counts(entries, "domain"@);
    crate::json::the_first_entry_counts(entries, "description"@);
    crate::json::the_first_entry_counts(entries, "examples"@);
    crate::json::the_first_entry_counts(entries, "dispatch"@);
    assert(entries[0].0 == "description"@ && entries[1].0 == "dispatch"@ && entries[2].0
        == "domain"@ && entries[3].0 == "examples"@);
}

/// The classifier is told what kind of target a rule has, and which.
pub proof fn a_target_is_shown_for_what_it_is(dispatch: DispatchView)
    ensures
        dispatch is Direct ==> member(described_dispatch(dispatch), "kind"@) == Some(
            Value::Text("direct"@),
        ),
        dispatch matches DispatchView::Delegate(spec) ==> {
            &&& member(described_dispatch(dispatch), "kind"@) == Some(Value::Text("delegate"@))
            &&& member(described_dispatch(dispatch), "agent_id"@) == Some(
                Value::Text(spec.agent_id),
            )
            &&& member(described_dispatch(dispatch), "subagent"@) == Some(
                described_agent(spec.metadata),
            )
        },
        dispatch matches DispatchView::Escalate(template) ==> {
            &&& member(described_dispatch(dispatch), "kind"@) == Some(Value::Text("escalate"@))
            &&& member(described_dispatch(dispatch), "template"@) == Some(
                Value::Text(template.name),
            )
            &&& member(described_dispatch(dispatch), "stages"@) matches Some(Value::List(stages))
                && stages.len() == template.stages.len() && forall|i: int|
                0 <= i < stages.len() ==> member(#[trigger] stages[i], "stage"@) == Some(
                    Value::Text(template.stages[i].name),
                ) && member(stages[i], "agent_id"@) == Some(
                    Value::Text(template.stages[i].agent.agent_id),
                )
        },
{
    reveal_strlit("description");
    reveal_strlit("kind");
    reveal_strlit("target");
    reveal_strlit("agent_id");
    reveal_strlit("policy_id");
    reveal_strlit("subagent");
    reveal_strlit("stages");
    reveal_strlit("stage");
    reveal_strlit("template");
    reveal_strlit("depends_on");
    assert("kind"@[0] == 'k' && "agent_id"@[0] == 'a' && "subagent"@[0] == 's' && "stages"@[0]
        == 's' && "stage"@[0] == 's' && "template"@[0] == 't' && "depends_on"@[0] == 'd'
        && "policy_id"@[0] == 'p' && "description"@[0] == 'd');
    let entries = described_dispatch(dispatch)->Object_0;
    crate::json::the_first_entry_counts(entries, "kind"@);
    crate::json::the_first_entry_counts(entries, "agent_id"@);
    crate::json::the_first_entry_counts(entries, "subagent"@);
    crate::json::the_first_entry_counts(entries, "template"@);
    crate::json::the_first_entry_counts(entries, "stages"@);
    match dispatch {
        DispatchView::Direct => {
            assert(entries[0].0 == "description"@ && entries[1].0 == "kind"@);
        },
        DispatchView::Delegate(_) => {
            assert(entries[0].0 == "agent_id"@ && entries[1].0 == "kind"@ && entries[2].0
                == "policy_id"@ && entries[3].0 == "subagent"@);
        },
        DispatchView::Escalate(template) => {
            assert(entries[0].0 == "kind"@ && entries[1].0 == "stages"@ && entries[2].0
                == "template"@);
            let stages = template.stages.map_values(|s: StageView| described_stage(s));
            assert forall|i: int| 0 <= i < stages.len() implies member(
                #[trigger] stages[i],
                "stage"@,
            ) == Some(Value::Text(template.stages[i].name)) && member(stages[i], "agent_id"@)
                == Some(Value::Text(template.stages[i].agent.agent_id)) by {
                let inner = described_stage(template.stages[i])->Object_0;
                crate::json::the_first_entry_counts(inner, "stage"@);
                crate::json::the_first_entry_counts(inner, "agent_id"@);
                assert(inner[0].0 == "agent_id"@ && inner[1].0 == "depends_on"@ && inner[2].0
                    == "policy_id"@ && inner[3].0 == "stage"@);
            }
        },
    }
}

/// What the user said counts when they spoke last, and only then.
pub proof fn the_latest_request_is_the_last_turn(items: Seq<ItemView>, item: ItemView)
    ensures
        item.message.role == MessageRole::User ==> latest_request(items.push(item)) == Some(
            item.message.content,
        ),
        item.message.role != MessageRole::User ==> latest_request(items.push(item)) is None,
        latest_request(Seq::empty()) is None,
{
}

/// A sub-agent is described by what its metadata says of it: its name, what it
/// is for, how long it may take, and what it can use.
pub proof fn a_sub_agent_is_described_by_its_metadata(metadata: Seq<(Seq<char>, Value)>)
    ensures
        described_agent(metadata) matches Value::Object(entries) && entries.len() == 5 && {
            &&& entries.contains(("name"@, text_or_null(metadata, "subagent_name"@)))
            &&& entries.contains(("description"@, text_or_null(metadata, "subagent_description"@)))
            &&& entries.contains(("max_turns"@, count_or_null(metadata, "subagent_max_turns"@)))
            &&& entries.contains(("skills"@, list_or_empty(metadata, "subagent_skills"@)))
            &&& entries.contains(("tools"@, list_or_empty(metadata, "subagent_tools"@)))
        },
{
    let entries = described_agent(metadata)->Object_0;
    assert(entries[0].0 == "description"@ && entries[1].0 == "max_turns"@ && entries[2].0
        == "name"@ && entries[3].0 == "skills"@ && entries[4].0 == "tools"@);
    assert(entries.contains(entries[0]) && entries.contains(entries[1]) && entries.contains(
        entries[2],
    ) && entries.contains(entries[3]) && entries.contains(entries[4]));
}

} // verus!
