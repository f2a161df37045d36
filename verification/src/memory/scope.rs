//! Memory scopes and the namespaces they are stored under.

use crate::identity::{
    component, component_is_injective, encode_component, lemma_component_chars, lemma_pieces_cons,
    lemma_pieces_one, sender_field, storage_name_is_injective, Identity, Principal,
};
use crate::json::{entries_view, find, lookup, Json, Value};
use crate::lists::{contains_text, pieces};
use crate::text::{opt_view, texts};
use vstd::prelude::*;

verus! {

/// The layers of long-term memory.
#[derive(Clone, Copy, Debug, PartialEq, Eq, Structural)]
pub enum MemoryStore {
    Working,
    Episodic,
    Semantic,
    Procedural,
    Audit,
}

/// The stable name of a store.
pub open spec fn store_name(store: MemoryStore) -> Seq<char> {
    match store {
        MemoryStore::Working => "working"@,
        MemoryStore::Episodic => "episodic"@,
        MemoryStore::Semantic => "semantic"@,
        MemoryStore::Procedural => "procedural"@,
        MemoryStore::Audit => "audit"@,
    }
}

impl MemoryStore {
    /// The stable name of this store.
    pub fn as_str(self) -> (name: &'static str)
        ensures
            name@ == store_name(self),
    {
        match self {
            MemoryStore::Working => "working",
            MemoryStore::Episodic => "episodic",
            MemoryStore::Semantic => "semantic",
            MemoryStore::Procedural => "procedural",
            MemoryStore::Audit => "audit",
        }
    }
}

/// Whom a memory belongs to.
pub enum MemoryOwner {
    User(String),
    Agent(String),
    Task(String),
    /// One conversation, keyed by its principal rather than by a channel-local
    /// id.
    Conversation(Principal),
    Shared,
}

/// What a [`MemoryOwner`] stands for.
pub enum OwnerView {
    User(Seq<char>),
    Agent(Seq<char>),
    Task(Seq<char>),
    Conversation(Identity),
    Shared,
}

impl View for MemoryOwner {
    type V = OwnerView;

    open spec fn view(&self) -> OwnerView {
        match *self {
            MemoryOwner::User(id) => OwnerView::User(id@),
            MemoryOwner::Agent(id) => OwnerView::Agent(id@),
            MemoryOwner::Task(id) => OwnerView::Task(id@),
            MemoryOwner::Conversation(principal) => OwnerView::Conversation(principal@),
            MemoryOwner::Shared => OwnerView::Shared,
        }
    }
}

/// The stable name of an owner's kind.
pub open spec fn owner_kind(owner: OwnerView) -> Seq<char> {
    match owner {
        OwnerView::User(_) => "user"@,
        OwnerView::Agent(_) => "agent"@,
        OwnerView::Task(_) => "task"@,
        OwnerView::Conversation(_) => "conversation"@,
        OwnerView::Shared => "shared"@,
    }
}

/// The owner's identity, encoded for a namespace.
pub open spec fn owner_id(owner: OwnerView) -> Seq<char> {
    match owner {
        OwnerView::User(id) => component(id),
        OwnerView::Agent(id) => component(id),
        OwnerView::Task(id) => component(id),
        OwnerView::Conversation(principal) => principal.name(),
        OwnerView::Shared => "global"@,
    }
}

impl MemoryOwner {
    /// The stable name of this owner's kind.
    pub fn kind(&self) -> (name: &'static str)
        ensures
            name@ == owner_kind(self@),
    {
        match self {
            MemoryOwner::User(_) => "user",
            MemoryOwner::Agent(_) => "agent",
            MemoryOwner::Task(_) => "task",
            MemoryOwner::Conversation(_) => "conversation",
            MemoryOwner::Shared => "shared",
        }
    }

    /// The owner's identity, encoded for a namespace.
    pub fn namespace_id(&self) -> (out: String)
        ensures
            out@ == owner_id(self@),
    {
        match self {
            MemoryOwner::User(id) => encode_component(id.as_str()),
            MemoryOwner::Agent(id) => encode_component(id.as_str()),
            MemoryOwner::Task(id) => encode_component(id.as_str()),
            MemoryOwner::Conversation(principal) => principal.storage_name(),
            MemoryOwner::Shared => "global".to_owned(),
        }
    }
}

/// How far a memory may be seen.
#[derive(Clone, Copy, Debug, PartialEq, Eq, Structural)]
pub enum MemoryVisibility {
    Private,
    Shared,
    Public,
}

/// The stable name of a visibility.
pub open spec fn visibility_name(visibility: MemoryVisibility) -> Seq<char> {
    match visibility {
        MemoryVisibility::Private => "private"@,
        MemoryVisibility::Shared => "shared"@,
        MemoryVisibility::Public => "public"@,
    }
}

impl MemoryVisibility {
    /// The stable name of this visibility.
    pub fn as_str(self) -> (name: &'static str)
        ensures
            name@ == visibility_name(self),
    {
        match self {
            MemoryVisibility::Private => "private",
            MemoryVisibility::Shared => "shared",
            MemoryVisibility::Public => "public",
        }
    }
}

/// One place memory is kept: a store, an owner, a visibility and a domain.
pub struct MemoryScope {
    pub store: MemoryStore,
    pub owner: MemoryOwner,
    pub visibility: MemoryVisibility,
    pub domain: Option<String>,
}

/// What a [`MemoryScope`] stands for.
#[verifier::ext_equal]
pub struct ScopeView {
    pub store: MemoryStore,
    pub owner: OwnerView,
    pub visibility: MemoryVisibility,
    pub domain: Option<Seq<char>>,
}

impl View for MemoryScope {
    type V = ScopeView;

    open spec fn view(&self) -> ScopeView {
        ScopeView {
            store: self.store,
            owner: self.owner@,
            visibility: self.visibility,
            domain: opt_view(self.domain),
        }
    }
}

impl ScopeView {
    /// The domain a scope is filed under.
    pub open spec fn filed_domain(self) -> Seq<char> {
        match self.domain {
            Some(name) => name,
            None => "general"@,
        }
    }

    /// The last field of the namespace.
    pub open spec fn domain_field(self) -> Seq<char> {
        match self.domain {
            Some(name) => component(name),
            None => "general"@,
        }
    }

    /// The namespace records of this scope are stored under.
    pub open spec fn namespace(self) -> Seq<char> {
        visibility_name(self.visibility) + "/"@ + owner_kind(self.owner) + "/"@ + owner_id(
            self.owner,
        ) + "/"@ + store_name(self.store) + "/"@ + self.domain_field()
    }

    /// The five fields of the namespace.
    pub open spec fn fields(self) -> Seq<Seq<char>> {
        seq![
            visibility_name(self.visibility),
            owner_kind(self.owner),
            owner_id(self.owner),
            store_name(self.store),
            self.domain_field(),
        ]
    }
}

/// Whether a text holds no slash.
pub open spec fn slashless(s: Seq<char>) -> bool {
    forall|i: int| 0 <= i < s.len() ==> s[i] != '/'
}

proof fn lemma_component_slashless(value: Seq<char>)
    ensures
        slashless(component(value)),
{
    lemma_component_chars(value);
}

/// A storage name holds no slash.
pub proof fn lemma_name_slashless(id: Identity)
    ensures
        slashless(id.name()),
{
    let (a, c, t) = (component(id.agent), component(id.channel), component(id.conversation));
    lemma_component_chars(id.agent);
    lemma_component_chars(id.channel);
    lemma_component_chars(id.conversation);
    let s = sender_field(id.sender);
    assert(slashless(s)) by {
        if let Some(name) = id.sender {
            lemma_component_chars(name);
            assert forall|i: int| 0 <= i < s.len() implies s[i] != '/' by {
                if i > 0 {
                    assert(s[i] == component(name)[i - 1]);
                }
            }
        }
    }
    let v = seq!['v', '1', '.'];
    let dot = seq!['.'];
    lemma_slashless_concat(v, a);
    lemma_slashless_concat(v + a, dot);
    lemma_slashless_concat(v + a + dot, c);
    lemma_slashless_concat(v + a + dot + c, dot);
    lemma_slashless_concat(v + a + dot + c + dot, t);
    lemma_slashless_concat(v + a + dot + c + dot + t, dot);
    lemma_slashless_concat(v + a + dot + c + dot + t + dot, s);
}

proof fn lemma_slashless_concat(a: Seq<char>, b: Seq<char>)
    requires
        slashless(a),
        slashless(b),
    ensures
        slashless(a + b),
{
    assert forall|i: int| 0 <= i < (a + b).len() implies (a + b)[i] != '/' by {
        if i < a.len() {
            assert((a + b)[i] == a[i]);
        } else {
            assert((a + b)[i] == b[i - a.len()]);
        }
    }
}

proof fn lemma_literals()
    ensures
        slashless("private"@),
        slashless("shared"@),
        slashless("public"@),
        slashless("user"@),
        slashless("agent"@),
        slashless("task"@),
        slashless("conversation"@),
        slashless("global"@),
        slashless("working"@),
        slashless("episodic"@),
        slashless("semantic"@),
        slashless("procedural"@),
        slashless("audit"@),
        slashless("general"@),
        "/"@ == seq!['/'],
        "private"@.len() == 7,
        "shared"@.len() == 6,
        "shared"@[0] == 's',
        "public"@.len() == 6,
        "public"@[0] == 'p',
        "user"@.len() == 4,
        "user"@[0] == 'u',
        "agent"@.len() == 5,
        "task"@.len() == 4,
        "task"@[0] == 't',
        "conversation"@.len() == 12,
        "working"@.len() == 7,
        "episodic"@.len() == 8,
        "episodic"@[0] == 'e',
        "semantic"@.len() == 8,
        "semantic"@[0] == 's',
        "procedural"@.len() == 10,
        "audit"@.len() == 5,
        crate::identity::is_plain("general"@),
{
    reveal_strlit("private");
    reveal_strlit("shared");
    reveal_strlit("public");
    reveal_strlit("user");
    reveal_strlit("agent");
    reveal_strlit("task");
    reveal_strlit("conversation");
    reveal_strlit("global");
    reveal_strlit("working");
    reveal_strlit("episodic");
    reveal_strlit("semantic");
    reveal_strlit("procedural");
    reveal_strlit("audit");
    reveal_strlit("general");
    reveal_strlit("/");
    assert("/"@ =~= seq!['/']);
}

/// Five fields without slashes, put together, are cut apart again.
pub proof fn lemma_five_fields(v: Seq<char>, k: Seq<char>, o: Seq<char>, s: Seq<char>, d: Seq<char>)
    requires
        slashless(v),
        slashless(k),
        slashless(o),
        slashless(s),
        slashless(d),
    ensures
        pieces(v + "/"@ + k + "/"@ + o + "/"@ + s + "/"@ + d, '/') == seq![v, k, o, s, d],
{
    reveal_strlit("/");
    let slash = seq!['/'];
    assert("/"@ =~= slash);
    let r3 = s + slash + d;
    let r2 = o + slash + r3;
    let r1 = k + slash + r2;
    assert(v + slash + k + slash + o + slash + s + slash + d =~= v + slash + r1);
    lemma_pieces_cons(v, '/', r1);
    lemma_pieces_cons(k, '/', r2);
    lemma_pieces_cons(o, '/', r3);
    lemma_pieces_cons(s, '/', d);
    lemma_pieces_one(d, '/');
    assert(pieces(v + slash + r1, '/') =~= seq![v, k, o, s, d]);
}

proof fn lemma_slashless_fields(scope: ScopeView)
    ensures
        slashless(visibility_name(scope.visibility)),
        slashless(owner_kind(scope.owner)),
        slashless(owner_id(scope.owner)),
        slashless(store_name(scope.store)),
        slashless(scope.domain_field()),
{
    lemma_literals();
    match scope.owner {
        OwnerView::User(id) => lemma_component_slashless(id),
        OwnerView::Agent(id) => lemma_component_slashless(id),
        OwnerView::Task(id) => lemma_component_slashless(id),
        OwnerView::Conversation(id) => lemma_name_slashless(id),
        OwnerView::Shared => {},
    }
    if let Some(name) = scope.domain {
        lemma_component_slashless(name);
    }
}

/// A namespace cut at its slashes gives its five fields.
pub proof fn lemma_namespace_fields(scope: ScopeView)
    ensures
        pieces(scope.namespace(), '/') == scope.fields(),
{
    lemma_slashless_fields(scope);
    lemma_five_fields(
        visibility_name(scope.visibility),
        owner_kind(scope.owner),
        owner_id(scope.owner),
        store_name(scope.store),
        scope.domain_field(),
    );
}

/// Two scopes share a namespace exactly when they have the same visibility,
/// the same owner, the same store, and are filed under the same domain.
pub proof fn namespaces_separate_scopes(a: ScopeView, b: ScopeView)
    ensures
        a.namespace() == b.namespace() <==> (a.visibility == b.visibility && a.owner == b.owner
            && a.store == b.store && a.filed_domain() == b.filed_domain()),
{
    lemma_literals();
    assert(component("general"@) == "general"@);
    assert(a.domain_field() == component(a.filed_domain()));
    assert(b.domain_field() == component(b.filed_domain()));
    if a.namespace() == b.namespace() {
        lemma_namespace_fields(a);
        lemma_namespace_fields(b);
        assert(a.fields()[0] == b.fields()[0]);
        assert(a.fields()[1] == b.fields()[1]);
        assert(a.fields()[2] == b.fields()[2]);
        assert(a.fields()[3] == b.fields()[3]);
        assert(a.fields()[4] == b.fields()[4]);
        component_is_injective(a.filed_domain(), b.filed_domain());
        match (a.owner, b.owner) {
            (OwnerView::User(x), OwnerView::User(y)) => component_is_injective(x, y),
            (OwnerView::Agent(x), OwnerView::Agent(y)) => component_is_injective(x, y),
            (OwnerView::Task(x), OwnerView::Task(y)) => component_is_injective(x, y),
            (OwnerView::Conversation(x), OwnerView::Conversation(y)) => storage_name_is_injective(
                x,
                y,
            ),
            _ => {},
        }
    }
}

impl MemoryScope {
    /// A scope.
    pub fn new(
        store: MemoryStore,
        owner: MemoryOwner,
        visibility: MemoryVisibility,
        domain: Option<String>,
    ) -> (out: MemoryScope)
        ensures
            out@ == (ScopeView { store, owner: owner@, visibility, domain: opt_view(domain) }),
    {
        MemoryScope { store, owner, visibility, domain }
    }

    /// The last field of the namespace.
    pub fn domain_name(&self) -> (out: String)
        ensures
            out@ == self@.domain_field(),
    {
        match &self.domain {
            Some(name) => encode_component(name.as_str()),
            None => "general".to_owned(),
        }
    }

    /// The namespace records of this scope are stored under.
    pub fn namespace(&self) -> (out: String)
        ensures
            out@ == self@.namespace(),
    {
        let mut out = self.visibility.as_str().to_owned();
        out.push_str("/");
        out.push_str(self.owner.kind());
        out.push_str("/");
        out.push_str(self.owner.namespace_id().as_str());
        out.push_str("/");
        out.push_str(self.store.as_str());
        out.push_str("/");
        out.push_str(self.domain_name().as_str());
        out
    }
}

/// Who is asking for memory, and what they were granted.
pub struct MemoryCaller {
    pub agent_id: String,
    pub task_id: String,
    /// Which channel the conversation belongs to.
    pub channel_id: String,
    pub conversation_id: String,
    pub user_id: Option<String>,
    /// Shared domains this caller may read.
    pub allowed_shared_domains: Vec<String>,
    /// Shared domains this caller may write.
    pub writable_shared_domains: Vec<String>,
    pub audit_read_access: bool,
}

/// What a [`MemoryCaller`] stands for.
#[verifier::ext_equal]
pub struct CallerView {
    pub agent_id: Seq<char>,
    pub task_id: Seq<char>,
    pub channel_id: Seq<char>,
    pub conversation_id: Seq<char>,
    pub user_id: Option<Seq<char>>,
    pub allowed_shared_domains: Seq<Seq<char>>,
    pub writable_shared_domains: Seq<Seq<char>>,
    pub audit_read_access: bool,
}

impl View for MemoryCaller {
    type V = CallerView;

    open spec fn view(&self) -> CallerView {
        CallerView {
            agent_id: self.agent_id@,
            task_id: self.task_id@,
            channel_id: self.channel_id@,
            conversation_id: self.conversation_id@,
            user_id: opt_view(self.user_id),
            allowed_shared_domains: texts(self.allowed_shared_domains@),
            writable_shared_domains: texts(self.writable_shared_domains@),
            audit_read_access: self.audit_read_access,
        }
    }
}

impl CallerView {
    /// The principal for this caller's own conversation.
    pub open spec fn own_conversation(self) -> Identity {
        Identity {
            agent: self.agent_id,
            channel: self.channel_id,
            conversation: self.conversation_id,
            sender: None,
        }
    }
}

impl MemoryCaller {
    /// The principal for this caller's own conversation.
    pub fn conversation_principal(&self) -> (out: Principal)
        ensures
            out@ == self@.own_conversation(),
    {
        Principal::conversation(
            self.agent_id.as_str(),
            self.channel_id.as_str(),
            self.conversation_id.as_str(),
        )
    }
}

/// What a deployment's shared domains permit.
pub struct SharedDomainGrants {
    pub readable: Vec<String>,
    pub writable: Vec<String>,
}

impl SharedDomainGrants {
    /// Read-only access to the named domains.
    pub fn read_only(domains: Vec<String>) -> (out: SharedDomainGrants)
        ensures
            out.readable == domains,
            out.writable@.len() == 0,
    {
        SharedDomainGrants { readable: domains, writable: Vec::new() }
    }

    /// Whether a domain may be written.
    pub fn permits_write(&self, domain: &str) -> (yes: bool)
        ensures
            yes == texts(self.writable@).contains(domain@),
    {
        contains_text(&self.writable, domain)
    }
}

/// How memory is searched.
#[derive(Clone, Copy, Debug, PartialEq, Eq, Structural)]
pub enum RetrievalStrategy {
    Lexical,
    Recency,
    Hybrid,
}

/// What a turn asks of long-term memory.
pub struct HydrationRequest {
    pub query: String,
    pub domain: Option<String>,
    pub max_fragments: usize,
    pub max_tokens: usize,
    pub stores: Vec<MemoryStore>,
    pub strategy: RetrievalStrategy,
}

/// What a hydration looked at and took.
#[derive(Clone, Copy, Debug, PartialEq, Eq, Structural)]
pub struct HydrationStats {
    pub candidate_count: usize,
    pub selected_count: usize,
    pub namespace_count: usize,
}

/// How a run ended.
#[derive(Clone, Copy, Debug, PartialEq, Eq, Structural)]
pub enum EpisodeOutcome {
    Succeeded,
    Failed,
    Denied,
}

/// The stable name of an outcome.
pub open spec fn outcome_name(outcome: EpisodeOutcome) -> Seq<char> {
    match outcome {
        EpisodeOutcome::Succeeded => "succeeded"@,
        EpisodeOutcome::Failed => "failed"@,
        EpisodeOutcome::Denied => "denied"@,
    }
}

impl EpisodeOutcome {
    /// The stable name of this outcome.
    pub fn as_str(self) -> (name: &'static str)
        ensures
            name@ == outcome_name(self),
    {
        match self {
            EpisodeOutcome::Succeeded => "succeeded",
            EpisodeOutcome::Failed => "failed",
            EpisodeOutcome::Denied => "denied",
        }
    }
}

/// The record of one finished run.
pub struct EpisodeRecord {
    pub run_id: String,
    pub task_id: String,
    pub active_agent: String,
    pub channel_id: String,
    pub conversation_id: String,
    pub user_id: Option<String>,
    pub outcome: EpisodeOutcome,
    pub tools_used: Vec<String>,
    pub subagents_used: Vec<String>,
    pub summary: String,
    pub turn_count: usize,
    pub metadata: Vec<(String, Json)>,
}

/// Whether a key is set to true.
pub open spec fn is_set(metadata: Seq<(Seq<char>, Value)>, key: Seq<char>) -> bool {
    lookup(metadata, key) == Some(Value::Bool(true))
}

impl EpisodeRecord {
    /// The principal this episode belongs to.
    pub fn conversation_principal(&self) -> (out: Principal)
        ensures
            out@ == (Identity {
                agent: self.active_agent@,
                channel: self.channel_id@,
                conversation: self.conversation_id@,
                sender: None,
            }),
    {
        Principal::conversation(
            self.active_agent.as_str(),
            self.channel_id.as_str(),
            self.conversation_id.as_str(),
        )
    }

    fn metadata_bool(&self, key: &str) -> (set: bool)
        ensures
            set == is_set(entries_view(self.metadata@), key@),
    {
        match find(&self.metadata, key) {
            Some(value) => match value.as_flag() {
                Some(flag) => flag,
                None => false,
            },
            None => false,
        }
    }

    /// Whether an episode is worth keeping: it did not simply succeed in one
    /// turn without tools, sub-agents or an explicit mark.
    pub open spec fn records(&self) -> bool {
        self.outcome != EpisodeOutcome::Succeeded || self.turn_count > 1 || self.tools_used@.len()
            > 0 || self.subagents_used@.len() > 0 || is_set(
            entries_view(self.metadata@),
            "explicit_user_preference"@,
        ) || is_set(entries_view(self.metadata@), "explicit_memory_write"@) || is_set(
            entries_view(self.metadata@),
            "approval_recorded"@,
        )
    }

    /// Decides [`EpisodeRecord::records`].
    pub fn should_record(&self) -> (yes: bool)
        ensures
            yes == self.records(),
    {
        self.outcome != EpisodeOutcome::Succeeded || self.turn_count > 1 || self.tools_used.len()
            > 0 || self.subagents_used.len() > 0 || self.metadata_bool("explicit_user_preference")
            || self.metadata_bool("explicit_memory_write") || self.metadata_bool(
            "approval_recorded",
        )
    }
}

/// A run is worth keeping as an episode when it did not succeed, took more than
/// a turn, had help, or was marked; a plain answer is not.
pub proof fn what_is_worth_keeping(episode: EpisodeRecord)
    ensures
        episode.outcome != EpisodeOutcome::Succeeded ==> episode.records(),
        episode.turn_count > 1 ==> episode.records(),
        episode.tools_used@.len() > 0 ==> episode.records(),
        episode.subagents_used@.len() > 0 ==> episode.records(),
        lookup(entries_view(episode.metadata@), "explicit_user_preference"@) == Some(
            Value::Bool(true),
        ) ==> episode.records(),
        lookup(entries_view(episode.metadata@), "explicit_memory_write"@) == Some(
            Value::Bool(true),
        ) ==> episode.records(),
        lookup(entries_view(episode.metadata@), "approval_recorded"@) == Some(Value::Bool(true))
            ==> episode.records(),
        episode.outcome == EpisodeOutcome::Succeeded && episode.turn_count <= 1
            && episode.tools_used@.len() == 0 && episode.subagents_used@.len() == 0
            && episode.metadata@.len() == 0 ==> !episode.records(),
{
    if episode.metadata@.len() == 0 {
        assert(entries_view(episode.metadata@).len() == 0);
    }
}

/// The names of stores, visibilities and kinds of owners tell them apart.
pub proof fn scope_names_tell_apart(
    a: MemoryStore,
    b: MemoryStore,
    c: MemoryVisibility,
    d: MemoryVisibility,
)
    ensures
        store_name(a) == store_name(b) ==> a == b,
        visibility_name(c) == visibility_name(d) ==> c == d,
        outcome_name(EpisodeOutcome::Succeeded) == "succeeded"@,
        outcome_name(EpisodeOutcome::Failed) == "failed"@,
        outcome_name(EpisodeOutcome::Denied) == "denied"@,
        store_name(MemoryStore::Semantic) == "semantic"@,
        store_name(MemoryStore::Episodic) == "episodic"@,
        store_name(MemoryStore::Procedural) == "procedural"@,
        store_name(MemoryStore::Working) == "working"@,
        store_name(MemoryStore::Audit) == "audit"@,
{
    reveal_strlit("working");
    reveal_strlit("episodic");
    reveal_strlit("semantic");
    reveal_strlit("procedural");
    reveal_strlit("audit");
    reveal_strlit("private");
    reveal_strlit("shared");
    reveal_strlit("public");
    assert("working"@[0] == 'w' && "episodic"@[0] == 'e' && "semantic"@[0] == 's'
        && "procedural"@[0] == 'p' && "audit"@[0] == 'a');
    assert("private"@[1] == 'r' && "shared"@[1] == 'h' && "public"@[1] == 'u');
}

} // verus!
