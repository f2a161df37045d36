//! Where migrated memory settles: owners in their opaque form, and the
//! namespaces built from them.

use super::scope::{
    lemma_five_fields, slashless, store_name, visibility_name, MemoryStore, MemoryVisibility,
};
use crate::identity::{
    base64url, decodes_base64url, is_base64url, lemma_base64url_round_trip, mark, marked,
    marked_is_injective, storage_key_is_injective, Identity, Principal,
};
use crate::lists::{pieces, split};
use crate::text::{begins, opt_view, same, strip_prefix, texts};
use vstd::prelude::*;
use vstd::utf8::encode_utf8;

verus! {

/// Whom a migrated memory belongs to.
pub enum SettledOwner {
    /// One participant of one conversation.
    Principal(Principal),
    User(String),
    Agent(String),
    Task(String),
    Shared,
}

/// What a [`SettledOwner`] stands for.
pub enum SettledOwnerView {
    Principal(Identity),
    User(Seq<char>),
    Agent(Seq<char>),
    Task(Seq<char>),
    Shared,
}

impl View for SettledOwner {
    type V = SettledOwnerView;

    open spec fn view(&self) -> SettledOwnerView {
        match *self {
            SettledOwner::Principal(principal) => SettledOwnerView::Principal(principal@),
            SettledOwner::User(id) => SettledOwnerView::User(id@),
            SettledOwner::Agent(id) => SettledOwnerView::Agent(id@),
            SettledOwner::Task(id) => SettledOwnerView::Task(id@),
            SettledOwner::Shared => SettledOwnerView::Shared,
        }
    }
}

impl SettledOwnerView {
    /// The stable name of this owner's kind.
    pub open spec fn kind(self) -> Seq<char> {
        match self {
            SettledOwnerView::Principal(_) => "principal"@,
            SettledOwnerView::User(_) => "user"@,
            SettledOwnerView::Agent(_) => "agent"@,
            SettledOwnerView::Task(_) => "task"@,
            SettledOwnerView::Shared => "shared"@,
        }
    }

    /// The owner's field of a namespace.
    pub open spec fn field(self) -> Seq<char> {
        match self {
            SettledOwnerView::Principal(id) => id.key(),
            SettledOwnerView::User(id) => marked(id),
            SettledOwnerView::Agent(id) => marked(id),
            SettledOwnerView::Task(id) => marked(id),
            SettledOwnerView::Shared => "global"@,
        }
    }

    /// The owner's id as metadata spells it: a participant by their key, any
    /// other owner by its own id.
    pub open spec fn metadata_id(self) -> Seq<char> {
        match self {
            SettledOwnerView::Principal(id) => id.key(),
            SettledOwnerView::User(id) => id,
            SettledOwnerView::Agent(id) => id,
            SettledOwnerView::Task(id) => id,
            SettledOwnerView::Shared => "global"@,
        }
    }
}

impl SettledOwner {
    /// The stable name of this owner's kind.
    pub fn kind(&self) -> (name: &'static str)
        ensures
            name@ == self@.kind(),
    {
        match self {
            SettledOwner::Principal(_) => "principal",
            SettledOwner::User(_) => "user",
            SettledOwner::Agent(_) => "agent",
            SettledOwner::Task(_) => "task",
            SettledOwner::Shared => "shared",
        }
    }

    /// The owner's field of a namespace.
    pub fn field(&self) -> (out: String)
        ensures
            out@ == self@.field(),
    {
        match self {
            SettledOwner::Principal(principal) => principal.storage_key(),
            SettledOwner::User(id) => mark(id.as_str()),
            SettledOwner::Agent(id) => mark(id.as_str()),
            SettledOwner::Task(id) => mark(id.as_str()),
            SettledOwner::Shared => "global".to_owned(),
        }
    }

    /// The owner's id as metadata spells it.
    pub fn metadata_id(&self) -> (out: String)
        ensures
            out@ == self@.metadata_id(),
    {
        match self {
            SettledOwner::Principal(principal) => principal.storage_key(),
            SettledOwner::User(id) => id.clone(),
            SettledOwner::Agent(id) => id.clone(),
            SettledOwner::Task(id) => id.clone(),
            SettledOwner::Shared => "global".to_owned(),
        }
    }

    /// Copies an owner.
    pub fn copy(&self) -> (out: SettledOwner)
        ensures
            out@ == self@,
    {
        match self {
            SettledOwner::Principal(principal) => SettledOwner::Principal(principal.copy()),
            SettledOwner::User(id) => SettledOwner::User(id.clone()),
            SettledOwner::Agent(id) => SettledOwner::Agent(id.clone()),
            SettledOwner::Task(id) => SettledOwner::Task(id.clone()),
            SettledOwner::Shared => SettledOwner::Shared,
        }
    }
}

/// One place migrated memory is kept.
pub struct SettledScope {
    pub store: MemoryStore,
    pub owner: SettledOwner,
    pub visibility: MemoryVisibility,
    pub domain: Option<String>,
}

/// What a [`SettledScope`] stands for.
#[verifier::ext_equal]
pub struct SettledScopeView {
    pub store: MemoryStore,
    pub owner: SettledOwnerView,
    pub visibility: MemoryVisibility,
    pub domain: Option<Seq<char>>,
}

impl View for SettledScope {
    type V = SettledScopeView;

    open spec fn view(&self) -> SettledScopeView {
        SettledScopeView {
            store: self.store,
            owner: self.owner@,
            visibility: self.visibility,
            domain: opt_view(self.domain),
        }
    }
}

impl SettledScopeView {
    /// The last field of the namespace.
    pub open spec fn domain_field(self) -> Seq<char> {
        match self.domain {
            Some(name) => marked(name),
            None => "general"@,
        }
    }

    /// The namespace records of this scope are stored under.
    pub open spec fn namespace(self) -> Seq<char> {
        visibility_name(self.visibility) + "/"@ + self.owner.kind() + "/"@ + self.owner.field()
            + "/"@ + store_name(self.store) + "/"@ + self.domain_field()
    }

    /// The five fields of the namespace.
    pub open spec fn fields(self) -> Seq<Seq<char>> {
        seq![
            visibility_name(self.visibility),
            self.owner.kind(),
            self.owner.field(),
            store_name(self.store),
            self.domain_field(),
        ]
    }
}

impl SettledScope {
    /// The last field of the namespace.
    pub fn domain_name(&self) -> (out: String)
        ensures
            out@ == self@.domain_field(),
    {
        match &self.domain {
            Some(name) => mark(name.as_str()),
            None => "general".to_owned(),
        }
    }

    /// The namespace records of this scope are stored under.
    pub fn namespace(&self) -> (out: String)
        ensures
            out@ == self@.namespace(),
    {
        let mut out = self.visibility.as_str().to_owned();
        out.push_str("/");
        out.push_str(self.owner.kind());
        out.push_str("/");
        out.push_str(self.owner.field().as_str());
        out.push_str("/");
        out.push_str(self.store.as_str());
        out.push_str("/");
        out.push_str(self.domain_name().as_str());
        out
    }
}

/// A stored component in the marked form: `id_` and base64url.
pub open spec fn is_marked_component(s: Seq<char>) -> bool {
    begins(s, "id_"@) && is_base64url(s.skip("id_"@.len() as int))
}

fn marked_component(s: &str) -> (yes: bool)
    ensures
        yes == is_marked_component(s@),
{
    match strip_prefix(s, "id_") {
        Some(rest) => decodes_base64url(rest.as_str()),
        None => false,
    }
}

/// Whether a text is some participant's key.
pub open spec fn is_storage_key(s: Seq<char>) -> bool {
    exists|id: Identity| #[trigger] id.key() == s
}

/// The participant a key stands for.
pub open spec fn keyed(key: Seq<char>) -> Identity
    recommends
        is_storage_key(key),
{
    choose|id: Identity| #[trigger] id.key() == key
}

/// Whether a namespace is already in its final form for its owner.
pub open spec fn is_final_namespace(
    namespace: Seq<char>,
    kind: Option<Seq<char>>,
    id: Option<Seq<char>>,
) -> bool {
    let parts = pieces(namespace, '/');
    &&& parts.len() == 5
    &&& if kind == Some("principal"@) {
        id matches Some(key) && is_storage_key(key) && parts[2] == key
    } else if kind == Some("agent"@) || kind == Some("task"@) || kind == Some("user"@) {
        is_marked_component(parts[2])
    } else {
        kind == Some("shared"@) && parts[2] == "global"@
    }
    &&& parts[4] == "general"@ || is_marked_component(parts[4])
}

fn is_text(value: &Option<String>, text: &str) -> (yes: bool)
    ensures
        yes == (opt_view(*value) == Some(text@)),
{
    match value {
        Some(held) => same(held.as_str(), text),
        None => false,
    }
}

/// Decides [`is_final_namespace`].
pub fn namespace_is_v1(namespace: &str, kind: &Option<String>, id: &Option<String>) -> (yes: bool)
    ensures
        yes == is_final_namespace(namespace@, opt_view(*kind), opt_view(*id)),
{
    let parts = split(namespace, '/');
    assert(texts(parts@).len() == parts@.len());
    if parts.len() != 5 {
        return false;
    }
    proof {
        assert(texts(parts@)[2] == parts@[2]@);
        assert(texts(parts@)[4] == parts@[4]@);
    }
    let owner = if is_text(kind, "principal") {
        match id {
            Some(key) => Principal::from_storage_key(key.as_str()).is_some() && same(
                parts[2].as_str(),
                key.as_str(),
            ),
            None => false,
        }
    } else if is_text(kind, "agent") || is_text(kind, "task") || is_text(kind, "user") {
        marked_component(parts[2].as_str())
    } else {
        is_text(kind, "shared") && same(parts[2].as_str(), "global")
    };
    owner && (same(parts[4].as_str(), "general") || marked_component(parts[4].as_str()))
}

proof fn lemma_marked(value: Seq<char>)
    ensures
        slashless(marked(value)),
        is_marked_component(marked(value)),
{
    reveal_strlit("id_");
    let n = "id_"@.len() as int;
    let digits = base64url(encode_utf8(value));
    lemma_base64url_round_trip(encode_utf8(value));
    assert(marked(value).take(n) =~= "id_"@);
    assert(marked(value).skip(n) =~= digits);
    assert forall|i: int| 0 <= i < marked(value).len() implies marked(value)[i] != '/' by {
        if i >= n {
            assert(marked(value)[i] == digits[i - n]);
        }
    }
}

proof fn lemma_key_slashless(id: Identity)
    ensures
        slashless(id.key()),
{
    reveal_strlit("pk1_");
    let n = "pk1_"@.len() as int;
    let digits = base64url(encode_utf8(id.name()));
    lemma_base64url_round_trip(encode_utf8(id.name()));
    assert forall|i: int| 0 <= i < id.key().len() implies id.key()[i] != '/' by {
        if i >= n {
            assert(id.key()[i] == digits[i - n]);
        }
    }
}

proof fn lemma_settled_literals()
    ensures
        slashless("private"@),
        slashless("shared"@),
        slashless("public"@),
        slashless("principal"@),
        slashless("user"@),
        slashless("agent"@),
        slashless("task"@),
        slashless("global"@),
        slashless("working"@),
        slashless("episodic"@),
        slashless("semantic"@),
        slashless("procedural"@),
        slashless("audit"@),
        slashless("general"@),
        "private"@.len() == 7,
        "shared"@.len() == 6 && "shared"@[0] == 's',
        "public"@.len() == 6 && "public"@[0] == 'p',
        "principal"@.len() == 9,
        "user"@.len() == 4 && "user"@[0] == 'u',
        "agent"@.len() == 5,
        "task"@.len() == 4 && "task"@[0] == 't',
        "working"@.len() == 7,
        "episodic"@.len() == 8 && "episodic"@[0] == 'e',
        "semantic"@.len() == 8 && "semantic"@[0] == 's',
        "procedural"@.len() == 10,
        "audit"@.len() == 5,
        "general"@[0] == 'g',
        "id_"@.len() == 3 && "id_"@[0] == 'i',
{
    reveal_strlit("private");
    reveal_strlit("shared");
    reveal_strlit("public");
    reveal_strlit("principal");
    reveal_strlit("user");
    reveal_strlit("agent");
    reveal_strlit("task");
    reveal_strlit("global");
    reveal_strlit("working");
    reveal_strlit("episodic");
    reveal_strlit("semantic");
    reveal_strlit("procedural");
    reveal_strlit("audit");
    reveal_strlit("general");
    reveal_strlit("id_");
}

/// A settled namespace cut at its slashes gives its five fields.
pub proof fn lemma_settled_fields(scope: SettledScopeView)
    ensures
        pieces(scope.namespace(), '/') == scope.fields(),
{
    lemma_settled_literals();
    match scope.owner {
        SettledOwnerView::Principal(id) => lemma_key_slashless(id),
        SettledOwnerView::User(id) => lemma_marked(id),
        SettledOwnerView::Agent(id) => lemma_marked(id),
        SettledOwnerView::Task(id) => lemma_marked(id),
        SettledOwnerView::Shared => {},
    }
    if let Some(name) = scope.domain {
        lemma_marked(name);
    }
    lemma_five_fields(
        visibility_name(scope.visibility),
        scope.owner.kind(),
        scope.owner.field(),
        store_name(scope.store),
        scope.domain_field(),
    );
}

/// What has settled stays: the namespace of a settled scope, with its owner's
/// kind and id, is in its final form.
pub proof fn a_settled_namespace_is_final(scope: SettledScopeView)
    ensures
        is_final_namespace(
            scope.namespace(),
            Some(scope.owner.kind()),
            Some(scope.owner.metadata_id()),
        ),
{
    lemma_settled_fields(scope);
    lemma_settled_literals();
    match scope.owner {
        SettledOwnerView::Principal(id) => {
            assert(is_storage_key(id.key()));
        },
        SettledOwnerView::User(id) => lemma_marked(id),
        SettledOwnerView::Agent(id) => lemma_marked(id),
        SettledOwnerView::Task(id) => lemma_marked(id),
        SettledOwnerView::Shared => {},
    }
    if let Some(name) = scope.domain {
        lemma_marked(name);
    }
}

/// Two settled scopes share a namespace only when they are the same.
pub proof fn settled_namespaces_separate_scopes(a: SettledScopeView, b: SettledScopeView)
    ensures
        a.namespace() == b.namespace() ==> a == b,
{
    if a.namespace() == b.namespace() {
        lemma_settled_literals();
        lemma_settled_fields(a);
        lemma_settled_fields(b);
        assert(a.fields()[0] == b.fields()[0]);
        assert(a.fields()[1] == b.fields()[1]);
        assert(a.fields()[2] == b.fields()[2]);
        assert(a.fields()[3] == b.fields()[3]);
        assert(a.fields()[4] == b.fields()[4]);
        match (a.owner, b.owner) {
            (SettledOwnerView::Principal(x), SettledOwnerView::Principal(y)) =>
                storage_key_is_injective(x, y),
            (SettledOwnerView::User(x), SettledOwnerView::User(y)) => marked_is_injective(x, y),
            (SettledOwnerView::Agent(x), SettledOwnerView::Agent(y)) => marked_is_injective(x, y),
            (SettledOwnerView::Task(x), SettledOwnerView::Task(y)) => marked_is_injective(x, y),
            _ => {},
        }
        match (a.domain, b.domain) {
            (Some(x), Some(y)) => marked_is_injective(x, y),
            (Some(x), None) => assert(marked(x)[0] == 'i'),
            (None, Some(y)) => assert(marked(y)[0] == 'i'),
            (None, None) => {},
        }
    }
}

/// Metadata spells an owner by its own id, and a participant by their key; the
/// namespace holds nobody's id in the open.
pub proof fn metadata_spells_an_owner_by_its_id(id: Seq<char>, participant: Identity)
    ensures
        SettledOwnerView::User(id).metadata_id() == id,
        SettledOwnerView::Agent(id).metadata_id() == id,
        SettledOwnerView::Task(id).metadata_id() == id,
        SettledOwnerView::Principal(participant).metadata_id() == participant.key(),
        SettledOwnerView::User(id).field() == marked(id),
        SettledOwnerView::Agent(id).field() == marked(id),
        SettledOwnerView::Task(id).field() == marked(id),
        SettledOwnerView::Principal(participant).field() == participant.key(),
{
}

/// What is final names its owner: it has five fields, the third of which is the
/// participant's key, a marked id or the name everybody shares, as its kind
/// demands; and where it does not, it is not final.
pub proof fn a_final_namespace_names_its_owner(
    namespace: Seq<char>,
    id: Option<Seq<char>>,
    participant: Identity,
)
    ensures
        pieces(namespace, '/').len() != 5 ==> forall|kind: Option<Seq<char>>| !(
        #[trigger] is_final_namespace(namespace, kind, id)),
        is_final_namespace(namespace, Some("principal"@), id) ==> id == Some(
            pieces(namespace, '/')[2],
        ),
        pieces(namespace, '/').len() == 5 && pieces(namespace, '/')[2] == participant.key() && pieces(
            namespace,
            '/',
        )[4] == "general"@ ==> is_final_namespace(
            namespace,
            Some("principal"@),
            Some(participant.key()),
        ),
        is_final_namespace(namespace, Some("user"@), id) ==> begins(
            pieces(namespace, '/')[2],
            "id_"@,
        ),
        is_final_namespace(namespace, Some("agent"@), id) ==> begins(
            pieces(namespace, '/')[2],
            "id_"@,
        ),
        is_final_namespace(namespace, Some("task"@), id) ==> begins(
            pieces(namespace, '/')[2],
            "id_"@,
        ),
        is_final_namespace(namespace, Some("shared"@), id) ==> pieces(namespace, '/')[2]
            == "global"@,
        !is_final_namespace(namespace, None, id),
{
    lemma_settled_literals();
}

} // verus!
