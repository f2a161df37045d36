//! Who may do what to which scope.

use super::accounting::{MemoryError, MemoryOperation};
use super::scope::{
    CallerView, HydrationRequest, MemoryCaller, MemoryOwner, MemoryScope, MemoryStore,
    MemoryVisibility, OwnerView, ScopeView,
};
use crate::lists::contains_text;
use crate::text::{opt_view, same, texts};
use vstd::prelude::*;

verus! {

/// What every refusal starts with.
pub const UNAUTHORIZED_PREFIX: &'static str = "memory scope unauthorized: ";

/// Why a caller may not perform an operation on a scope; `None` when they may.
pub open spec fn refusal(
    caller: CallerView,
    scope: ScopeView,
    operation: MemoryOperation,
) -> Option<Seq<char>> {
    if scope.store == MemoryStore::Audit {
        if caller.audit_read_access && operation == MemoryOperation::Read {
            None
        } else {
            Some("audit memory requires an administrative path"@)
        }
    } else {
        match scope.owner {
            OwnerView::User(id) => {
                let own = match caller.user_id {
                    Some(user) => user,
                    None => caller.conversation_id,
                };
                if own == id {
                    None
                } else {
                    Some("user memory belongs to a different caller"@)
                }
            },
            OwnerView::Conversation(principal) => if principal == caller.own_conversation() {
                None
            } else {
                Some("conversation memory belongs to a different conversation"@)
            },
            OwnerView::Agent(id) => if scope.visibility == MemoryVisibility::Private && id
                == caller.agent_id {
                None
            } else {
                Some("agent memory belongs to a different agent"@)
            },
            OwnerView::Task(id) => if id == caller.task_id {
                None
            } else {
                Some("task memory belongs to a different task"@)
            },
            OwnerView::Shared => if scope.visibility == MemoryVisibility::Private {
                Some("shared memory cannot be private"@)
            } else if operation == MemoryOperation::Read
                && caller.allowed_shared_domains.contains(scope.filed_domain()) {
                None
            } else if operation != MemoryOperation::Read
                && caller.writable_shared_domains.contains(scope.filed_domain()) {
                None
            } else {
                Some("shared memory is outside the caller's allowed domains"@)
            },
        }
    }
}

/// A refusal as the error callers see.
pub fn unauthorized(message: &str) -> (error: MemoryError)
    ensures
        error matches MemoryError::Backend(text) && text@ == UNAUTHORIZED_PREFIX@ + message@,
{
    let mut text = UNAUTHORIZED_PREFIX.to_owned();
    text.push_str(message);
    MemoryError::Backend(text)
}

fn refuse(message: &str) -> (out: Result<(), MemoryError>)
    ensures
        out matches Err(MemoryError::Backend(text)) && text@ == UNAUTHORIZED_PREFIX@ + message@,
{
    Err(unauthorized(message))
}

/// Decides whether a caller may perform an operation on a scope.
pub fn authorize_scope(caller: &MemoryCaller, scope: &MemoryScope, operation: MemoryOperation) -> (out:
    Result<(), MemoryError>)
    ensures
        out is Ok <==> refusal(caller@, scope@, operation) is None,
        out matches Err(MemoryError::Backend(text)) ==> refusal(caller@, scope@, operation)
            matches Some(reason) && text@ == UNAUTHORIZED_PREFIX@ + reason,
{
    if scope.store == MemoryStore::Audit {
        if caller.audit_read_access && operation == MemoryOperation::Read {
            return Ok(());
        }
        return refuse("audit memory requires an administrative path");
    }
    match &scope.owner {
        MemoryOwner::User(id) => {
            let own = match &caller.user_id {
                Some(user) => user.as_str(),
                None => caller.conversation_id.as_str(),
            };
            if same(own, id.as_str()) {
                Ok(())
            } else {
                refuse("user memory belongs to a different caller")
            }
        },
        MemoryOwner::Conversation(principal) => {
            if principal.same_as(&caller.conversation_principal()) {
                Ok(())
            } else {
                refuse("conversation memory belongs to a different conversation")
            }
        },
        MemoryOwner::Agent(id) => {
            if scope.visibility == MemoryVisibility::Private && same(
                id.as_str(),
                caller.agent_id.as_str(),
            ) {
                Ok(())
            } else {
                refuse("agent memory belongs to a different agent")
            }
        },
        MemoryOwner::Task(id) => {
            if same(id.as_str(), caller.task_id.as_str()) {
                Ok(())
            } else {
                refuse("task memory belongs to a different task")
            }
        },
        MemoryOwner::Shared => {
            if scope.visibility == MemoryVisibility::Private {
                return refuse("shared memory cannot be private");
            }
            let domain = match &scope.domain {
                Some(name) => name.as_str(),
                None => "general",
            };
            let permitted = match operation {
                MemoryOperation::Read => contains_text(&caller.allowed_shared_domains, domain),
                MemoryOperation::Write => contains_text(&caller.writable_shared_domains, domain),
                MemoryOperation::Forget => contains_text(&caller.writable_shared_domains, domain),
            };
            if permitted {
                Ok(())
            } else {
                refuse("shared memory is outside the caller's allowed domains")
            }
        },
    }
}

/// The audit store is never written nor forgotten, by anyone.
pub proof fn audit_is_read_only(caller: CallerView, scope: ScopeView, operation: MemoryOperation)
    requires
        scope.store == MemoryStore::Audit,
        operation != MemoryOperation::Read,
    ensures
        refusal(caller, scope, operation) is Some,
{
}

/// A conversation's memory is open to that conversation alone: another agent,
/// channel or conversation is always refused.
pub proof fn conversations_are_isolated(
    caller: CallerView,
    scope: ScopeView,
    operation: MemoryOperation,
)
    requires
        scope.store != MemoryStore::Audit,
        scope.owner matches OwnerView::Conversation(principal) && principal
            != caller.own_conversation(),
    ensures
        refusal(caller, scope, operation) is Some,
{
}

/// Being able to read a shared domain never lets a caller change it.
pub proof fn reading_grants_no_writing(caller: CallerView, scope: ScopeView, operation: MemoryOperation)
    requires
        scope.owner is Shared,
        operation != MemoryOperation::Read,
        !caller.writable_shared_domains.contains(scope.filed_domain()),
    ensures
        refusal(caller, scope, operation) is Some,
{
}

/// The scopes of one store, in the order they are searched: the user's, the
/// conversation's, the agent's and the task's own, then every readable shared
/// domain.
pub open spec fn store_scopes(
    caller: CallerView,
    domain: Option<Seq<char>>,
    store: MemoryStore,
) -> Seq<ScopeView> {
    let private = |owner: OwnerView|
        ScopeView { store, owner, visibility: MemoryVisibility::Private, domain };
    (match caller.user_id {
        Some(user) => seq![private(OwnerView::User(user))],
        None => Seq::empty(),
    }) + seq![
        private(OwnerView::Conversation(caller.own_conversation())),
        private(OwnerView::Agent(caller.agent_id)),
        private(OwnerView::Task(caller.task_id)),
    ] + shared_scopes(caller.allowed_shared_domains, store)
}

/// One shared scope per domain.
pub open spec fn shared_scopes(domains: Seq<Seq<char>>, store: MemoryStore) -> Seq<ScopeView> {
    domains.map_values(
        |name: Seq<char>|
            ScopeView {
                store,
                owner: OwnerView::Shared,
                visibility: MemoryVisibility::Shared,
                domain: Some(name),
            },
    )
}

/// The scopes of several stores, store by store.
pub open spec fn stores_scopes(
    caller: CallerView,
    domain: Option<Seq<char>>,
    stores: Seq<MemoryStore>,
) -> Seq<ScopeView>
    decreases stores.len(),
{
    if stores.len() == 0 {
        Seq::empty()
    } else {
        stores_scopes(caller, domain, stores.drop_last()) + store_scopes(
            caller,
            domain,
            stores.last(),
        )
    }
}

/// The stores a request searches: semantic memory when it names none.
pub open spec fn searched_stores(stores: Seq<MemoryStore>) -> Seq<MemoryStore> {
    if stores.len() == 0 {
        seq![MemoryStore::Semantic]
    } else {
        stores
    }
}

/// The scopes of a list.
pub open spec fn scopes_view(scopes: Seq<MemoryScope>) -> Seq<ScopeView> {
    scopes.map_values(|s: MemoryScope| s@)
}

proof fn lemma_store_scopes_readable(
    caller: CallerView,
    domain: Option<Seq<char>>,
    store: MemoryStore,
    i: int,
)
    requires
        store == MemoryStore::Audit ==> caller.audit_read_access,
        0 <= i < store_scopes(caller, domain, store).len(),
    ensures
        refusal(caller, store_scopes(caller, domain, store)[i], MemoryOperation::Read) is None,
{
    let all = store_scopes(caller, domain, store);
    let shared = shared_scopes(caller.allowed_shared_domains, store);
    let lead = all.len() - shared.len();
    if i >= lead {
        assert(all[i] == shared[i - lead]);
        assert(all[i].filed_domain() == caller.allowed_shared_domains[i - lead]);
    }
}

/// Every scope a request searches may be read by its caller, whichever stores
/// it names: the audit store too, for a caller with the right to read it.
pub proof fn searched_scopes_are_readable(
    caller: CallerView,
    domain: Option<Seq<char>>,
    stores: Seq<MemoryStore>,
    i: int,
)
    requires
        stores.contains(MemoryStore::Audit) ==> caller.audit_read_access,
        0 <= i < stores_scopes(caller, domain, stores).len(),
    ensures
        refusal(caller, stores_scopes(caller, domain, stores)[i], MemoryOperation::Read) is None,
    decreases stores.len(),
{
    let before = stores_scopes(caller, domain, stores.drop_last());
    let last = store_scopes(caller, domain, stores.last());
    assert(stores[stores.len() - 1] == stores.last());
    if i < before.len() {
        assert(stores.drop_last().contains(MemoryStore::Audit) ==> stores.contains(
            MemoryStore::Audit,
        )) by {
            if stores.drop_last().contains(MemoryStore::Audit) {
                let k = choose|k: int|
                    0 <= k < stores.drop_last().len() && stores.drop_last()[k]
                        == MemoryStore::Audit;
                assert(stores[k] == MemoryStore::Audit);
            }
        }
        searched_scopes_are_readable(caller, domain, stores.drop_last(), i);
    } else {
        lemma_store_scopes_readable(caller, domain, stores.last(), i - before.len());
        assert(stores_scopes(caller, domain, stores)[i] == last[i - before.len()]);
    }
}

fn copy_domain(domain: &Option<String>) -> (out: Option<String>)
    ensures
        opt_view(out) == opt_view(*domain),
{
    match domain {
        Some(name) => Some(name.clone()),
        None => None,
    }
}

fn push_private(
    scopes: &mut Vec<MemoryScope>,
    store: MemoryStore,
    owner: MemoryOwner,
    domain: &Option<String>,
)
    ensures
        scopes_view(final(scopes)@) == scopes_view(old(scopes)@).push(
            ScopeView {
                store,
                owner: owner@,
                visibility: MemoryVisibility::Private,
                domain: opt_view(*domain),
            },
        ),
{
    let ghost before = scopes_view(scopes@);
    let scope = MemoryScope::new(store, owner, MemoryVisibility::Private, copy_domain(domain));
    let ghost view = scope@;
    scopes.push(scope);
    assert(scopes_view(scopes@) =~= before.push(view));
}

fn push_store_scopes(
    scopes: &mut Vec<MemoryScope>,
    caller: &MemoryCaller,
    domain: &Option<String>,
    store: MemoryStore,
)
    ensures
        scopes_view(final(scopes)@) == scopes_view(old(scopes)@) + store_scopes(
            caller@,
            opt_view(*domain),
            store,
        ),
{
    let ghost before = scopes_view(scopes@);
    if let Some(user) = &caller.user_id {
        push_private(scopes, store, MemoryOwner::User(user.clone()), domain);
    }
    push_private(
        scopes,
        store,
        MemoryOwner::Conversation(caller.conversation_principal()),
        domain,
    );
    push_private(scopes, store, MemoryOwner::Agent(caller.agent_id.clone()), domain);
    push_private(scopes, store, MemoryOwner::Task(caller.task_id.clone()), domain);
    let ghost lead = scopes_view(scopes@);
    let ghost shared = shared_scopes(texts(caller.allowed_shared_domains@), store);
    let mut i: usize = 0;
    assert(lead + shared.take(0) =~= lead);
    while i < caller.allowed_shared_domains.len()
        invariant
            i <= caller.allowed_shared_domains@.len(),
            shared == shared_scopes(texts(caller.allowed_shared_domains@), store),
            scopes_view(scopes@) == lead + shared.take(i as int),
        decreases caller.allowed_shared_domains@.len() - i,
    {
        let ghost now = scopes_view(scopes@);
        let scope = MemoryScope::new(
            store,
            MemoryOwner::Shared,
            MemoryVisibility::Shared,
            Some(caller.allowed_shared_domains[i].clone()),
        );
        let ghost view = scope@;
        scopes.push(scope);
        proof {
            assert(scopes_view(scopes@) =~= now.push(view));
            assert(shared[i as int] == view);
            assert(lead + shared.take(i + 1) =~= (lead + shared.take(i as int)).push(view));
        }
        i = i + 1;
    }
    proof {
        assert(shared.take(shared.len() as int) =~= shared);
        assert(scopes_view(scopes@) =~= before + store_scopes(caller@, opt_view(*domain), store));
    }
}

/// The scopes a hydration request searches, in order.
pub fn hydration_scopes(caller: &MemoryCaller, request: &HydrationRequest) -> (scopes: Vec<
    MemoryScope,
>)
    ensures
        scopes_view(scopes@) == stores_scopes(
            caller@,
            opt_view(request.domain),
            searched_stores(request.stores@),
        ),
{
    let mut scopes: Vec<MemoryScope> = Vec::new();
    assert(scopes_view(scopes@) =~= Seq::empty());
    if request.stores.len() == 0 {
        push_store_scopes(&mut scopes, caller, &request.domain, MemoryStore::Semantic);
        proof {
            let one = seq![MemoryStore::Semantic];
            assert(one.drop_last() =~= Seq::empty());
            assert(stores_scopes(caller@, opt_view(request.domain), one.drop_last()) =~= Seq::empty());
            assert(scopes_view(scopes@) =~= stores_scopes(caller@, opt_view(request.domain), one));
        }
        return scopes;
    }
    let mut i: usize = 0;
    while i < request.stores.len()
        invariant
            i <= request.stores@.len(),
            scopes_view(scopes@) == stores_scopes(
                caller@,
                opt_view(request.domain),
                request.stores@.take(i as int),
            ),
        decreases request.stores@.len() - i,
    {
        push_store_scopes(&mut scopes, caller, &request.domain, request.stores[i]);
        assert(request.stores@.take(i + 1).drop_last() =~= request.stores@.take(i as int));
        i = i + 1;
    }
    assert(request.stores@.take(request.stores@.len() as int) =~= request.stores@);
    scopes
}

/// Outside audit memory, everybody reaches what is theirs and nobody else's:
/// a user's memory goes by the user, or by the conversation where none is
/// named; a conversation's, an agent's private and a task's by their own ids;
/// and shared memory by the domains a caller was granted, for reading and for
/// changing apart.
pub proof fn callers_reach_their_own(
    caller: CallerView,
    scope: ScopeView,
    operation: MemoryOperation,
)
    requires
        scope.store != MemoryStore::Audit,
    ensures
        scope.owner matches OwnerView::User(id) ==> (refusal(caller, scope, operation) is None
            <==> caller.user_id == Some(id) || (caller.user_id is None && caller.conversation_id
            == id)),
        scope.owner matches OwnerView::Conversation(principal) ==> (refusal(
            caller,
            scope,
            operation,
        ) is None <==> principal.agent == caller.agent_id && principal.channel == caller.channel_id
            && principal.conversation == caller.conversation_id && principal.sender is None),
        scope.owner matches OwnerView::Agent(id) ==> (refusal(caller, scope, operation) is None
            <==> id == caller.agent_id && scope.visibility == MemoryVisibility::Private),
        scope.owner matches OwnerView::Task(id) ==> (refusal(caller, scope, operation) is None
            <==> id == caller.task_id),
        scope.owner is Shared ==> (refusal(caller, scope, operation) is None <==> scope.visibility
            != MemoryVisibility::Private && (if operation == MemoryOperation::Read {
            caller.allowed_shared_domains
        } else {
            caller.writable_shared_domains
        }).contains(
            match scope.domain {
                Some(name) => name,
                None => "general"@,
            },
        )),
{
}

/// Audit memory is read by callers with the right to, and by nobody else
/// touched at all.
pub proof fn audit_needs_the_right(caller: CallerView, scope: ScopeView, operation: MemoryOperation)
    requires
        scope.store == MemoryStore::Audit,
    ensures
        refusal(caller, scope, operation) is None <==> caller.audit_read_access && operation
            == MemoryOperation::Read,
{
}

proof fn lemma_store_is_searched(
    caller: CallerView,
    domain: Option<Seq<char>>,
    stores: Seq<MemoryStore>,
    s: int,
    scope: ScopeView,
)
    requires
        0 <= s < stores.len(),
        store_scopes(caller, domain, stores[s]).contains(scope),
    ensures
        stores_scopes(caller, domain, stores).contains(scope),
    decreases stores.len(),
{
    let before = stores_scopes(caller, domain, stores.drop_last());
    let last = store_scopes(caller, domain, stores.last());
    let all = stores_scopes(caller, domain, stores);
    if s < stores.len() - 1 {
        lemma_store_is_searched(caller, domain, stores.drop_last(), s, scope);
        let k = choose|k: int| 0 <= k < before.len() && before[k] == scope;
        assert(all[k] == scope);
    } else {
        let k = choose|k: int| 0 <= k < last.len() && last[k] == scope;
        assert(all[before.len() + k] == scope);
    }
}

/// Whose own memory a request looks at: the user's where one is named, the
/// conversation's, the agent's and the task's.
pub open spec fn is_own_owner(caller: CallerView, owner: OwnerView) -> bool {
    ||| owner matches OwnerView::User(id) && caller.user_id == Some(id)
    ||| owner == OwnerView::Conversation(caller.own_conversation())
    ||| owner == OwnerView::Agent(caller.agent_id)
    ||| owner == OwnerView::Task(caller.task_id)
}

/// A request looks everywhere it should: in every store it names, at all of the
/// caller's own memory in the domain asked for and at every shared domain the
/// caller may read; in semantic memory when it names no store.
pub proof fn a_request_searches_every_scope(
    caller: CallerView,
    domain: Option<Seq<char>>,
    stores: Seq<MemoryStore>,
    store: MemoryStore,
    owner: OwnerView,
    shared: Seq<char>,
)
    requires
        stores.contains(store) || (stores.len() == 0 && store == MemoryStore::Semantic),
    ensures
        is_own_owner(caller, owner) ==> stores_scopes(
            caller,
            domain,
            searched_stores(stores),
        ).contains(
            ScopeView { store, owner, visibility: MemoryVisibility::Private, domain },
        ),
        caller.allowed_shared_domains.contains(shared) ==> stores_scopes(
            caller,
            domain,
            searched_stores(stores),
        ).contains(
            ScopeView {
                store,
                owner: OwnerView::Shared,
                visibility: MemoryVisibility::Shared,
                domain: Some(shared),
            },
        ),
{
    let all = searched_stores(stores);
    let s = if stores.len() == 0 {
        0
    } else {
        choose|s: int| 0 <= s < stores.len() && stores[s] == store
    };
    assert(all[s] == store);
    let scopes = store_scopes(caller, domain, store);
    let lead: int = if caller.user_id is Some {
        1
    } else {
        0
    };
    if is_own_owner(caller, owner) {
        let own = ScopeView { store, owner, visibility: MemoryVisibility::Private, domain };
        if caller.user_id is Some {
            assert(scopes[0].owner == OwnerView::User(caller.user_id->0));
        }
        assert(scopes[lead].owner == OwnerView::Conversation(caller.own_conversation()));
        assert(scopes[lead + 1].owner == OwnerView::Agent(caller.agent_id));
        assert(scopes[lead + 2].owner == OwnerView::Task(caller.task_id));
        let k: int = if owner is User {
            0
        } else if owner is Conversation {
            lead
        } else if owner is Agent {
            lead + 1
        } else {
            lead + 2
        };
        assert(scopes[k] == own);
        assert(scopes.contains(own));
        lemma_store_is_searched(caller, domain, all, s, own);
    }
    if caller.allowed_shared_domains.contains(shared) {
        let own = ScopeView {
            store,
            owner: OwnerView::Shared,
            visibility: MemoryVisibility::Shared,
            domain: Some(shared),
        };
        let k = choose|k: int|
            0 <= k < caller.allowed_shared_domains.len() && caller.allowed_shared_domains[k]
                == shared;
        assert(scopes[lead + 3 + k] == own);
        assert(scopes.contains(own));
        lemma_store_is_searched(caller, domain, all, s, own);
    }
}

/// Within a store the caller's own memory is searched before what is shared,
/// and a user's before everything else.
pub proof fn own_memory_comes_first(caller: CallerView, domain: Option<Seq<char>>, store: MemoryStore)
    ensures
        ({
            let scopes = store_scopes(caller, domain, store);
            &&& caller.user_id matches Some(user) ==> scopes[0].owner == OwnerView::User(user)
            &&& forall|i: int, j: int|
                0 <= i < j < scopes.len() && (#[trigger] scopes[i]).owner is Shared ==> (
                #[trigger] scopes[j]).owner is Shared
            &&& forall|i: int| 0 <= i < scopes.len() ==> (#[trigger] scopes[i]).store == store
        }),
{
}

} // verus!
