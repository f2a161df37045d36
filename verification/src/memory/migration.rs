//! Versioned migration of rows written before principals.
//!
//! Every row is resolved to exactly one owner or quarantined with the reason;
//! nothing is guessed and nothing is merged.

use super::accounting::MemoryError;
use super::scope::{store_name, visibility_name, MemoryStore, MemoryVisibility};
use super::settled::{
    a_settled_namespace_is_final, is_final_namespace, is_storage_key, keyed, namespace_is_v1,
    SettledOwner, SettledOwnerView, SettledScope, SettledScopeView,
};
use crate::identity::{Identity, Principal};
use crate::json::{
    entries_view, find_text, lookup, ordered, put, text_of, Json, Value,
};
use crate::message::{Item, ItemView, MessageRole};
use crate::text::{
    chars_of, decimal, opt_view, push_decimal, same, trim, trimmed,
};
use vstd::prelude::*;

verus! {

/// The schema version this library reads and writes.
pub const CURRENT_PERSISTENCE_VERSION: u32 = 1;

/// One session row as it was stored, with what its item parses to.
pub struct LegacyRow {
    pub row_id: i64,
    pub legacy_key: String,
    /// The item, or why its JSON does not parse.
    pub item: Result<Item, String>,
}

/// What a [`LegacyRow`] stands for.
#[verifier::ext_equal]
pub struct LegacyView {
    pub row_id: i64,
    pub legacy_key: Seq<char>,
    pub item: Result<ItemView, Seq<char>>,
}

impl View for LegacyRow {
    type V = LegacyView;

    open spec fn view(&self) -> LegacyView {
        LegacyView {
            row_id: self.row_id,
            legacy_key: self.legacy_key@,
            item: match self.item {
                Ok(item) => Ok(item@),
                Err(why) => Err(why@),
            },
        }
    }
}

/// The rows of a list.
pub open spec fn legacy_view(rows: Seq<LegacyRow>) -> Seq<LegacyView> {
    rows.map_values(|r: LegacyRow| r@)
}

/// Whether a row holds a user's item.
pub open spec fn is_user_row(row: LegacyView) -> bool {
    row.item matches Ok(item) && item.message.role == MessageRole::User
}

fn item_is_user(row: &LegacyRow) -> (yes: bool)
    ensures
        yes == is_user_row(row@),
{
    match &row.item {
        Ok(item) => item.message.role == MessageRole::User,
        Err(_) => false,
    }
}

/// The parse error of the first row that has one.
pub open spec fn first_error(rows: Seq<LegacyView>, n: int) -> Option<Seq<char>>
    decreases n,
{
    if n <= 0 {
        None
    } else if first_error(rows, n - 1) is Some {
        first_error(rows, n - 1)
    } else if let Err(why) = rows[n - 1].item {
        Some(why)
    } else {
        None
    }
}

/// The first user item among the first `n` rows.
pub open spec fn first_user(rows: Seq<LegacyView>, n: int) -> Option<ItemView>
    decreases n,
{
    if n <= 0 {
        None
    } else if first_user(rows, n - 1) is Some {
        first_user(rows, n - 1)
    } else if is_user_row(rows[n - 1]) {
        Some(rows[n - 1].item->Ok_0)
    } else {
        None
    }
}

/// The agents the first `n` rows name.
pub open spec fn named_agents(rows: Seq<LegacyView>, n: int) -> Set<Seq<char>>
    decreases n,
{
    if n <= 0 {
        Set::empty()
    } else {
        let before = named_agents(rows, n - 1);
        match rows[n - 1].item {
            Ok(item) => match text_of(lookup(item.metadata, "active_agent"@)) {
                Some(agent) => before.insert(agent),
                None => before,
            },
            Err(_) => before,
        }
    }
}

/// Whether a set of names holds two different ones.
pub open spec fn disagree(names: Set<Seq<char>>) -> bool {
    exists|a: Seq<char>, b: Seq<char>|
        a != b && #[trigger] names.contains(a) && #[trigger] names.contains(b)
}

proof fn lemma_disagree(names: Set<Seq<char>>, a: Seq<char>, b: Seq<char>)
    ensures
        disagree(names) ==> disagree(names.insert(b)),
        names.contains(a) && a != b ==> disagree(names.insert(b)),
{
    if disagree(names) {
        let (x, y) = choose|x: Seq<char>, y: Seq<char>|
            x != y && #[trigger] names.contains(x) && #[trigger] names.contains(y);
        assert(names.insert(b).contains(x) && names.insert(b).contains(y));
    }
    if names.contains(a) && a != b {
        assert(names.insert(b).contains(a) && names.insert(b).contains(b));
    }
}

/// Who a turn belongs to, or why that cannot be told.
pub open spec fn turn_principal(rows: Seq<LegacyView>, default_agent: Seq<char>) -> Result<
    Identity,
    Seq<char>,
> {
    let n = rows.len() as int;
    if first_error(rows, n) is Some {
        Err("invalid session item JSON: "@ + first_error(rows, n)->0)
    } else if first_user(rows, n) is None {
        Err("turn has no user item carrying channel and sender identity"@)
    } else {
        let metadata = first_user(rows, n)->0.metadata;
        let key = rows[0].legacy_key;
        let conversation = match text_of(lookup(metadata, "conversation_id"@)) {
            Some(id) => id,
            None => key,
        };
        let agents = named_agents(rows, n);
        match text_of(lookup(metadata, "channel_id"@)) {
            None => Err("user item has no channel_id"@),
            Some(channel) => if conversation != key {
                Err("stored conversation key disagrees with item metadata"@)
            } else if disagree(agents) {
                Err("turn contains conflicting active_agent values"@)
            } else {
                Ok(
                    Identity {
                        agent: if exists|a: Seq<char>| #[trigger] agents.contains(a) {
                            choose|a: Seq<char>| #[trigger] agents.contains(a)
                        } else {
                            default_agent
                        },
                        channel,
                        conversation,
                        sender: match text_of(lookup(metadata, "sender"@)) {
                            Some(sender) => if sender.len() > 0 {
                                Some(sender)
                            } else {
                                None
                            },
                            None => None,
                        },
                    },
                )
            },
        }
    }
}

/// Whether a session row starts a group of rows under one key.
pub open spec fn starts_group(rows: Seq<LegacyView>, i: int) -> bool {
    i == 0 || rows[i - 1].legacy_key != rows[i].legacy_key
}

/// The first row of the turn a row belongs to.
pub open spec fn turn_start(rows: Seq<LegacyView>, i: int) -> int
    decreases i,
{
    if i <= 0 || starts_group(rows, i) || is_user_row(rows[i]) {
        i
    } else {
        turn_start(rows, i - 1)
    }
}

/// One past the last row of the turn that reaches to `i`.
pub open spec fn turn_end(rows: Seq<LegacyView>, i: int) -> int
    decreases rows.len() - i,
{
    if i >= rows.len() || starts_group(rows, i) || is_user_row(rows[i]) {
        i
    } else {
        turn_end(rows, i + 1)
    }
}

/// Who a session row belongs to: the principal its key already names, else
/// the one its turn determines.
pub open spec fn row_owner(rows: Seq<LegacyView>, default_agent: Seq<char>, i: int) -> Result<
    Identity,
    Seq<char>,
> {
    let key = rows[i].legacy_key;
    if super::migrate::is_storage_name(key) {
        Ok(super::migrate_child_sessions::named(key))
    } else {
        turn_principal(rows.subrange(turn_start(rows, i), turn_end(rows, i + 1)), default_agent)
    }
}

fn derive_turn_principal(
    rows: &Vec<LegacyRow>,
    from: usize,
    to: usize,
    default_agent: &str,
) -> (out: Result<Principal, String>)
    requires
        from < to <= rows@.len(),
    ensures
        out matches Ok(principal) ==> turn_principal(
            legacy_view(rows@).subrange(from as int, to as int),
            default_agent@,
        ) == Ok::<_, Seq<char>>(principal@),
        out matches Err(why) ==> turn_principal(
            legacy_view(rows@).subrange(from as int, to as int),
            default_agent@,
        ) == Err::<Identity, _>(why@),
{
    let ghost turn = legacy_view(rows@).subrange(from as int, to as int);
    let ghost n = turn.len() as int;
    let mut error: Option<&String> = None;
    let mut user: Option<&Item> = None;
    let mut agent: Option<&str> = None;
    let mut conflict = false;
    let mut i: usize = from;
    while i < to
        invariant
            from <= i <= to <= rows@.len(),
            turn == legacy_view(rows@).subrange(from as int, to as int),
            error matches Some(why) ==> first_error(turn, i - from) == Some(why@),
            error is None ==> first_error(turn, i - from) is None,
            user matches Some(item) ==> first_user(turn, i - from) == Some(item@),
            user is None ==> first_user(turn, i - from) is None,
            agent matches Some(name) ==> named_agents(turn, i - from).contains(name@),
            agent is None ==> named_agents(turn, i - from) == Set::<Seq<char>>::empty(),
            conflict ==> disagree(named_agents(turn, i - from)),
            !conflict ==> forall|a: Seq<char>| #[trigger]
                named_agents(turn, i - from).contains(a) ==> agent is Some && a == agent->0@,
        decreases to - i,
    {
        proof {
            assert(turn[i - from] == rows@[i as int]@);
        }
        let ghost before = named_agents(turn, i - from);
        match &rows[i].item {
            Err(why) => {
                if error.is_none() {
                    error = Some(why);
                }
            },
            Ok(item) => {
                if user.is_none() && item.message.role == MessageRole::User {
                    user = Some(item);
                }
                if let Some(name) = find_text(&item.metadata, "active_agent") {
                    proof {
                        assert(named_agents(turn, i - from + 1) == before.insert(name@));
                        lemma_disagree(before, agent->0@, name@);
                    }
                    match agent {
                        Some(other) => {
                            if !same(other, name) {
                                conflict = true;
                            } else {
                                assert(before.insert(name@) =~= before);
                            }
                        },
                        None => {
                            agent = Some(name);
                        },
                    }
                }
            },
        }
        i = i + 1;
    }
    if let Some(why) = error {
        let mut text = "invalid session item JSON: ".to_owned();
        text.push_str(why.as_str());
        return Err(text);
    }
    let user = match user {
        Some(item) => item,
        None => {
            return Err("turn has no user item carrying channel and sender identity".to_owned());
        },
    };
    assert(turn[0] == rows@[from as int]@);
    let key = rows[from].legacy_key.as_str();
    let channel = match find_text(&user.metadata, "channel_id") {
        Some(channel) => channel,
        None => {
            return Err("user item has no channel_id".to_owned());
        },
    };
    let conversation = match find_text(&user.metadata, "conversation_id") {
        Some(id) => id,
        None => key,
    };
    if !same(conversation, key) {
        return Err("stored conversation key disagrees with item metadata".to_owned());
    }
    if conflict {
        return Err("turn contains conflicting active_agent values".to_owned());
    }
    let ghost agents = named_agents(turn, n);
    proof {
        if agent is Some {
            assert(agents.contains(agent->0@));
            let chosen = choose|a: Seq<char>| #[trigger] agents.contains(a);
            assert(agents.contains(chosen));
        } else {
            assert forall|a: Seq<char>| !#[trigger] agents.contains(a) by {}
        }
    }
    let named = match agent {
        Some(name) => name.to_owned(),
        None => default_agent.to_owned(),
    };
    let sender = match find_text(&user.metadata, "sender") {
        Some(sender) => if sender.is_empty() {
            None
        } else {
            Some(sender.to_owned())
        },
        None => None,
    };
    let principal = Principal {
        agent: named,
        channel: channel.to_owned(),
        conversation: conversation.to_owned(),
        sender,
    };
    assert(principal@ =~= turn_principal(turn, default_agent@)->Ok_0);
    Ok(principal)
}

/// What becomes of one session row.
pub struct SessionVerdict {
    pub target: Option<Principal>,
    /// Why there is no target.
    pub reason: Option<String>,
}

/// Whether a verdict is the one owed.
pub open spec fn is_verdict(verdict: SessionVerdict, owner: Result<Identity, Seq<char>>) -> bool {
    match owner {
        Ok(id) => verdict.target matches Some(principal) && principal@ == id && verdict.reason
            is None,
        Err(why) => verdict.reason matches Some(text) && text@ == why && verdict.target is None,
    }
}

proof fn lemma_turn_start(rows: Seq<LegacyView>, start: int, i: int)
    requires
        0 <= start <= i < rows.len(),
        turn_start(rows, start) == start,
        forall|k: int|
            start < k <= i ==> !starts_group(rows, k) && !is_user_row(#[trigger] rows[k]),
    ensures
        turn_start(rows, i) == start,
    decreases i - start,
{
    if start < i {
        lemma_turn_start(rows, start, i - 1);
        assert(!starts_group(rows, i) && !is_user_row(rows[i]));
    }
}

proof fn lemma_turn_end(rows: Seq<LegacyView>, i: int, end: int)
    requires
        0 <= i <= end <= rows.len(),
        end == rows.len() || starts_group(rows, end) || is_user_row(rows[end]),
        forall|k: int| i <= k < end ==> !starts_group(rows, k) && !is_user_row(#[trigger] rows[k]),
    ensures
        turn_end(rows, i) == end,
    decreases end - i,
{
    if i < end {
        assert(!starts_group(rows, i) && !is_user_row(rows[i]));
        lemma_turn_end(rows, i + 1, end);
    }
}

proof fn lemma_same_key(rows: Seq<LegacyView>, start: int, i: int)
    requires
        0 <= start <= i < rows.len(),
        forall|k: int|
            start < k <= i ==> !starts_group(rows, k) && !is_user_row(#[trigger] rows[k]),
    ensures
        rows[i].legacy_key == rows[start].legacy_key,
    decreases i - start,
{
    if start < i {
        lemma_same_key(rows, start, i - 1);
        assert(!starts_group(rows, i) && !is_user_row(rows[i]));
    }
}

/// Whether `start..end` is one whole turn: a row that starts a turn, the rows
/// that follow it in its group, and no further one.
spec fn is_turn(rows: Seq<LegacyView>, start: int, end: int) -> bool {
    &&& 0 <= start < end <= rows.len()
    &&& end == rows.len() || starts_group(rows, end) || is_user_row(rows[end])
    &&& forall|k: int|
        start < k < end ==> !starts_group(rows, k) && !is_user_row(#[trigger] rows[k])
}

fn find_turn_end(rows: &Vec<LegacyRow>, start: usize) -> (end: usize)
    requires
        start < rows@.len(),
    ensures
        is_turn(legacy_view(rows@), start as int, end as int),
{
    let ghost all = legacy_view(rows@);
    let len: usize = rows.len();
    assert(start < len);
    let mut end: usize = start + 1;
    while end < rows.len()
        invariant
            start < end <= rows@.len(),
            all == legacy_view(rows@),
            forall|k: int|
                start < k < end ==> !starts_group(all, k) && !is_user_row(#[trigger] all[k]),
        decreases rows@.len() - end,
    {
        assert(all[end as int] == rows@[end as int]@);
        assert(all[end - 1] == rows@[end - 1]@);
        if !same(rows[end].legacy_key.as_str(), rows[end - 1].legacy_key.as_str())
            || item_is_user(&rows[end]) {
            return end;
        }
        end = end + 1;
    }
    end
}

fn decide_turn(rows: &Vec<LegacyRow>, start: usize, end: usize, default_agent: &str) -> (out: Result<
    Principal,
    String,
>)
    requires
        is_turn(legacy_view(rows@), start as int, end as int),
        turn_start(legacy_view(rows@), start as int) == start,
    ensures
        out matches Ok(principal) ==> row_owner(
            legacy_view(rows@),
            default_agent@,
            start as int,
        ) == Ok::<_, Seq<char>>(principal@),
        out matches Err(why) ==> row_owner(
            legacy_view(rows@),
            default_agent@,
            start as int,
        ) == Err::<Identity, _>(why@),
{
    let ghost all = legacy_view(rows@);
    proof {
        assert(all[start as int] == rows@[start as int]@);
        lemma_turn_end(all, start + 1, end as int);
    }
    match Principal::from_storage_name(rows[start].legacy_key.as_str()) {
        Some(principal) => {
            proof {
                crate::identity::storage_name_is_injective(
                    principal@,
                    super::migrate_child_sessions::named(rows@[start as int].legacy_key@),
                );
            }
            Ok(principal)
        },
        None => derive_turn_principal(rows, start, end, default_agent),
    }
}

proof fn lemma_turn_owner(rows: Seq<LegacyView>, default_agent: Seq<char>, start: int, end: int, k: int)
    requires
        is_turn(rows, start, end),
        turn_start(rows, start) == start,
        start <= k < end,
    ensures
        row_owner(rows, default_agent, k) == row_owner(rows, default_agent, start),
{
    lemma_turn_start(rows, start, k);
    lemma_turn_end(rows, k + 1, end);
    lemma_turn_end(rows, start + 1, end);
    lemma_same_key(rows, start, k);
}

/// Decides, row by row, who each session row belongs to. Rows are in the order
/// they were written; rows under one key that follow each other form a group,
/// and each user item in a group starts a turn.
pub fn analyze_sessions(rows: &Vec<LegacyRow>, default_agent: &str) -> (out: Vec<SessionVerdict>)
    ensures
        out@.len() == rows@.len(),
        forall|i: int|
            0 <= i < rows@.len() ==> is_verdict(
                #[trigger] out@[i],
                row_owner(legacy_view(rows@), default_agent@, i),
            ),
{
    let ghost all = legacy_view(rows@);
    let mut out: Vec<SessionVerdict> = Vec::new();
    let mut start: usize = 0;
    while start < rows.len()
        invariant
            start <= rows@.len(),
            all == legacy_view(rows@),
            out@.len() == start,
            start < rows@.len() ==> turn_start(all, start as int) == start,
            forall|i: int|
                0 <= i < start ==> is_verdict(
                    #[trigger] out@[i],
                    row_owner(all, default_agent@, i),
                ),
        decreases rows@.len() - start,
    {
        let end: usize = find_turn_end(rows, start);
        let derived = decide_turn(rows, start, end, default_agent);
        let mut k: usize = start;
        while k < end
            invariant
                start <= k <= end <= rows@.len(),
                all == legacy_view(rows@),
                out@.len() == k,
                turn_start(all, start as int) == start,
                is_turn(all, start as int, end as int),
                derived matches Ok(principal) ==> row_owner(all, default_agent@, start as int)
                    == Ok::<_, Seq<char>>(principal@),
                derived matches Err(why) ==> row_owner(all, default_agent@, start as int)
                    == Err::<Identity, _>(why@),
                forall|i: int|
                    0 <= i < k ==> is_verdict(
                        #[trigger] out@[i],
                        row_owner(all, default_agent@, i),
                    ),
            decreases end - k,
        {
            proof {
                lemma_turn_owner(all, default_agent@, start as int, end as int, k as int);
            }
            match &derived {
                Ok(principal) => {
                    out.push(SessionVerdict { target: Some(principal.copy()), reason: None });
                },
                Err(why) => {
                    out.push(SessionVerdict { target: None, reason: Some(why.clone()) });
                },
            }
            k = k + 1;
        }
        start = end;
    }
    out
}

/// The store a name stands for.
pub open spec fn store_named(name: Seq<char>) -> Option<MemoryStore> {
    if name == "working"@ {
        Some(MemoryStore::Working)
    } else if name == "episodic"@ {
        Some(MemoryStore::Episodic)
    } else if name == "semantic"@ {
        Some(MemoryStore::Semantic)
    } else if name == "procedural"@ {
        Some(MemoryStore::Procedural)
    } else if name == "audit"@ {
        Some(MemoryStore::Audit)
    } else {
        None
    }
}

/// The visibility a name stands for.
pub open spec fn visibility_named(name: Seq<char>) -> Option<MemoryVisibility> {
    if name == "private"@ {
        Some(MemoryVisibility::Private)
    } else if name == "shared"@ {
        Some(MemoryVisibility::Shared)
    } else if name == "public"@ {
        Some(MemoryVisibility::Public)
    } else {
        None
    }
}

/// Reads a store's name.
pub fn parse_store(value: &str) -> (out: Result<MemoryStore, String>)
    ensures
        out matches Ok(store) ==> store_named(value@) == Some(store),
        out matches Err(why) ==> store_named(value@) is None && why@ == "unknown memory store '"@
            + value@ + "'"@,
{
    if same(value, "working") {
        Ok(MemoryStore::Working)
    } else if same(value, "episodic") {
        Ok(MemoryStore::Episodic)
    } else if same(value, "semantic") {
        Ok(MemoryStore::Semantic)
    } else if same(value, "procedural") {
        Ok(MemoryStore::Procedural)
    } else if same(value, "audit") {
        Ok(MemoryStore::Audit)
    } else {
        let mut why = "unknown memory store '".to_owned();
        why.push_str(value);
        why.push_str("'");
        Err(why)
    }
}

/// Reads a visibility's name.
pub fn parse_visibility(value: &str) -> (out: Result<MemoryVisibility, String>)
    ensures
        out matches Ok(visibility) ==> visibility_named(value@) == Some(visibility),
        out matches Err(why) ==> visibility_named(value@) is None && why@
            == "unknown memory visibility '"@ + value@ + "'"@,
{
    if same(value, "private") {
        Ok(MemoryVisibility::Private)
    } else if same(value, "shared") {
        Ok(MemoryVisibility::Shared)
    } else if same(value, "public") {
        Ok(MemoryVisibility::Public)
    } else {
        let mut why = "unknown memory visibility '".to_owned();
        why.push_str(value);
        why.push_str("'");
        Err(why)
    }
}

/// A text with every slash as an underscore.
pub open spec fn underscored(s: Seq<char>) -> Seq<char> {
    s.map_values(
        |c: char|
            if c == '/' {
                '_'
            } else {
                c
            },
    )
}

/// Whether a participant is who a legacy owner id stood for.
pub open spec fn sender_matches(id: Identity, legacy: Seq<char>) -> bool {
    match id.sender {
        Some(sender) => underscored(trimmed(sender)) == legacy,
        None => legacy.len() == 0,
    }
}

fn principal_sender_matches(principal: &Principal, legacy: &str) -> (yes: bool)
    ensures
        yes == sender_matches(principal@, legacy@),
{
    match &principal.sender {
        Some(sender) => {
            let name = trim(sender.as_str());
            let chars = chars_of(name.as_str());
            let mut out = String::new();
            let mut i: usize = 0;
            while i < chars.len()
                invariant
                    i <= chars@.len(),
                    out@ == underscored(chars@.take(i as int)),
                decreases chars@.len() - i,
            {
                let ghost before = out@;
                if chars[i] == '/' {
                    out.push('_');
                } else {
                    out.push(chars[i]);
                }
                assert(out@ =~= underscored(chars@.take(i + 1)));
                i = i + 1;
            }
            assert(chars@.take(chars@.len() as int) =~= chars@);
            same(out.as_str(), legacy)
        },
        None => legacy.is_empty(),
    }
}

/// The distinct participants of a conversation among the first `n`, in the
/// order they first appear; with a legacy owner, only those it stood for.
pub open spec fn matching(
    principals: Seq<Identity>,
    conversation: Seq<char>,
    legacy: Option<Seq<char>>,
    n: int,
) -> Seq<Identity>
    decreases n,
{
    if n <= 0 {
        Seq::empty()
    } else {
        let before = matching(principals, conversation, legacy, n - 1);
        let id = principals[n - 1];
        if id.conversation == conversation && (legacy matches Some(owner) ==> sender_matches(
            id,
            owner,
        )) && !before.contains(id) {
            before.push(id)
        } else {
            before
        }
    }
}

/// The one participant of a list, or why there is not one.
pub open spec fn only_one(ids: Seq<Identity>, known: bool) -> Result<Identity, Seq<char>> {
    if !known {
        Err("no session principal matches memory"@)
    } else if ids.len() != 1 {
        Err("memory maps to "@ + decimal(ids.len()) + " session principals"@)
    } else {
        Ok(ids[0])
    }
}

/// What was stored of a memory row besides its content.
pub struct MemoryFacts {
    pub namespace: String,
    pub store: Option<String>,
    pub owner_kind: Option<String>,
    pub owner_id: Option<String>,
    pub visibility: Option<String>,
    pub domain: Option<String>,
    pub source_agent: Option<String>,
    pub source_task: Option<String>,
    pub metadata: Vec<(String, Json)>,
    /// The owner its metadata spells out, when that decodes.
    pub recorded_owner: Option<SettledOwner>,
}

/// The legacy owner id of a row.
pub open spec fn legacy_owner(facts: MemoryFacts) -> Seq<char> {
    match facts.owner_id {
        Some(id) => id@,
        None => Seq::empty(),
    }
}

/// The conversation a row is about.
pub open spec fn row_conversation(facts: MemoryFacts) -> Seq<char> {
    match text_of(lookup(entries_view(facts.metadata@), "conversation_id"@)) {
        Some(id) => id,
        None => legacy_owner(facts),
    }
}

/// The owner of a memory row, or why it cannot be told.
pub open spec fn resolved_owner(facts: MemoryFacts, kind: Seq<char>, principals: Seq<Identity>) -> Result<
    SettledOwnerView,
    Seq<char>,
> {
    let n = principals.len() as int;
    let conversation = row_conversation(facts);
    let known = matching(principals, conversation, None, n);
    if kind == "principal"@ {
        match facts.recorded_owner {
            Some(owner) => Ok(owner@),
            None => if is_storage_key(legacy_owner(facts)) {
                Ok(SettledOwnerView::Principal(keyed(legacy_owner(facts))))
            } else {
                Err("principal memory has no decodable owner"@)
            },
        }
    } else if kind == "conversation"@ {
        match only_one(known, known.len() > 0) {
            Ok(id) => Ok(SettledOwnerView::Principal(id)),
            Err(why) => Err(why),
        }
    } else if kind == "user"@ {
        match only_one(matching(principals, conversation, Some(legacy_owner(facts)), n), true) {
            Ok(id) => Ok(SettledOwnerView::Principal(id)),
            Err(why) => Err(why),
        }
    } else if kind == "agent"@ {
        match facts.source_agent {
            Some(agent) => Ok(SettledOwnerView::Agent(agent@)),
            None => Err("agent memory has no source_agent_id"@),
        }
    } else if kind == "task"@ {
        match facts.source_task {
            Some(task) => Ok(SettledOwnerView::Task(task@)),
            None => Err("task memory has no source_task_id"@),
        }
    } else if kind == "shared"@ {
        Ok(SettledOwnerView::Shared)
    } else {
        Err("unknown memory owner_kind '"@ + kind + "'"@)
    }
}

/// The domain of a memory row, or why it cannot be told.
pub open spec fn resolved_domain(domain: Option<Seq<char>>) -> Result<Option<Seq<char>>, Seq<char>> {
    match domain {
        None => Ok(None),
        Some(name) => if name.len() == 0 || name == "general"@ {
            Ok(None)
        } else if name.contains('_') {
            Err("legacy domain contains '_' and may have collided with a '/' component"@)
        } else {
            Ok(Some(name))
        },
    }
}

/// The scope of a memory row, or why it cannot be told; the first reason, in
/// the order store, visibility, owner, domain.
pub open spec fn resolved_scope(facts: MemoryFacts, principals: Seq<Identity>) -> Result<
    SettledScopeView,
    Seq<char>,
> {
    match facts.store {
        None => Err("memory row has no store"@),
        Some(store) => match store_named(store@) {
            None => Err("unknown memory store '"@ + store@ + "'"@),
            Some(store) => match facts.visibility {
                None => Err("memory row has no visibility"@),
                Some(visibility) => match visibility_named(visibility@) {
                    None => Err("unknown memory visibility '"@ + visibility@ + "'"@),
                    Some(visibility) => match facts.owner_kind {
                        None => Err("memory row has no owner_kind"@),
                        Some(kind) => match resolved_owner(facts, kind@, principals) {
                            Err(why) => Err(why),
                            Ok(owner) => match resolved_domain(opt_view(facts.domain)) {
                                Err(why) => Err(why),
                                Ok(domain) => Ok(SettledScopeView { store, owner, visibility, domain }),
                            },
                        },
                    },
                },
            },
        },
    }
}

/// The principals of a list.
pub open spec fn identities(principals: Seq<Principal>) -> Seq<Identity> {
    principals.map_values(|p: Principal| p@)
}

fn find_matching(principals: &Vec<Principal>, conversation: &str, legacy: Option<&str>) -> (out: Vec<
    Principal,
>)
    ensures
        identities(out@) == matching(
            identities(principals@),
            conversation@,
            (match legacy {
                Some(owner) => Some(owner@),
                None => None,
            }),
            principals@.len() as int,
        ),
{
    let ghost all = identities(principals@);
    let ghost owner = match legacy {
        Some(owner) => Some(owner@),
        None => None,
    };
    let mut out: Vec<Principal> = Vec::new();
    let mut i: usize = 0;
    assert(identities(out@) =~= Seq::empty());
    while i < principals.len()
        invariant
            i <= principals@.len(),
            all == identities(principals@),
            owner == (match legacy {
                Some(owner) => Some(owner@),
                None => None,
            }),
            identities(out@) == matching(all, conversation@, owner, i as int),
        decreases principals@.len() - i,
    {
        assert(all[i as int] == principals@[i as int]@);
        let candidate = &principals[i];
        let fits = same(candidate.conversation.as_str(), conversation) && match legacy {
            Some(name) => principal_sender_matches(candidate, name),
            None => true,
        };
        let mut seen = false;
        let mut k: usize = 0;
        while k < out.len()
            invariant
                k <= out@.len(),
                seen == exists|j: int| 0 <= j < k && (#[trigger] out@[j])@ == candidate@,
            decreases out@.len() - k,
        {
            if out[k].same_as(candidate) {
                seen = true;
            }
            k = k + 1;
        }
        let ghost before = identities(out@);
        proof {
            if seen {
                let j = choose|j: int| 0 <= j < out@.len() && (#[trigger] out@[j])@ == candidate@;
                assert(before[j] == candidate@);
            } else if before.contains(candidate@) {
                let j = choose|j: int| 0 <= j < before.len() && before[j] == candidate@;
                assert(out@[j]@ == candidate@);
            }
        }
        if fits && !seen {
            out.push(candidate.copy());
            assert(identities(out@) =~= before.push(candidate@));
        }
        i = i + 1;
    }
    out
}

fn unique_principal(candidates: Vec<Principal>, known: bool) -> (out: Result<Principal, String>)
    ensures
        out matches Ok(principal) ==> only_one(identities(candidates@), known) == Ok::<
            _,
            Seq<char>,
        >(principal@),
        out matches Err(why) ==> only_one(identities(candidates@), known) == Err::<Identity, _>(
            why@,
        ),
{
    if !known {
        return Err("no session principal matches memory".to_owned());
    }
    if candidates.len() != 1 {
        let mut why = "memory maps to ".to_owned();
        push_decimal(&mut why, candidates.len() as u64);
        why.push_str(" session principals");
        return Err(why);
    }
    assert(identities(candidates@)[0] == candidates@[0]@);
    Ok(candidates[0].copy())
}

fn resolve_owner(facts: &MemoryFacts, kind: &str, principals: &Vec<Principal>) -> (out: Result<
    SettledOwner,
    String,
>)
    ensures
        out matches Ok(owner) ==> resolved_owner(*facts, kind@, identities(principals@)) == Ok::<
            _,
            Seq<char>,
        >(owner@),
        out matches Err(why) ==> resolved_owner(*facts, kind@, identities(principals@)) == Err::<
            SettledOwnerView,
            _,
        >(why@),
{
    proof {
        reveal_strlit("");
        assert(""@ =~= Seq::empty());
    }
    let legacy = match &facts.owner_id {
        Some(id) => id.as_str(),
        None => "",
    };
    let conversation = match find_text(&facts.metadata, "conversation_id") {
        Some(id) => id,
        None => legacy,
    };
    if same(kind, "principal") {
        if let Some(owner) = &facts.recorded_owner {
            return Ok(owner.copy());
        }
        match Principal::from_storage_key(legacy) {
            Some(principal) => {
                proof {
                    crate::identity::storage_key_is_injective(principal@, keyed(legacy@));
                }
                Ok(SettledOwner::Principal(principal))
            },
            None => Err("principal memory has no decodable owner".to_owned()),
        }
    } else if same(kind, "conversation") {
        let candidates = find_matching(principals, conversation, None);
        assert(identities(candidates@).len() == candidates@.len());
        let known = candidates.len() > 0;
        match unique_principal(candidates, known) {
            Ok(principal) => Ok(SettledOwner::Principal(principal)),
            Err(why) => Err(why),
        }
    } else if same(kind, "user") {
        let candidates = find_matching(principals, conversation, Some(legacy));
        match unique_principal(candidates, true) {
            Ok(principal) => Ok(SettledOwner::Principal(principal)),
            Err(why) => Err(why),
        }
    } else if same(kind, "agent") {
        match &facts.source_agent {
            Some(agent) => Ok(SettledOwner::Agent(agent.clone())),
            None => Err("agent memory has no source_agent_id".to_owned()),
        }
    } else if same(kind, "task") {
        match &facts.source_task {
            Some(task) => Ok(SettledOwner::Task(task.clone())),
            None => Err("task memory has no source_task_id".to_owned()),
        }
    } else if same(kind, "shared") {
        Ok(SettledOwner::Shared)
    } else {
        let mut why = "unknown memory owner_kind '".to_owned();
        why.push_str(kind);
        why.push_str("'");
        Err(why)
    }
}

fn resolve_domain(domain: &Option<String>) -> (out: Result<Option<String>, String>)
    ensures
        out matches Ok(name) ==> resolved_domain(opt_view(*domain)) == Ok::<_, Seq<char>>(
            opt_view(name),
        ),
        out matches Err(why) ==> resolved_domain(opt_view(*domain)) == Err::<
            Option<Seq<char>>,
            _,
        >(why@),
{
    let name = match domain {
        Some(name) => name,
        None => {
            return Ok(None);
        },
    };
    if name.as_str().is_empty() || same(name.as_str(), "general") {
        return Ok(None);
    }
    let chars = chars_of(name.as_str());
    let mut found = false;
    let mut i: usize = 0;
    while i < chars.len()
        invariant
            i <= chars@.len(),
            found == exists|k: int| 0 <= k < i && #[trigger] chars@[k] == '_',
        decreases chars@.len() - i,
    {
        if chars[i] == '_' {
            found = true;
        }
        i = i + 1;
    }
    assert(found == name@.contains('_'));
    if found {
        return Err(
            "legacy domain contains '_' and may have collided with a '/' component".to_owned(),
        );
    }
    Ok(Some(name.clone()))
}

/// Resolves the scope of a memory row from what was stored of it and the
/// principals the session log names.
pub fn resolve_memory_scope(facts: &MemoryFacts, principals: &Vec<Principal>) -> (out: Result<
    SettledScope,
    String,
>)
    ensures
        out matches Ok(scope) ==> resolved_scope(*facts, identities(principals@)) == Ok::<
            _,
            Seq<char>,
        >(scope@),
        out matches Err(why) ==> resolved_scope(*facts, identities(principals@)) == Err::<
            SettledScopeView,
            _,
        >(why@),
{
    let store = match &facts.store {
        Some(name) => match parse_store(name.as_str()) {
            Ok(store) => store,
            Err(why) => {
                return Err(why);
            },
        },
        None => {
            return Err("memory row has no store".to_owned());
        },
    };
    let visibility = match &facts.visibility {
        Some(name) => match parse_visibility(name.as_str()) {
            Ok(visibility) => visibility,
            Err(why) => {
                return Err(why);
            },
        },
        None => {
            return Err("memory row has no visibility".to_owned());
        },
    };
    let owner = match &facts.owner_kind {
        Some(kind) => match resolve_owner(facts, kind.as_str(), principals) {
            Ok(owner) => owner,
            Err(why) => {
                return Err(why);
            },
        },
        None => {
            return Err("memory row has no owner_kind".to_owned());
        },
    };
    match resolve_domain(&facts.domain) {
        Ok(domain) => Ok(SettledScope { store, owner, visibility, domain }),
        Err(why) => Err(why),
    }
}

/// What becomes of one memory row.
pub enum MemoryVerdict {
    /// Already in its final form.
    Keep,
    /// Set aside; the text says why.
    Quarantine(String),
    /// Moved to this scope.
    Move(SettledScope),
}

/// Whether a verdict is the one owed for a row.
pub open spec fn is_memory_verdict(
    verdict: MemoryVerdict,
    facts: MemoryFacts,
    principals: Seq<Identity>,
) -> bool {
    if is_final_namespace(facts.namespace@, opt_view(facts.owner_kind), opt_view(facts.owner_id)) {
        verdict is Keep
    } else {
        match resolved_scope(facts, principals) {
            Ok(scope) => verdict matches MemoryVerdict::Move(target) && target@ == scope,
            Err(why) => verdict matches MemoryVerdict::Quarantine(text) && text@ == why,
        }
    }
}

/// Decides, row by row, what becomes of memory rows.
pub fn analyze_memories(rows: &Vec<MemoryFacts>, principals: &Vec<Principal>) -> (out: Vec<
    MemoryVerdict,
>)
    ensures
        out@.len() == rows@.len(),
        forall|i: int|
            0 <= i < rows@.len() ==> is_memory_verdict(
                #[trigger] out@[i],
                rows@[i],
                identities(principals@),
            ),
{
    let mut out: Vec<MemoryVerdict> = Vec::new();
    let mut i: usize = 0;
    while i < rows.len()
        invariant
            i <= rows@.len(),
            out@.len() == i,
            forall|k: int|
                0 <= k < i ==> is_memory_verdict(
                    #[trigger] out@[k],
                    rows@[k],
                    identities(principals@),
                ),
        decreases rows@.len() - i,
    {
        let facts = &rows[i];
        let verdict = if namespace_is_v1(
            facts.namespace.as_str(),
            &facts.owner_kind,
            &facts.owner_id,
        ) {
            MemoryVerdict::Keep
        } else {
            match resolve_memory_scope(facts, principals) {
                Ok(scope) => MemoryVerdict::Move(scope),
                Err(why) => MemoryVerdict::Quarantine(why),
            }
        };
        out.push(verdict);
        i = i + 1;
    }
    out
}

/// The principals the session rows were resolved to, in row order.
pub open spec fn resolved_principals(verdicts: Seq<SessionVerdict>, n: int) -> Seq<Identity>
    decreases n,
{
    if n <= 0 {
        Seq::empty()
    } else {
        match verdicts[n - 1].target {
            Some(principal) => resolved_principals(verdicts, n - 1).push(principal@),
            None => resolved_principals(verdicts, n - 1),
        }
    }
}

/// Collects the principals the session rows were resolved to.
pub fn principals_of(verdicts: &Vec<SessionVerdict>) -> (out: Vec<Principal>)
    ensures
        identities(out@) == resolved_principals(verdicts@, verdicts@.len() as int),
{
    let mut out: Vec<Principal> = Vec::new();
    let mut i: usize = 0;
    assert(identities(out@) =~= Seq::empty());
    while i < verdicts.len()
        invariant
            i <= verdicts@.len(),
            identities(out@) == resolved_principals(verdicts@, i as int),
        decreases verdicts@.len() - i,
    {
        if let Some(principal) = &verdicts[i].target {
            let ghost before = identities(out@);
            out.push(principal.copy());
            assert(identities(out@) =~= before.push(principal@));
        }
        i = i + 1;
    }
    out
}

/// The metadata of a moved row: its owner and domain as they are now, and
/// everything else as it was. `owner` is the owner spelled out.
fn migrated_metadata(metadata: &mut Vec<(String, Json)>, scope: &SettledScope, owner: Json)
    requires
        ordered(entries_view(old(metadata)@)),
    ensures
        ordered(entries_view(final(metadata)@)),
        lookup(entries_view(final(metadata)@), "owner_kind"@) == Some(
            Value::Text(scope@.owner.kind()),
        ),
        lookup(entries_view(final(metadata)@), "owner_id"@) == Some(
            Value::Text(scope@.owner.metadata_id()),
        ),
        lookup(entries_view(final(metadata)@), "owner"@) == Some(owner@),
        lookup(entries_view(final(metadata)@), "domain"@) == Some(
            Value::Text(scope@.domain_field()),
        ),
        forall|key: Seq<char>|
            key != "owner_kind"@ && key != "owner_id"@ && key != "owner"@ && key != "domain"@
                ==> lookup(entries_view(final(metadata)@), key) == #[trigger] lookup(
                entries_view(old(metadata)@),
                key,
            ),
{
    proof {
        reveal_strlit("owner_kind");
        reveal_strlit("owner_id");
        reveal_strlit("owner");
        reveal_strlit("domain");
        assert("owner_kind"@.len() == 10 && "owner_id"@.len() == 8 && "owner"@.len() == 5
            && "domain"@.len() == 6);
    }
    let kind = Json::text(scope.owner.kind());
    put(metadata, "owner_kind", kind);
    let id = Json::text(scope.owner.metadata_id().as_str());
    put(metadata, "owner_id", id);
    put(metadata, "owner", owner);
    let domain = Json::text(scope.domain_name().as_str());
    put(metadata, "domain", domain);
}

/// What the columns of a moved memory row become.
pub struct MovedRow {
    pub namespace: String,
    pub metadata: Vec<(String, Json)>,
    pub owner_kind: String,
    pub owner_id: String,
    pub domain: String,
}

/// What becomes of a memory row.
pub enum MemoryChange {
    /// It stays as it is.
    Keep,
    /// It moves to where it belongs.
    Move(MovedRow),
    /// It is set aside, and leaves the table.
    Quarantine(String),
}

/// Whether a row's columns are those of a scope, with its metadata brought up
/// to date.
pub open spec fn is_moved_to(
    row: MovedRow,
    scope: SettledScopeView,
    metadata: Seq<(Seq<char>, Value)>,
    owner: Value,
) -> bool {
    &&& row.namespace@ == scope.namespace()
    &&& row.owner_kind@ == scope.owner.kind()
    &&& row.owner_id@ == scope.owner.metadata_id()
    &&& row.domain@ == scope.domain_field()
    &&& is_final_namespace(row.namespace@, Some(row.owner_kind@), Some(row.owner_id@))
    &&& ordered(entries_view(row.metadata@))
    &&& forall|key: Seq<char>| #[trigger]
        lookup(entries_view(row.metadata@), key) == if key == "owner_kind"@ {
            Some(Value::Text(scope.owner.kind()))
        } else if key == "owner_id"@ {
            Some(Value::Text(scope.owner.metadata_id()))
        } else if key == "owner"@ {
            Some(owner)
        } else if key == "domain"@ {
            Some(Value::Text(scope.domain_field()))
        } else {
            lookup(metadata, key)
        }
}

/// Decides what becomes of a memory row. Its columns, its namespace and its
/// metadata change together, or nothing does.
pub fn migrate_memory_row(verdict: &MemoryVerdict, metadata: Vec<(String, Json)>, owner: Json) -> (out:
    MemoryChange)
    requires
        ordered(entries_view(metadata@)),
    ensures
        match verdict {
            MemoryVerdict::Keep => out is Keep,
            MemoryVerdict::Move(scope) => out matches MemoryChange::Move(row) && is_moved_to(
                row,
                scope@,
                entries_view(metadata@),
                owner@,
            ),
            MemoryVerdict::Quarantine(reason) => out matches MemoryChange::Quarantine(why) && why@
                == reason@,
        },
{
    match verdict {
        MemoryVerdict::Keep => MemoryChange::Keep,
        MemoryVerdict::Quarantine(reason) => MemoryChange::Quarantine(reason.clone()),
        MemoryVerdict::Move(scope) => {
            let ghost before = entries_view(metadata@);
            let ghost owned = owner@;
            let mut metadata = metadata;
            migrated_metadata(&mut metadata, scope, owner);
            let row = MovedRow {
                namespace: scope.namespace(),
                metadata,
                owner_kind: scope.owner.kind().to_owned(),
                owner_id: scope.owner.metadata_id(),
                domain: scope.domain_name(),
            };
            proof {
                a_settled_namespace_is_final(scope@);
                assert(is_moved_to(row, scope@, before, owned));
            }
            MemoryChange::Move(row)
        },
    }
}

/// A moved row is not moved again: what its columns now say is kept as it is.
pub proof fn a_moved_row_is_kept(
    row: MovedRow,
    scope: SettledScopeView,
    metadata: Seq<(Seq<char>, Value)>,
    owner: Value,
    facts: MemoryFacts,
    principals: Seq<Identity>,
    verdict: MemoryVerdict,
)
    requires
        is_moved_to(row, scope, metadata, owner),
        facts.namespace@ == row.namespace@,
        opt_view(facts.owner_kind) == Some(row.owner_kind@),
        opt_view(facts.owner_id) == Some(row.owner_id@),
        is_memory_verdict(verdict, facts, principals),
    ensures
        verdict is Keep,
{
}

/// Where a rebuilt session row goes.
pub struct RebuiltRow {
    pub key: String,
    pub ordinal: u64,
}

/// How many of the first `n` rows were resolved to a principal.
pub open spec fn earlier_rows(verdicts: Seq<SessionVerdict>, id: Identity, n: int) -> nat
    decreases n,
{
    if n <= 0 {
        0
    } else {
        earlier_rows(verdicts, id, n - 1) + if verdicts[n - 1].target matches Some(principal)
            && principal@ == id {
            1nat
        } else {
            0nat
        }
    }
}

/// Gives every resolved row its key and the next ordinal of that key, in row
/// order; unresolved rows get none.
pub fn rebuild_sessions(verdicts: &Vec<SessionVerdict>) -> (out: Vec<Option<RebuiltRow>>)
    ensures
        out@.len() == verdicts@.len(),
        forall|i: int|
            0 <= i < out@.len() ==> match (#[trigger] out@[i], verdicts@[i].target) {
                (Some(row), Some(principal)) => row.key@ == principal@.name() && row.ordinal
                    == earlier_rows(verdicts@, principal@, i),
                (None, None) => true,
                _ => false,
            },
{
    let mut out: Vec<Option<RebuiltRow>> = Vec::new();
    let mut i: usize = 0;
    while i < verdicts.len()
        invariant
            i <= verdicts@.len(),
            out@.len() == i,
            forall|k: int|
                0 <= k < i ==> match (#[trigger] out@[k], verdicts@[k].target) {
                    (Some(row), Some(principal)) => row.key@ == principal@.name() && row.ordinal
                        == earlier_rows(verdicts@, principal@, k),
                    (None, None) => true,
                    _ => false,
                },
        decreases verdicts@.len() - i,
    {
        match &verdicts[i].target {
            None => {
                out.push(None);
            },
            Some(principal) => {
                let mut ordinal: u64 = 0;
                let mut k: usize = 0;
                while k < i
                    invariant
                        k <= i < verdicts@.len(),
                        ordinal <= k,
                        ordinal == earlier_rows(verdicts@, principal@, k as int),
                    decreases i - k,
                {
                    if let Some(other) = &verdicts[k].target {
                        if other.same_as(principal) {
                            ordinal = ordinal + 1;
                        }
                    }
                    k = k + 1;
                }
                out.push(Some(RebuiltRow { key: principal.storage_name(), ordinal }));
            },
        }
        i = i + 1;
    }
    out
}

/// Two rebuilt rows never take the same place: one key and one ordinal name
/// one row.
pub proof fn rebuilt_places_are_distinct(verdicts: Seq<SessionVerdict>, id: Identity, i: int, j: int)
    requires
        0 <= i < j < verdicts.len(),
        verdicts[i].target matches Some(principal) && principal@ == id,
        verdicts[j].target matches Some(principal) && principal@ == id,
    ensures
        earlier_rows(verdicts, id, i) < earlier_rows(verdicts, id, j),
    decreases j - i,
{
    if i + 1 < j {
        lemma_earlier_grows(verdicts, id, i + 1, j);
    }
}

proof fn lemma_earlier_grows(verdicts: Seq<SessionVerdict>, id: Identity, i: int, j: int)
    requires
        0 <= i <= j,
    ensures
        earlier_rows(verdicts, id, i) <= earlier_rows(verdicts, id, j),
    decreases j - i,
{
    if i < j {
        lemma_earlier_grows(verdicts, id, i, j - 1);
    }
}

/// What a database's version asks for.
#[derive(Clone, Copy, Debug, PartialEq, Eq, Structural)]
pub enum VersionCheck {
    /// Written by a newer build; nothing may be touched.
    Future,
    /// Nothing to migrate.
    Current,
    /// To be migrated.
    Legacy,
}

/// Classifies a database by its version.
pub fn check_version(version: u32) -> (check: VersionCheck)
    ensures
        check == if version > CURRENT_PERSISTENCE_VERSION {
            VersionCheck::Future
        } else if version == CURRENT_PERSISTENCE_VERSION {
            VersionCheck::Current
        } else {
            VersionCheck::Legacy
        },
{
    if version > CURRENT_PERSISTENCE_VERSION {
        VersionCheck::Future
    } else if version == CURRENT_PERSISTENCE_VERSION {
        VersionCheck::Current
    } else {
        VersionCheck::Legacy
    }
}

/// Refuses a database this build cannot work on, saying what to do about it.
pub fn require_current_schema(version: u32) -> (out: Result<(), MemoryError>)
    ensures
        out is Ok <==> version == CURRENT_PERSISTENCE_VERSION,
        out matches Err(MemoryError::Backend(text)) ==> text@ == if version
            > CURRENT_PERSISTENCE_VERSION {
            "database schema version "@ + decimal(version as nat)
                + " is newer than this runtime supports ("@ + decimal(
                CURRENT_PERSISTENCE_VERSION as nat,
            ) + ")"@
        } else {
            "database uses legacy schema version "@ + decimal(version as nat)
                + "; run `agentos-gateway migrate --dry-run` then `agentos-gateway migrate --backup PATH`"@
        },
{
    if version > CURRENT_PERSISTENCE_VERSION {
        let mut text = "database schema version ".to_owned();
        push_decimal(&mut text, version as u64);
        text.push_str(" is newer than this runtime supports (");
        push_decimal(&mut text, CURRENT_PERSISTENCE_VERSION as u64);
        text.push_str(")");
        return Err(MemoryError::Backend(text));
    }
    if version < CURRENT_PERSISTENCE_VERSION {
        let mut text = "database uses legacy schema version ".to_owned();
        push_decimal(&mut text, version as u64);
        text.push_str(
            "; run `agentos-gateway migrate --dry-run` then `agentos-gateway migrate --backup PATH`",
        );
        return Err(MemoryError::Backend(text));
    }
    Ok(())
}

/// What to do about the backup before a migration.
#[derive(Clone, Copy, Debug, PartialEq, Eq, Structural)]
pub enum BackupStep {
    /// Make it, and mark the migration as prepared.
    Create,
    /// An interrupted run already made it; go on from there.
    Reuse,
    /// Something else is at the path.
    RefuseExisting,
    /// An interrupted run made it and it is gone.
    RefuseMissing,
}

/// Decides about the backup: what an interrupted run prepared, where the
/// backup is to be now, and whether the two are there.
pub fn backup_step(prepared: &Option<String>, requested: &str, requested_exists: bool) -> (step:
    BackupStep)
    ensures
        step == match *prepared {
            Some(path) => if path@ != requested@ {
                BackupStep::RefuseExisting
            } else if requested_exists {
                BackupStep::Reuse
            } else {
                BackupStep::RefuseMissing
            },
            None => if requested_exists {
                BackupStep::RefuseExisting
            } else {
                BackupStep::Create
            },
        },
{
    match prepared {
        Some(path) => {
            if !same(path.as_str(), requested) {
                BackupStep::RefuseExisting
            } else if requested_exists {
                BackupStep::Reuse
            } else {
                BackupStep::RefuseMissing
            }
        },
        None => {
            if requested_exists {
                BackupStep::RefuseExisting
            } else {
                BackupStep::Create
            }
        },
    }
}

proof fn lemma_first_error(rows: Seq<LegacyView>, n: int)
    requires
        0 <= n <= rows.len(),
    ensures
        first_error(rows, n) is None <==> forall|i: int|
            0 <= i < n ==> (#[trigger] rows[i]).item is Ok,
    decreases n,
{
    if n > 0 {
        lemma_first_error(rows, n - 1);
    }
}

proof fn lemma_first_user(rows: Seq<LegacyView>, n: int, u: int)
    requires
        0 <= n <= rows.len(),
        0 <= u,
        forall|i: int| 0 <= i < u && i < n ==> !is_user_row(#[trigger] rows[i]),
        u < n ==> is_user_row(rows[u]),
    ensures
        u < n ==> first_user(rows, n) == Some(rows[u].item->Ok_0),
        u >= n ==> first_user(rows, n) is None,
    decreases n,
{
    if n > 0 {
        lemma_first_user(rows, n - 1, u);
    }
}

proof fn lemma_named_agents(rows: Seq<LegacyView>, n: int, agent: Seq<char>)
    requires
        0 <= n <= rows.len(),
    ensures
        named_agents(rows, n).contains(agent) <==> exists|i: int|
            0 <= i < n && ((#[trigger] rows[i]).item matches Ok(item) && lookup(
                item.metadata,
                "active_agent"@,
            ) == Some(Value::Text(agent))),
    decreases n,
{
    if n > 0 {
        lemma_named_agents(rows, n - 1, agent);
        if named_agents(rows, n - 1).contains(agent) {
            let i = choose|i: int|
                0 <= i < n - 1 && ((#[trigger] rows[i]).item matches Ok(item) && lookup(
                    item.metadata,
                    "active_agent"@,
                ) == Some(Value::Text(agent)));
            assert(rows[i].item is Ok);
        }
        assert(rows[n - 1] == rows[n - 1]);
    }
}

/// Whether an item names an agent.
pub open spec fn names_agent(row: LegacyView, agent: Seq<char>) -> bool {
    row.item matches Ok(item) && lookup(item.metadata, "active_agent"@) == Some(Value::Text(agent))
}

/// A turn belongs to whom its first user item names: the channel and the sender
/// it says, in the conversation it is stored under, and the agent its items
/// name, or the usual one where none does.
pub proof fn a_turn_belongs_to_whom_its_user_names(
    rows: Seq<LegacyView>,
    default_agent: Seq<char>,
    u: int,
    channel: Seq<char>,
    sender: Seq<char>,
    agent: Seq<char>,
)
    requires
        0 <= u < rows.len(),
        forall|i: int| 0 <= i < rows.len() ==> (#[trigger] rows[i]).item is Ok,
        rows[u].item->Ok_0.message.role == MessageRole::User,
        forall|i: int|
            0 <= i < u ==> (#[trigger] rows[i]).item->Ok_0.message.role != MessageRole::User,
        lookup(rows[u].item->Ok_0.metadata, "channel_id"@) == Some(Value::Text(channel)),
        lookup(rows[u].item->Ok_0.metadata, "conversation_id"@) is None || lookup(
            rows[u].item->Ok_0.metadata,
            "conversation_id"@,
        ) == Some(Value::Text(rows[0].legacy_key)),
        forall|i: int, other: Seq<char>|
            0 <= i < rows.len() && #[trigger] names_agent(rows[i], other) ==> other == agent,
    ensures
        turn_principal(rows, default_agent) matches Ok(id) && {
            &&& id.channel == channel
            &&& id.conversation == rows[0].legacy_key
            &&& lookup(rows[u].item->Ok_0.metadata, "sender"@) == Some(Value::Text(sender))
                && sender.len() > 0 ==> id.sender == Some(sender)
            &&& lookup(rows[u].item->Ok_0.metadata, "sender"@) is None ==> id.sender is None
            &&& (exists|i: int| 0 <= i < rows.len() && #[trigger] names_agent(rows[i], agent))
                ==> id.agent == agent
            &&& !(exists|i: int| 0 <= i < rows.len() && #[trigger] names_agent(rows[i], agent))
                ==> id.agent == default_agent
        },
{
    let n = rows.len() as int;
    lemma_first_error(rows, n);
    lemma_first_user(rows, n, u);
    let agents = named_agents(rows, n);
    assert forall|a: Seq<char>| #[trigger] agents.contains(a) implies a == agent by {
        lemma_named_agents(rows, n, a);
        let i = choose|i: int|
            0 <= i < n && ((#[trigger] rows[i]).item matches Ok(item) && lookup(
                item.metadata,
                "active_agent"@,
            ) == Some(Value::Text(a)));
        assert(names_agent(rows[i], a));
    }
    lemma_named_agents(rows, n, agent);
    if exists|i: int| 0 <= i < rows.len() && #[trigger] names_agent(rows[i], agent) {
        let i = choose|i: int| 0 <= i < rows.len() && #[trigger] names_agent(rows[i], agent);
        assert(rows[i].item is Ok);
        assert(agents.contains(agent));
    } else if agents.contains(agent) {
        let i = choose|i: int|
            0 <= i < n && ((#[trigger] rows[i]).item matches Ok(item) && lookup(
                item.metadata,
                "active_agent"@,
            ) == Some(Value::Text(agent)));
        assert(names_agent(rows[i], agent));
    }
}

/// A turn that cannot be told belongs to nobody: one with an item that does not
/// parse, without a user's item, whose user's item has no channel or another
/// conversation, or whose items name two agents.
pub proof fn what_cannot_be_told_belongs_to_nobody(
    rows: Seq<LegacyView>,
    default_agent: Seq<char>,
    i: int,
    j: int,
    a: Seq<char>,
    b: Seq<char>,
)
    requires
        0 <= i < rows.len(),
        0 <= j < rows.len(),
    ensures
        rows[i].item is Err ==> turn_principal(rows, default_agent) is Err,
        (forall|k: int|
            0 <= k < rows.len() ==> ((#[trigger] rows[k]).item matches Ok(item) ==> item.message.role
                != MessageRole::User)) ==> turn_principal(rows, default_agent) is Err,
        names_agent(rows[i], a) && names_agent(rows[j], b) && a != b ==> turn_principal(
            rows,
            default_agent,
        ) is Err,
        turn_principal(rows, default_agent) matches Ok(id) ==> id.conversation
            == rows[0].legacy_key,
{
    let n = rows.len() as int;
    lemma_first_error(rows, n);
    if forall|k: int|
        0 <= k < rows.len() ==> ((#[trigger] rows[k]).item matches Ok(item) ==> item.message.role
            != MessageRole::User) {
        assert forall|k: int| 0 <= k < rows.len() implies !is_user_row(#[trigger] rows[k]) by {}
        lemma_first_user(rows, n, n);
    }
    lemma_named_agents(rows, n, a);
    lemma_named_agents(rows, n, b);
    if names_agent(rows[i], a) && names_agent(rows[j], b) && a != b {
        assert(rows[i].item is Ok && rows[j].item is Ok);
        assert(named_agents(rows, n).contains(a) && named_agents(rows, n).contains(b));
    }
}

/// A turn runs from a user's item, or from the first row of its key, to the row
/// before the next such one.
pub proof fn a_turn_runs_to_the_next_user_item(rows: Seq<LegacyView>, i: int, k: int)
    requires
        0 <= i < rows.len(),
    ensures
        ({
            let start = turn_start(rows, i);
            let end = turn_end(rows, i + 1);
            &&& 0 <= start <= i < end <= rows.len()
            &&& start == 0 || rows[start - 1].legacy_key != rows[start].legacy_key || is_user_row(
                rows[start],
            )
            &&& end == rows.len() || rows[end - 1].legacy_key != rows[end].legacy_key
                || is_user_row(rows[end])
            &&& start < k < end ==> !is_user_row(rows[k]) && rows[k - 1].legacy_key
                == rows[k].legacy_key
        }),
{
    lemma_turn_start_bounds(rows, i, k);
    lemma_turn_end_bounds(rows, i + 1, k);
}

proof fn lemma_turn_start_bounds(rows: Seq<LegacyView>, i: int, k: int)
    requires
        0 <= i < rows.len(),
    ensures
        0 <= turn_start(rows, i) <= i,
        turn_start(rows, i) == 0 || starts_group(rows, turn_start(rows, i)) || is_user_row(
            rows[turn_start(rows, i)],
        ),
        turn_start(rows, i) < k <= i ==> !is_user_row(rows[k]) && !starts_group(rows, k),
    decreases i,
{
    if !(i <= 0 || starts_group(rows, i) || is_user_row(rows[i])) {
        lemma_turn_start_bounds(rows, i - 1, k);
    }
}

proof fn lemma_turn_end_bounds(rows: Seq<LegacyView>, i: int, k: int)
    requires
        0 < i <= rows.len(),
    ensures
        i <= turn_end(rows, i) <= rows.len(),
        turn_end(rows, i) == rows.len() || starts_group(rows, turn_end(rows, i)) || is_user_row(
            rows[turn_end(rows, i)],
        ),
        i <= k < turn_end(rows, i) ==> !is_user_row(rows[k]) && !starts_group(rows, k),
    decreases rows.len() - i,
{
    if !(i >= rows.len() || starts_group(rows, i) || is_user_row(rows[i])) {
        lemma_turn_end_bounds(rows, i + 1, k);
    }
}

/// A name is read as what it names: the stores and the visibilities by their
/// names, and nothing by any other.
pub proof fn a_name_is_read_as_what_it_names(
    store: MemoryStore,
    visibility: MemoryVisibility,
    name: Seq<char>,
)
    ensures
        store_named(store_name(store)) == Some(store),
        visibility_named(visibility_name(visibility)) == Some(visibility),
        store_named(name) matches Some(read) ==> store_name(read) == name,
        visibility_named(name) matches Some(read) ==> visibility_name(read) == name,
{
    reveal_strlit("working");
    reveal_strlit("episodic");
    reveal_strlit("semantic");
    reveal_strlit("procedural");
    reveal_strlit("audit");
    reveal_strlit("private");
    reveal_strlit("shared");
    reveal_strlit("public");
    assert("working"@[0] == 'w' && "episodic"@[0] == 'e' && "semantic"@[0] == 's'
        && "procedural"@[0] == 'p' && "audit"@[0] == 'a');
    assert("private"@[1] == 'r' && "shared"@[1] == 'h' && "public"@[1] == 'u');
}

/// A sender without slashes is whom an old id stood for exactly when the two are
/// the same, the space around the sender aside; nobody in particular is whom no
/// id stood for.
pub proof fn an_old_id_stands_for_its_sender(id: Identity, legacy: Seq<char>, sender: Seq<char>)
    ensures
        id.sender is None ==> (sender_matches(id, legacy) <==> legacy.len() == 0),
        id.sender == Some(sender) && (forall|k: int|
            0 <= k < trimmed(sender).len() ==> #[trigger] trimmed(sender)[k] != '/') ==> (
        sender_matches(id, legacy) <==> trimmed(sender) == legacy),
        id.sender == Some(sender) && sender_matches(id, legacy) ==> legacy.len() == trimmed(
            sender,
        ).len() && forall|k: int|
            0 <= k < legacy.len() ==> #[trigger] legacy[k] == trimmed(sender)[k] || (legacy[k]
                == '_' && trimmed(sender)[k] == '/'),
{
    if forall|k: int| 0 <= k < trimmed(sender).len() ==> #[trigger] trimmed(sender)[k] != '/' {
        assert(underscored(trimmed(sender)) =~= trimmed(sender));
    }
}

/// The participants a conversation had are found, all of them, each once.
pub proof fn every_participant_is_found(
    principals: Seq<Identity>,
    conversation: Seq<char>,
    legacy: Option<Seq<char>>,
    n: int,
)
    requires
        0 <= n <= principals.len(),
    ensures
        forall|id: Identity|
            #[trigger] matching(principals, conversation, legacy, n).contains(id) <==> id.conversation
                == conversation && (legacy matches Some(owner) ==> sender_matches(id, owner))
                && exists|i: int| 0 <= i < n && #[trigger] principals[i] == id,
        matching(principals, conversation, legacy, n).no_duplicates(),
    decreases n,
{
    let found = matching(principals, conversation, legacy, n);
    if n > 0 {
        every_participant_is_found(principals, conversation, legacy, n - 1);
        let before = matching(principals, conversation, legacy, n - 1);
        let last = principals[n - 1];
        assert forall|id: Identity| #[trigger] found.contains(id) <==> id.conversation
            == conversation && (legacy matches Some(owner) ==> sender_matches(id, owner)) && exists|
            i: int,
        | 0 <= i < n && #[trigger] principals[i] == id by {
            assert(before.contains(id) <==> id.conversation == conversation && (
            legacy matches Some(owner) ==> sender_matches(id, owner)) && exists|i: int|
                0 <= i < n - 1 && #[trigger] principals[i] == id);
            if before.contains(id) {
                let k = choose|k: int| 0 <= k < before.len() && before[k] == id;
                assert(found[k] == id);
                let i = choose|i: int| 0 <= i < n - 1 && #[trigger] principals[i] == id;
                assert(principals[i] == id);
            }
            if found.contains(id) && !before.contains(id) {
                let k = choose|k: int| 0 <= k < found.len() && found[k] == id;
                if k < before.len() {
                    assert(before[k] == id);
                }
                assert(principals[n - 1] == id);
            }
            if id == last && found.len() > before.len() {
                assert(found[before.len() as int] == id);
            }
            if (exists|i: int| 0 <= i < n && #[trigger] principals[i] == id) && !(exists|i: int|
                0 <= i < n - 1 && #[trigger] principals[i] == id) {
                let i = choose|i: int| 0 <= i < n && #[trigger] principals[i] == id;
                assert(i == n - 1);
            }
        }
    } else {
        assert forall|id: Identity| !(#[trigger] found.contains(id)) by {}
    }
}

/// Memory of a conversation, or of one of its users, goes to the one participant
/// it can have been, and to nobody when there are several or none.
pub proof fn memory_goes_to_the_only_participant(
    facts: MemoryFacts,
    principals: Seq<Identity>,
    id: Identity,
)
    ensures
        (exists|i: int| 0 <= i < principals.len() && #[trigger] principals[i] == id)
            && id.conversation == row_conversation(facts) && (forall|j: int|
            0 <= j < principals.len() && (#[trigger] principals[j]).conversation
                == row_conversation(facts) ==> principals[j] == id) ==> resolved_owner(
            facts,
            "conversation"@,
            principals,
        ) == Ok::<_, Seq<char>>(SettledOwnerView::Principal(id)),
        resolved_owner(facts, "conversation"@, principals) matches Ok(owner) ==> (
        owner matches SettledOwnerView::Principal(one) && one.conversation == row_conversation(
            facts,
        ) && forall|j: int|
            0 <= j < principals.len() && (#[trigger] principals[j]).conversation
                == row_conversation(facts) ==> principals[j] == one),
        resolved_owner(facts, "user"@, principals) matches Ok(owner) ==> (
        owner matches SettledOwnerView::Principal(one) && one.conversation == row_conversation(
            facts,
        ) && sender_matches(one, legacy_owner(facts)) && forall|j: int|
            0 <= j < principals.len() && (#[trigger] principals[j]).conversation
                == row_conversation(facts) && sender_matches(principals[j], legacy_owner(facts))
                ==> principals[j] == one),
        (exists|i: int| 0 <= i < principals.len() && #[trigger] principals[i] == id)
            && id.conversation == row_conversation(facts) && sender_matches(id, legacy_owner(facts))
            && (forall|j: int|
            0 <= j < principals.len() && (#[trigger] principals[j]).conversation
                == row_conversation(facts) && sender_matches(principals[j], legacy_owner(facts))
                ==> principals[j] == id) ==> resolved_owner(facts, "user"@, principals) == Ok::<
            _,
            Seq<char>,
        >(SettledOwnerView::Principal(id)),
{
    lemma_kinds();
    let n = principals.len() as int;
    let conversation = row_conversation(facts);
    lemma_only_one(principals, conversation, None, id);
    lemma_only_one(principals, conversation, Some(legacy_owner(facts)), id);
}

proof fn lemma_kinds()
    ensures
        "principal"@ != "conversation"@,
        "user"@ != "principal"@ && "user"@ != "conversation"@,
        "agent"@ != "principal"@ && "agent"@ != "conversation"@ && "agent"@ != "user"@,
        "task"@ != "principal"@ && "task"@ != "conversation"@ && "task"@ != "user"@ && "task"@
            != "agent"@,
        "shared"@ != "principal"@ && "shared"@ != "conversation"@ && "shared"@ != "user"@
            && "shared"@ != "agent"@ && "shared"@ != "task"@,
{
    reveal_strlit("principal");
    reveal_strlit("conversation");
    reveal_strlit("user");
    reveal_strlit("agent");
    reveal_strlit("task");
    reveal_strlit("shared");
    assert("principal"@[0] == 'p' && "conversation"@[0] == 'c' && "user"@[0] == 'u' && "agent"@[0]
        == 'a' && "task"@[0] == 't' && "shared"@[0] == 's');
}

proof fn lemma_only_one(
    principals: Seq<Identity>,
    conversation: Seq<char>,
    legacy: Option<Seq<char>>,
    id: Identity,
)
    ensures
        ({
            let found = matching(principals, conversation, legacy, principals.len() as int);
            &&& found.len() == 1 ==> found[0].conversation == conversation && (
            legacy matches Some(owner) ==> sender_matches(found[0], owner)) && forall|j: int|
                0 <= j < principals.len() && (#[trigger] principals[j]).conversation == conversation
                    && (legacy matches Some(owner) ==> sender_matches(principals[j], owner))
                    ==> principals[j] == found[0]
            &&& (exists|i: int| 0 <= i < principals.len() && #[trigger] principals[i] == id)
                && id.conversation == conversation && (legacy matches Some(owner) ==> sender_matches(
                id,
                owner,
            )) && (forall|j: int|
                0 <= j < principals.len() && (#[trigger] principals[j]).conversation == conversation
                    && (legacy matches Some(owner) ==> sender_matches(principals[j], owner))
                    ==> principals[j] == id) ==> found.len() == 1 && found[0] == id
        }),
{
    let n = principals.len() as int;
    let found = matching(principals, conversation, legacy, n);
    every_participant_is_found(principals, conversation, legacy, n);
    if found.len() == 1 {
        assert(found.contains(found[0]));
        assert forall|j: int|
            0 <= j < principals.len() && (#[trigger] principals[j]).conversation == conversation && (
            legacy matches Some(owner) ==> sender_matches(principals[j], owner)) implies principals[j]
            == found[0] by {
            assert(found.contains(principals[j]));
        }
    }
    if (exists|i: int| 0 <= i < principals.len() && #[trigger] principals[i] == id)
        && id.conversation == conversation && (legacy matches Some(owner) ==> sender_matches(
        id,
        owner,
    )) && (forall|j: int|
        0 <= j < principals.len() && (#[trigger] principals[j]).conversation == conversation && (
        legacy matches Some(owner) ==> sender_matches(principals[j], owner)) ==> principals[j]
            == id) {
        assert(found.contains(id));
        assert forall|k: int| 0 <= k < found.len() implies #[trigger] found[k] == id by {
            assert(found.contains(found[k]));
            let i = choose|i: int| 0 <= i < n && #[trigger] principals[i] == found[k];
            assert(principals[i] == id);
        }
        if found.len() > 1 {
            assert(found[0] == id && found[1] == id);
        }
    }
}

/// Memory of an agent goes to the agent it came from, that of a task to the
/// task, what is shared to everybody, and a participant's to the participant;
/// where that is not on record it goes nowhere.
pub proof fn memory_goes_where_it_came_from(
    facts: MemoryFacts,
    principals: Seq<Identity>,
    kind: Seq<char>,
    id: Identity,
)
    ensures
        facts.source_agent matches Some(agent) ==> resolved_owner(facts, "agent"@, principals)
            == Ok::<_, Seq<char>>(SettledOwnerView::Agent(agent@)),
        facts.source_agent is None ==> resolved_owner(facts, "agent"@, principals) is Err,
        facts.source_task matches Some(task) ==> resolved_owner(facts, "task"@, principals) == Ok::<
            _,
            Seq<char>,
        >(SettledOwnerView::Task(task@)),
        facts.source_task is None ==> resolved_owner(facts, "task"@, principals) is Err,
        resolved_owner(facts, "shared"@, principals) == Ok::<_, Seq<char>>(SettledOwnerView::Shared),
        facts.recorded_owner matches Some(owner) ==> resolved_owner(facts, "principal"@, principals)
            == Ok::<_, Seq<char>>(owner@),
        facts.recorded_owner is None && legacy_owner(facts) == id.key() ==> resolved_owner(
            facts,
            "principal"@,
            principals,
        ) == Ok::<_, Seq<char>>(SettledOwnerView::Principal(id)),
        kind != "principal"@ && kind != "conversation"@ && kind != "user"@ && kind != "agent"@
            && kind != "task"@ && kind != "shared"@ ==> resolved_owner(facts, kind, principals)
            is Err,
{
    lemma_kinds();
    if legacy_owner(facts) == id.key() {
        assert(is_storage_key(legacy_owner(facts)));
        crate::identity::storage_key_is_injective(id, keyed(legacy_owner(facts)));
    }
}

/// A domain is kept as it is; the general one is none, and one that may have
/// lost a slash is not guessed.
pub proof fn a_domain_is_not_guessed(name: Seq<char>)
    ensures
        resolved_domain(None) == Ok::<Option<Seq<char>>, Seq<char>>(None),
        resolved_domain(Some(Seq::empty())) == Ok::<Option<Seq<char>>, Seq<char>>(None),
        resolved_domain(Some("general"@)) == Ok::<Option<Seq<char>>, Seq<char>>(None),
        name.contains('_') ==> resolved_domain(Some(name)) is Err,
        name.len() > 0 && name != "general"@ && !name.contains('_') ==> resolved_domain(Some(name))
            == Ok::<_, Seq<char>>(Some(name)),
{
    reveal_strlit("general");
    assert forall|k: int| 0 <= k < "general"@.len() implies "general"@[k] != '_' by {}
    if name.contains('_') {
        let k = choose|k: int| 0 <= k < name.len() && name[k] == '_';
        assert(name[k] == '_');
    }
}

/// A memory row is moved to the store, the visibility, the owner and the domain
/// that it says, and only where it says all of them.
pub proof fn a_row_moves_where_it_says(facts: MemoryFacts, principals: Seq<Identity>)
    ensures
        resolved_scope(facts, principals) matches Ok(scope) ==> {
            &&& opt_view(facts.store) == Some(store_name(scope.store))
            &&& opt_view(facts.visibility) == Some(visibility_name(scope.visibility))
            &&& facts.owner_kind matches Some(kind) && resolved_owner(facts, kind@, principals)
                == Ok::<_, Seq<char>>(scope.owner)
            &&& resolved_domain(opt_view(facts.domain)) == Ok::<_, Seq<char>>(scope.domain)
        },
        facts.store is None || facts.visibility is None || facts.owner_kind is None
            ==> resolved_scope(facts, principals) is Err,
{
    if resolved_scope(facts, principals) is Ok {
        let scope = resolved_scope(facts, principals)->Ok_0;
        a_name_is_read_as_what_it_names(scope.store, scope.visibility, facts.store->0@);
        a_name_is_read_as_what_it_names(scope.store, scope.visibility, facts.visibility->0@);
    }
}

/// The ordinals of a participant's rows are dense: each row of theirs takes the
/// next, and no other row takes one.
pub proof fn rebuilt_ordinals_are_dense(verdicts: Seq<SessionVerdict>, id: Identity, n: int)
    requires
        0 <= n < verdicts.len(),
    ensures
        earlier_rows(verdicts, id, 0) == 0,
        (verdicts[n].target matches Some(principal) && principal@ == id) ==> earlier_rows(
            verdicts,
            id,
            n + 1,
        ) == earlier_rows(verdicts, id, n) + 1,
        !(verdicts[n].target matches Some(principal) && principal@ == id) ==> earlier_rows(
            verdicts,
            id,
            n + 1,
        ) == earlier_rows(verdicts, id, n),
        verdicts[n].target matches Some(principal) ==> resolved_principals(verdicts, n + 1)
            == resolved_principals(verdicts, n).push(principal@),
        verdicts[n].target is None ==> resolved_principals(verdicts, n + 1) == resolved_principals(
            verdicts,
            n,
        ),
{
}

/// A moved row says whose it is now, in its columns and in its metadata alike,
/// and keeps everything else it said.
pub proof fn a_moved_row_says_whose_it_is(
    row: MovedRow,
    scope: SettledScopeView,
    metadata: Seq<(Seq<char>, Value)>,
    owner: Value,
    key: Seq<char>,
)
    requires
        is_moved_to(row, scope, metadata, owner),
    ensures
        row.namespace@ == scope.namespace(),
        lookup(entries_view(row.metadata@), "owner_kind"@) == Some(Value::Text(row.owner_kind@)),
        lookup(entries_view(row.metadata@), "owner_id"@) == Some(Value::Text(row.owner_id@)),
        lookup(entries_view(row.metadata@), "domain"@) == Some(Value::Text(row.domain@)),
        lookup(entries_view(row.metadata@), "owner"@) == Some(owner),
        row.owner_kind@ == scope.owner.kind(),
        row.owner_id@ == scope.owner.metadata_id(),
        key != "owner_kind"@ && key != "owner_id"@ && key != "owner"@ && key != "domain"@
            ==> lookup(entries_view(row.metadata@), key) == lookup(metadata, key),
{
    reveal_strlit("owner_kind");
    reveal_strlit("owner_id");
    reveal_strlit("owner");
    reveal_strlit("domain");
    assert("owner_kind"@.len() == 10 && "owner_id"@.len() == 8 && "owner"@.len() == 5
        && "domain"@.len() == 6);
    let said = entries_view(row.metadata@);
    assert(lookup(said, "owner_kind"@) == Some(Value::Text(scope.owner.kind())));
    assert(lookup(said, "owner_id"@) == Some(Value::Text(scope.owner.metadata_id())));
    assert(lookup(said, "owner"@) == Some(owner));
    assert(lookup(said, "domain"@) == Some(Value::Text(scope.domain_field())));
    assert(lookup(said, key) == lookup(said, key));
}

/// A verdict is told by what was found out: who owns a row or why that cannot be
/// told, never both and never neither; and a memory row is kept, moved or set
/// aside.
pub proof fn a_verdict_is_what_was_found_out(
    verdict: SessionVerdict,
    id: Identity,
    why: Seq<char>,
    told: MemoryVerdict,
    facts: MemoryFacts,
    principals: Seq<Identity>,
)
    ensures
        is_verdict(verdict, Ok(id)) <==> (verdict.target matches Some(principal) && principal@
            == id) && verdict.reason is None,
        is_verdict(verdict, Err(why)) <==> (verdict.reason matches Some(text) && text@ == why)
            && verdict.target is None,
        is_memory_verdict(told, facts, principals) && told is Keep ==> is_final_namespace(
            facts.namespace@,
            opt_view(facts.owner_kind),
            opt_view(facts.owner_id),
        ),
        is_memory_verdict(told, facts, principals) ==> (told matches MemoryVerdict::Move(scope)
            ==> resolved_scope(facts, principals) == Ok::<_, Seq<char>>(scope@)),
        is_memory_verdict(told, facts, principals) ==> (told matches MemoryVerdict::Quarantine(text)
            ==> resolved_scope(facts, principals) == Err::<SettledScopeView, _>(text@)),
{
}

} // verus!
