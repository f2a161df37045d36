//! Resolving who a memory operation belongs to, from a run.

use super::scope::{CallerView, MemoryCaller, SharedDomainGrants};
use crate::json::{entries_view, find, find_text, lookup, text_of, Json, Value};
use crate::lists::{increasing, insert_sorted};
use crate::message::{ItemView, Transcript};
use crate::text::{opt_view, same, texts, trim, trimmed};
use vstd::prelude::*;

verus! {

/// What the runtime itself knows about a run.
pub struct SystemContext {
    pub run_id: String,
    pub active_agent: String,
    pub task_id: String,
    pub metadata: Vec<(String, Json)>,
}

/// Whether metadata says who a turn is from.
pub open spec fn names_caller(metadata: Seq<(Seq<char>, Value)>) -> bool {
    ||| lookup(metadata, "conversation_id"@) is Some
    ||| lookup(metadata, "sender"@) is Some
    ||| lookup(metadata, "user_id"@) is Some
    ||| lookup(metadata, "memory_view"@) is Some
}

/// The metadata of the newest item that says who it is from.
pub open spec fn newest_naming(log: Seq<ItemView>) -> Option<Seq<(Seq<char>, Value)>>
    decreases log.len(),
{
    if log.len() == 0 {
        None
    } else if names_caller(log.last().metadata) {
        Some(log.last().metadata)
    } else {
        newest_naming(log.drop_last())
    }
}

/// The metadata a caller is resolved from: the newest item's that names one,
/// else the newest item's, else the run's own.
pub open spec fn caller_metadata(
    log: Seq<ItemView>,
    system: Seq<(Seq<char>, Value)>,
) -> Seq<(Seq<char>, Value)> {
    match newest_naming(log) {
        Some(metadata) => metadata,
        None => if log.len() > 0 {
            log.last().metadata
        } else {
            system
        },
    }
}

fn item_names_caller(metadata: &Vec<(String, Json)>) -> (yes: bool)
    ensures
        yes == names_caller(entries_view(metadata@)),
{
    find(metadata, "conversation_id").is_some() || find(metadata, "sender").is_some() || find(
        metadata,
        "user_id",
    ).is_some() || find(metadata, "memory_view").is_some()
}

fn caller_metadata_from_context<'a>(transcript: &'a Transcript, system: &'a SystemContext) -> (out:
    &'a Vec<(String, Json)>)
    ensures
        entries_view(out@) == caller_metadata(transcript@, entries_view(system.metadata@)),
{
    let ghost log = transcript@;
    let mut i: usize = transcript.items.len();
    assert(log.take(log.len() as int) =~= log);
    while i > 0
        invariant
            i <= transcript.items@.len(),
            log == transcript@,
            newest_naming(log) == newest_naming(log.take(i as int)),
        decreases i,
    {
        proof {
            assert(log.take(i as int).last() == transcript.items@[i - 1]@);
            assert(log.take(i as int).drop_last() =~= log.take(i - 1));
        }
        if item_names_caller(&transcript.items[i - 1].metadata) {
            return &transcript.items[i - 1].metadata;
        }
        i = i - 1;
    }
    let len: usize = transcript.items.len();
    if len > 0 {
        assert(log.last() == transcript.items@[len - 1]@);
        &transcript.items[len - 1].metadata
    } else {
        &system.metadata
    }
}

/// The conversation a run belongs to, if the transcript records one.
pub fn conversation_id_from_context(transcript: &Transcript, system: &SystemContext) -> (out: Option<
    String,
>)
    ensures
        opt_view(out) == text_of(
            lookup(
                caller_metadata(transcript@, entries_view(system.metadata@)),
                "conversation_id"@,
            ),
        ),
{
    match find_text(caller_metadata_from_context(transcript, system), "conversation_id") {
        Some(text) => Some(text.to_owned()),
        None => None,
    }
}

/// The channel metadata names, or the reserved unknown one.
pub open spec fn channel_of(metadata: Seq<(Seq<char>, Value)>) -> Seq<char> {
    match text_of(lookup(metadata, "channel_id"@)) {
        Some(channel) => channel,
        None => "unknown-channel"@,
    }
}

/// The channel the conversation arrived on.
pub fn channel_id_from_context(transcript: &Transcript, system: &SystemContext) -> (out: String)
    ensures
        out@ == channel_of(caller_metadata(transcript@, entries_view(system.metadata@))),
{
    match find_text(caller_metadata_from_context(transcript, system), "channel_id") {
        Some(text) => text.to_owned(),
        None => "unknown-channel".to_owned(),
    }
}

/// The user metadata names: a sub-agent's input carries the user itself, any
/// other the sender; blank names nobody.
pub open spec fn user_of(metadata: Seq<(Seq<char>, Value)>) -> Option<Seq<char>> {
    let key = if text_of(lookup(metadata, "kind"@)) == Some("subagent_input"@) {
        "user_id"@
    } else {
        "sender"@
    };
    match text_of(lookup(metadata, key)) {
        Some(name) => if trimmed(name).len() > 0 {
            Some(trimmed(name))
        } else {
            None
        },
        None => None,
    }
}

/// The texts of a list of values, in order; other values are passed over.
pub open spec fn text_items(values: Seq<Value>) -> Seq<Seq<char>>
    decreases values.len(),
{
    if values.len() == 0 {
        Seq::empty()
    } else if let Value::Text(text) = values.last() {
        text_items(values.drop_last()).push(text)
    } else {
        text_items(values.drop_last())
    }
}

/// The memory view metadata declares.
pub open spec fn view_of(metadata: Seq<(Seq<char>, Value)>) -> Option<Seq<char>> {
    text_of(lookup(metadata, "memory_view"@))
}

/// The shared domains metadata declares, under a shared view.
pub open spec fn declared_domains(metadata: Seq<(Seq<char>, Value)>) -> Seq<Seq<char>> {
    if view_of(metadata) == Some("shared_readonly"@) || view_of(metadata) == Some(
        "shared_readwrite"@,
    ) {
        match lookup(metadata, "memory_domains"@) {
            Some(Value::List(values)) => text_items(values),
            _ => Seq::empty(),
        }
    } else {
        Seq::empty()
    }
}

/// The shared domains a caller may write: those it declares under a writing
/// view and the deployment permits.
pub open spec fn writable_domains(
    metadata: Seq<(Seq<char>, Value)>,
    permitted: Seq<Seq<char>>,
) -> Set<Seq<char>> {
    if view_of(metadata) == Some("shared_readwrite"@) {
        declared_domains(metadata).to_set().intersect(permitted.to_set())
    } else {
        Set::empty()
    }
}

/// A declared view only ever narrows what the deployment permits, and without
/// a writing view nothing shared can be written.
pub proof fn views_only_narrow(metadata: Seq<(Seq<char>, Value)>, permitted: Seq<Seq<char>>)
    ensures
        writable_domains(metadata, permitted).subset_of(permitted.to_set()),
        view_of(metadata) != Some("shared_readwrite"@) ==> writable_domains(metadata, permitted)
            == Set::<Seq<char>>::empty(),
{
}

/// The metadata of the newest item that names a channel.
pub open spec fn newest_channel(log: Seq<ItemView>) -> Option<Seq<(Seq<char>, Value)>>
    decreases log.len(),
{
    if log.len() == 0 {
        None
    } else if text_of(lookup(log.last().metadata, "channel_id"@)) is Some {
        Some(log.last().metadata)
    } else {
        newest_channel(log.drop_last())
    }
}

/// Whether audit memory may be read: the newest turn with a channel came in on
/// an operator's channel and not as a sub-agent's input.
pub open spec fn audit_readable(log: Seq<ItemView>) -> bool {
    match newest_channel(log) {
        Some(metadata) => {
            let channel = text_of(lookup(metadata, "channel_id"@));
            &&& channel == Some("tui"@) || channel == Some("telegram"@) || channel == Some(
                "feishu"@,
            )
            &&& text_of(lookup(metadata, "kind"@)) != Some("subagent_input"@)
        },
        None => false,
    }
}

fn audit_read_access_from_context(transcript: &Transcript) -> (yes: bool)
    ensures
        yes == audit_readable(transcript@),
{
    let ghost log = transcript@;
    let mut i: usize = transcript.items.len();
    assert(log.take(log.len() as int) =~= log);
    while i > 0
        invariant
            i <= transcript.items@.len(),
            log == transcript@,
            newest_channel(log) == newest_channel(log.take(i as int)),
        decreases i,
    {
        proof {
            assert(log.take(i as int).last() == transcript.items@[i - 1]@);
            assert(log.take(i as int).drop_last() =~= log.take(i - 1));
        }
        let metadata = &transcript.items[i - 1].metadata;
        if let Some(channel) = find_text(metadata, "channel_id") {
            let trusted = same(channel, "tui") || same(channel, "telegram") || same(
                channel,
                "feishu",
            );
            let parent = match find_text(metadata, "kind") {
                Some(kind) => !same(kind, "subagent_input"),
                None => true,
            };
            return trusted && parent;
        }
        i = i - 1;
    }
    false
}

fn declared(metadata: &Vec<(String, Json)>) -> (out: Vec<String>)
    ensures
        texts(out@) == declared_domains(entries_view(metadata@)),
{
    let mut out: Vec<String> = Vec::new();
    assert(texts(out@) =~= Seq::empty());
    let shared = match find_text(metadata, "memory_view") {
        Some(view) => same(view, "shared_readonly") || same(view, "shared_readwrite"),
        None => false,
    };
    if !shared {
        return out;
    }
    if let Some(value) = find(metadata, "memory_domains") {
        if let Json::List(items) = value {
            let ghost all = value@->List_0;
            let mut i: usize = 0;
            assert(texts(out@) =~= text_items(all.take(0)));
            while i < items.len()
                invariant
                    i <= items@.len(),
                    *value == Json::List(*items),
                    value@ == Value::List(all),
                    all.len() == items@.len(),
                    forall|k: int| 0 <= k < all.len() ==> all[k] == #[trigger] items@[k]@,
                    texts(out@) == text_items(all.take(i as int)),
                decreases items@.len() - i,
            {
                proof {
                    assert(all[i as int] == items@[i as int]@);
                    assert(all.take(i + 1).drop_last() =~= all.take(i as int));
                    assert(all.take(i + 1).last() == all[i as int]);
                }
                if let Some(text) = items[i].as_text() {
                    let ghost before = texts(out@);
                    out.push(text.to_owned());
                    assert(texts(out@) =~= before.push(text@));
                }
                i = i + 1;
            }
            assert(all.take(all.len() as int) =~= all);
        }
    }
    out
}

/// What a caller resolved from a run is.
pub open spec fn is_caller_of(
    caller: CallerView,
    log: Seq<ItemView>,
    system: SystemContext,
    readable: Seq<Seq<char>>,
    writable: Seq<Seq<char>>,
) -> bool {
    let metadata = caller_metadata(log, entries_view(system.metadata@));
    &&& caller.agent_id == system.active_agent@
    &&& caller.task_id == system.task_id@
    &&& caller.channel_id == channel_of(metadata)
    &&& caller.conversation_id == match text_of(lookup(metadata, "conversation_id"@)) {
        Some(id) => id,
        None => system.run_id@,
    }
    &&& caller.user_id == user_of(metadata)
    &&& increasing(caller.allowed_shared_domains)
    &&& caller.allowed_shared_domains.to_set() == readable.to_set()
    &&& increasing(caller.writable_shared_domains)
    &&& caller.writable_shared_domains.to_set() == writable_domains(metadata, writable)
    &&& caller.audit_read_access == audit_readable(log)
}

/// Builds the caller a memory operation is decided against. The lists of
/// shared domains come out in order and without repeats.
pub fn memory_caller_from_context(
    transcript: &Transcript,
    system: &SystemContext,
    grants: &SharedDomainGrants,
) -> (caller: MemoryCaller)
    ensures
        is_caller_of(
            caller@,
            transcript@,
            *system,
            texts(grants.readable@),
            texts(grants.writable@),
        ),
{
    let metadata = caller_metadata_from_context(transcript, system);
    let ghost meta = entries_view(metadata@);
    let conversation_id = match find_text(metadata, "conversation_id") {
        Some(id) => id.to_owned(),
        None => system.run_id.clone(),
    };
    let from_subagent = match find_text(metadata, "kind") {
        Some(kind) => same(kind, "subagent_input"),
        None => false,
    };
    let named = if from_subagent {
        find_text(metadata, "user_id")
    } else {
        find_text(metadata, "sender")
    };
    let user_id = match named {
        Some(name) => {
            let name = trim(name);
            if name.as_str().is_empty() {
                None
            } else {
                Some(name)
            }
        },
        None => None,
    };
    let asked = declared(metadata);
    let ghost listed = texts(asked@);
    let ghost readable = texts(grants.readable@);
    let mut allowed: Vec<String> = Vec::new();
    let mut i: usize = 0;
    assert(texts(allowed@).to_set() =~= readable.take(0).to_set());
    while i < grants.readable.len()
        invariant
            i <= grants.readable@.len(),
            readable == texts(grants.readable@),
            increasing(texts(allowed@)),
            texts(allowed@).to_set() == readable.take(i as int).to_set(),
        decreases grants.readable@.len() - i,
    {
        insert_sorted(&mut allowed, grants.readable[i].as_str());
        proof {
            assert(readable.take(i + 1) =~= readable.take(i as int).push(readable[i as int]));
            crate::lists::lemma_push_members(readable.take(i as int), readable[i as int]);
        }
        i = i + 1;
    }
    assert(readable.take(readable.len() as int) =~= readable);
    let writes = match find_text(metadata, "memory_view") {
        Some(view) => same(view, "shared_readwrite"),
        None => false,
    };
    let ghost permitted = texts(grants.writable@).to_set();
    let mut writable: Vec<String> = Vec::new();
    assert(texts(writable@).to_set() =~= Set::empty());
    if writes {
        let mut j: usize = 0;
        assert(listed.take(0).to_set().intersect(permitted) =~= Set::empty());
        while j < asked.len()
            invariant
                j <= asked@.len(),
                listed == texts(asked@),
                permitted == texts(grants.writable@).to_set(),
                increasing(texts(writable@)),
                texts(writable@).to_set() == listed.take(j as int).to_set().intersect(permitted),
            decreases asked@.len() - j,
        {
            proof {
                assert(listed.take(j + 1) =~= listed.take(j as int).push(listed[j as int]));
                crate::lists::lemma_push_members(listed.take(j as int), listed[j as int]);
                assert(listed[j as int] == asked@[j as int]@);
            }
            if grants.permits_write(asked[j].as_str()) {
                insert_sorted(&mut writable, asked[j].as_str());
                assert(texts(writable@).to_set() =~= listed.take(j + 1).to_set().intersect(
                    permitted,
                ));
            } else {
                assert(texts(writable@).to_set() =~= listed.take(j + 1).to_set().intersect(
                    permitted,
                ));
            }
            j = j + 1;
        }
        assert(listed.take(listed.len() as int) =~= listed);
    }
    MemoryCaller {
        agent_id: system.active_agent.clone(),
        task_id: system.task_id.clone(),
        channel_id: channel_id_from_context(transcript, system),
        conversation_id,
        user_id,
        allowed_shared_domains: allowed,
        writable_shared_domains: writable,
        audit_read_access: audit_read_access_from_context(transcript),
    }
}

/// The newest turn that says who it is from decides, whatever came before or
/// after it.
pub proof fn the_newest_naming_turn_decides(
    log: Seq<ItemView>,
    system: Seq<(Seq<char>, Value)>,
    i: int,
)
    requires
        0 <= i < log.len(),
        lookup(log[i].metadata, "conversation_id"@) is Some || lookup(log[i].metadata, "sender"@)
            is Some || lookup(log[i].metadata, "user_id"@) is Some || lookup(
            log[i].metadata,
            "memory_view"@,
        ) is Some,
        forall|j: int| i < j < log.len() ==> !names_caller((#[trigger] log[j]).metadata),
    ensures
        caller_metadata(log, system) == log[i].metadata,
{
    lemma_newest_naming(log, i);
}

proof fn lemma_newest_naming(log: Seq<ItemView>, i: int)
    requires
        0 <= i < log.len(),
        names_caller(log[i].metadata),
        forall|j: int| i < j < log.len() ==> !names_caller((#[trigger] log[j]).metadata),
    ensures
        newest_naming(log) == Some(log[i].metadata),
    decreases log.len(),
{
    if i < log.len() - 1 {
        let shorter = log.drop_last();
        assert(!names_caller(log[log.len() - 1].metadata));
        assert forall|j: int| i < j < shorter.len() implies !names_caller(
            (#[trigger] shorter[j]).metadata,
        ) by {
            assert(shorter[j] == log[j]);
        }
        lemma_newest_naming(shorter, i);
    }
}

/// Where no turn says who it is from, the last turn is taken, and the run's own
/// metadata only where there is no turn.
pub proof fn nobody_named_is_the_last_turn(log: Seq<ItemView>, system: Seq<(Seq<char>, Value)>)
    requires
        forall|j: int| 0 <= j < log.len() ==> !names_caller((#[trigger] log[j]).metadata),
    ensures
        log.len() == 0 ==> caller_metadata(log, system) == system,
        log.len() > 0 ==> caller_metadata(log, system) == log[log.len() - 1].metadata,
{
    lemma_none_naming(log);
}

proof fn lemma_none_naming(log: Seq<ItemView>)
    requires
        forall|j: int| 0 <= j < log.len() ==> !names_caller((#[trigger] log[j]).metadata),
    ensures
        newest_naming(log) is None,
    decreases log.len(),
{
    if log.len() > 0 {
        let shorter = log.drop_last();
        assert(!names_caller(log[log.len() - 1].metadata));
        assert forall|j: int| 0 <= j < shorter.len() implies !names_caller(
            (#[trigger] shorter[j]).metadata,
        ) by {
            assert(shorter[j] == log[j]);
        }
        lemma_none_naming(shorter);
    }
}

/// Audit memory may be read when the newest turn with a channel came from an
/// operator's channel and not from a sub-agent, and not otherwise.
pub proof fn operators_may_read_audit(log: Seq<ItemView>, i: int, channel: Seq<char>)
    requires
        0 <= i < log.len(),
        lookup(log[i].metadata, "channel_id"@) == Some(Value::Text(channel)),
        forall|j: int|
            i < j < log.len() ==> text_of(lookup((#[trigger] log[j]).metadata, "channel_id"@)) is None,
    ensures
        audit_readable(log) <==> (channel == "tui"@ || channel == "telegram"@ || channel
            == "feishu"@) && lookup(log[i].metadata, "kind"@) != Some(
            Value::Text("subagent_input"@),
        ),
{
    lemma_newest_channel(log, i);
}

proof fn lemma_newest_channel(log: Seq<ItemView>, i: int)
    requires
        0 <= i < log.len(),
        text_of(lookup(log[i].metadata, "channel_id"@)) is Some,
        forall|j: int|
            i < j < log.len() ==> text_of(lookup((#[trigger] log[j]).metadata, "channel_id"@)) is None,
    ensures
        newest_channel(log) == Some(log[i].metadata),
    decreases log.len(),
{
    if i < log.len() - 1 {
        let shorter = log.drop_last();
        assert(text_of(lookup(log[log.len() - 1].metadata, "channel_id"@)) is None);
        assert forall|j: int| i < j < shorter.len() implies text_of(
            lookup((#[trigger] shorter[j]).metadata, "channel_id"@),
        ) is None by {
            assert(shorter[j] == log[j]);
        }
        lemma_newest_channel(shorter, i);
    }
}

/// The user is the sender, or what a sub-agent's input says, without the space
/// around it; a blank name is nobody's.
pub proof fn the_user_is_who_sent_it(metadata: Seq<(Seq<char>, Value)>, name: Seq<char>)
    ensures
        lookup(metadata, "kind"@) != Some(Value::Text("subagent_input"@)) && lookup(
            metadata,
            "sender"@,
        ) == Some(Value::Text(name)) && trimmed(name).len() > 0 ==> user_of(metadata) == Some(
            trimmed(name),
        ),
        lookup(metadata, "kind"@) == Some(Value::Text("subagent_input"@)) && lookup(
            metadata,
            "user_id"@,
        ) == Some(Value::Text(name)) && trimmed(name).len() > 0 ==> user_of(metadata) == Some(
            trimmed(name),
        ),
        user_of(metadata) matches Some(user) ==> user.len() > 0,
        lookup(metadata, "sender"@) is None && lookup(metadata, "user_id"@) is None ==> user_of(
            metadata,
        ) is None,
{
}

proof fn lemma_text_items(values: Seq<Value>, name: Seq<char>)
    ensures
        text_items(values).contains(name) <==> values.contains(Value::Text(name)),
    decreases values.len(),
{
    if values.len() > 0 {
        let shorter = values.drop_last();
        let last = values.last();
        lemma_text_items(shorter, name);
        let (before, after) = (text_items(shorter), text_items(values));
        if let Value::Text(text) = last {
            crate::lists::lemma_push_members(before, text);
            assert(after.contains(name) <==> after.to_set().contains(name));
            assert(before.contains(name) <==> before.to_set().contains(name));
        }
        assert(values =~= shorter.push(last));
        crate::lists::lemma_push_members(shorter, last);
        assert(values.contains(Value::Text(name)) <==> values.to_set().contains(Value::Text(name)));
        assert(shorter.contains(Value::Text(name)) <==> shorter.to_set().contains(
            Value::Text(name),
        ));
    }
}

/// A shared domain may be written when the turn asks for it under a writing
/// view and the deployment permits it, and not otherwise.
pub proof fn writing_needs_both(
    metadata: Seq<(Seq<char>, Value)>,
    permitted: Seq<Seq<char>>,
    values: Seq<Value>,
    name: Seq<char>,
)
    requires
        lookup(metadata, "memory_domains"@) == Some(Value::List(values)),
    ensures
        writable_domains(metadata, permitted).contains(name) <==> lookup(metadata, "memory_view"@)
            == Some(Value::Text("shared_readwrite"@)) && values.contains(Value::Text(name))
            && permitted.contains(name),
{
    lemma_text_items(values, name);
    let declared = declared_domains(metadata);
    assert(declared.to_set().contains(name) <==> declared.contains(name));
    assert(permitted.to_set().contains(name) <==> permitted.contains(name));
    reveal_strlit("shared_readwrite");
    reveal_strlit("shared_readonly");
}

/// A caller is the run's own agent and task, in the conversation and on the
/// channel its turn came from; where the turn names no conversation, the run
/// stands for one.
pub proof fn a_caller_is_who_the_run_is_for(
    caller: CallerView,
    log: Seq<ItemView>,
    system: SystemContext,
    readable: Seq<Seq<char>>,
    writable: Seq<Seq<char>>,
    domain: Seq<char>,
    id: Seq<char>,
    channel: Seq<char>,
)
    requires
        is_caller_of(caller, log, system, readable, writable),
    ensures
        caller.agent_id == system.active_agent@,
        caller.task_id == system.task_id@,
        caller.allowed_shared_domains.contains(domain) <==> readable.contains(domain),
        ({
            let metadata = caller_metadata(log, entries_view(system.metadata@));
            &&& lookup(metadata, "conversation_id"@) == Some(Value::Text(id))
                ==> caller.conversation_id == id
            &&& lookup(metadata, "conversation_id"@) is None ==> caller.conversation_id
                == system.run_id@
            &&& lookup(metadata, "channel_id"@) == Some(Value::Text(channel)) ==> caller.channel_id
                == channel
            &&& lookup(metadata, "channel_id"@) is None ==> caller.channel_id
                == "unknown-channel"@
        }),
{
    assert(caller.allowed_shared_domains.to_set().contains(domain)
        <==> caller.allowed_shared_domains.contains(domain));
    assert(readable.to_set().contains(domain) <==> readable.contains(domain));
}

} // verus!
