//! The single path from a run to the messages a provider sees.

use super::compact::visible_messages;
use super::projection::{newest_item_is_visible, visible, visible_of};
use super::prune::content_bytes;
use super::sections::{
    copy_sources, fragment_source, fragments_view, memory_message, memory_sources,
    recalled_message, section_name, skill_sources, sources_view, FragmentView, MemoryFragment,
    RequestSource, SectionId, SkillPrelude, SourceView,
};
use crate::message::{messages_view, Item, ItemView, Message, MessageView};
use crate::state::RunState;
use crate::text::{byte_length, texts};
use vstd::prelude::*;

verus! {

/// What one section contributed to a request.
pub struct SectionEntry {
    pub id: SectionId,
    /// Messages this section added.
    pub messages: usize,
    /// Bytes of text this section added, as a size proxy.
    pub chars: usize,
    /// Where this section's content can be derived from again.
    pub sources: Vec<RequestSource>,
}

/// What a [`SectionEntry`] stands for.
#[verifier::ext_equal]
pub struct EntryView {
    pub id: SectionId,
    pub messages: nat,
    pub chars: nat,
    pub sources: Seq<SourceView>,
}

impl View for SectionEntry {
    type V = EntryView;

    open spec fn view(&self) -> EntryView {
        EntryView {
            id: self.id,
            messages: self.messages as nat,
            chars: self.chars as nat,
            sources: sources_view(self.sources@),
        }
    }
}

/// The sections that contributed to one request, in assembly order. A section
/// that contributed nothing is absent.
pub struct PromptManifest {
    pub sections: Vec<SectionEntry>,
}

impl View for PromptManifest {
    type V = Seq<EntryView>;

    open spec fn view(&self) -> Seq<EntryView> {
        self.sections@.map_values(|s: SectionEntry| s@)
    }
}

/// The messages of several sections.
pub open spec fn sum_messages(entries: Seq<EntryView>) -> nat
    decreases entries.len(),
{
    if entries.len() == 0 {
        0
    } else {
        sum_messages(entries.drop_last()) + entries.last().messages
    }
}

/// The size of several sections.
pub open spec fn sum_chars(entries: Seq<EntryView>) -> nat
    decreases entries.len(),
{
    if entries.len() == 0 {
        0
    } else {
        sum_chars(entries.drop_last()) + entries.last().chars
    }
}

/// The messages of the first section with an id, zero when there is none.
pub open spec fn messages_of(entries: Seq<EntryView>, id: SectionId) -> nat
    decreases entries.len(),
{
    if entries.len() == 0 {
        0
    } else if entries[0].id == id {
        entries[0].messages
    } else {
        messages_of(entries.drop_first(), id)
    }
}

proof fn lemma_sums(entries: Seq<EntryView>, n: int)
    requires
        0 <= n <= entries.len(),
    ensures
        sum_messages(entries.take(n)) <= sum_messages(entries),
        sum_chars(entries.take(n)) <= sum_chars(entries),
    decreases entries.len() - n,
{
    if n < entries.len() {
        lemma_sums(entries, n + 1);
        assert(entries.take(n + 1).drop_last() =~= entries.take(n));
    } else {
        assert(entries.take(n) =~= entries);
    }
}

/// One section of a durable request header.
#[derive(Debug)]
pub struct RequestSection {
    pub id: String,
    pub messages: usize,
    pub chars: usize,
    pub sources: Vec<RequestSource>,
}

/// The durable record of what a request was made of.
#[derive(Debug)]
pub struct RequestHeader {
    pub sections: Vec<RequestSection>,
    pub total_messages: usize,
    pub total_chars: usize,
}

/// Whether a header section records exactly one manifest entry.
pub open spec fn records(section: RequestSection, entry: EntryView) -> bool {
    &&& section.id@ == section_name(entry.id)
    &&& section.messages == entry.messages
    &&& section.chars == entry.chars
    &&& sources_view(section.sources@) == entry.sources
}

/// Whether a header records exactly a manifest.
pub open spec fn is_header_of(header: RequestHeader, manifest: Seq<EntryView>) -> bool {
    &&& header.sections@.len() == manifest.len()
    &&& forall|i: int| 0 <= i < manifest.len() ==> records(#[trigger] header.sections@[i], manifest[i])
    &&& header.total_messages == sum_messages(manifest)
    &&& header.total_chars == sum_chars(manifest)
}

impl PromptManifest {
    /// Messages across every section.
    pub fn total_messages(&self) -> (total: usize)
        requires
            sum_messages(self@) <= usize::MAX,
        ensures
            total == sum_messages(self@),
    {
        let ghost all = self@;
        let mut total: usize = 0;
        let mut i: usize = 0;
        while i < self.sections.len()
            invariant
                i <= self.sections@.len(),
                all == self@,
                sum_messages(all) <= usize::MAX,
                total == sum_messages(all.take(i as int)),
            decreases self.sections@.len() - i,
        {
            proof {
                lemma_sums(all, i + 1);
                assert(all.take(i + 1).drop_last() =~= all.take(i as int));
                assert(all[i as int] == self.sections@[i as int]@);
            }
            total = total + self.sections[i].messages;
            i = i + 1;
        }
        assert(all.take(all.len() as int) =~= all);
        total
    }

    /// Size across every section.
    pub fn total_chars(&self) -> (total: usize)
        requires
            sum_chars(self@) <= usize::MAX,
        ensures
            total == sum_chars(self@),
    {
        let ghost all = self@;
        let mut total: usize = 0;
        let mut i: usize = 0;
        while i < self.sections.len()
            invariant
                i <= self.sections@.len(),
                all == self@,
                sum_chars(all) <= usize::MAX,
                total == sum_chars(all.take(i as int)),
            decreases self.sections@.len() - i,
        {
            proof {
                lemma_sums(all, i + 1);
                assert(all.take(i + 1).drop_last() =~= all.take(i as int));
                assert(all[i as int] == self.sections@[i as int]@);
            }
            total = total + self.sections[i].chars;
            i = i + 1;
        }
        assert(all.take(all.len() as int) =~= all);
        total
    }

    /// Messages contributed by one section, or 0 when it contributed nothing.
    pub fn messages_in(&self, id: SectionId) -> (count: usize)
        ensures
            count == messages_of(self@, id),
    {
        let ghost all = self@;
        let mut i: usize = 0;
        assert(all.skip(0) =~= all);
        while i < self.sections.len()
            invariant
                i <= self.sections@.len(),
                all == self@,
                messages_of(all, id) == messages_of(all.skip(i as int), id),
            decreases self.sections@.len() - i,
        {
            assert(all.skip(i as int)[0] == self.sections@[i as int]@);
            assert(all.skip(i as int).drop_first() =~= all.skip(i + 1));
            if self.sections[i].id == id {
                return self.sections[i].messages;
            }
            i = i + 1;
        }
        0
    }

    /// Projects this manifest into the durable header.
    pub fn header(&self) -> (out: RequestHeader)
        requires
            sum_messages(self@) <= usize::MAX,
            sum_chars(self@) <= usize::MAX,
        ensures
            is_header_of(out, self@),
    {
        let mut sections: Vec<RequestSection> = Vec::new();
        let mut i: usize = 0;
        while i < self.sections.len()
            invariant
                i <= self.sections@.len(),
                sections@.len() == i,
                forall|k: int| 0 <= k < i ==> records(#[trigger] sections@[k], self@[k]),
            decreases self.sections@.len() - i,
        {
            let entry = &self.sections[i];
            assert(self@[i as int] == entry@);
            sections.push(
                RequestSection {
                    id: entry.id.as_str().to_owned(),
                    messages: entry.messages,
                    chars: entry.chars,
                    sources: copy_sources(&entry.sources),
                },
            );
            i = i + 1;
        }
        RequestHeader {
            sections,
            total_messages: self.total_messages(),
            total_chars: self.total_chars(),
        }
    }
}

/// One assembled request and the record of what went into it.
pub struct Prompt {
    pub messages: Vec<Message>,
    pub manifest: PromptManifest,
}

/// What planning one turn works on: the run, the memory recalled for it, and
/// the headers of the requests assembled so far.
pub struct RunContext<'a> {
    pub state: &'a RunState,
    pub memory_fragments: Vec<MemoryFragment>,
    pub request_sink: Vec<RequestHeader>,
}

impl<'a> RunContext<'a> {
    /// A context with nothing recalled and nothing assembled yet.
    pub fn from_state(state: &'a RunState) -> (out: RunContext<'a>)
        ensures
            out.state == state,
            out.memory_fragments@.len() == 0,
            out.request_sink@.len() == 0,
    {
        RunContext { state, memory_fragments: Vec::new(), request_sink: Vec::new() }
    }
}

/// The entry of a section, when it contributed a message.
pub open spec fn entry_of(
    id: SectionId,
    messages: Seq<MessageView>,
    sources: Seq<SourceView>,
) -> Seq<EntryView> {
    if messages.len() == 0 {
        Seq::empty()
    } else {
        seq![EntryView { id, messages: messages.len(), chars: content_bytes(messages), sources }]
    }
}

/// What the skill prelude contributes.
pub open spec fn prelude_messages(prelude: Option<&SkillPrelude>) -> Seq<MessageView> {
    match prelude {
        Some(p) => seq![p.message@],
        None => Seq::empty(),
    }
}

/// Where the skill prelude came from.
pub open spec fn prelude_sources(prelude: Option<&SkillPrelude>) -> Seq<SourceView> {
    match prelude {
        Some(p) => skill_sources(texts(p.skills@)),
        None => Seq::empty(),
    }
}

/// What recalled memory contributes.
pub open spec fn memory_messages(fragments: Seq<FragmentView>) -> Seq<MessageView> {
    match recalled_message(fragments) {
        Some(message) => seq![message],
        None => Seq::empty(),
    }
}

/// The messages of a request: the skill prelude, then recalled memory, then
/// the visible conversation.
pub open spec fn assembled_messages(
    log: Seq<ItemView>,
    fragments: Seq<FragmentView>,
    prelude: Option<&SkillPrelude>,
) -> Seq<MessageView> {
    prelude_messages(prelude) + memory_messages(fragments) + visible_messages(log)
}

/// The manifest of a request: one entry per section that contributed.
pub open spec fn assembled_manifest(
    log: Seq<ItemView>,
    fragments: Seq<FragmentView>,
    prelude: Option<&SkillPrelude>,
) -> Seq<EntryView> {
    entry_of(SectionId::SkillPrelude, prelude_messages(prelude), prelude_sources(prelude))
        + entry_of(
        SectionId::Memory,
        memory_messages(fragments),
        fragments.map_values(|f: FragmentView| fragment_source(f)),
    ) + entry_of(SectionId::Transcript, visible_messages(log), Seq::empty())
}

proof fn lemma_content_concat(a: Seq<MessageView>, b: Seq<MessageView>)
    ensures
        content_bytes(a + b) == content_bytes(a) + content_bytes(b),
    decreases b.len(),
{
    if b.len() == 0 {
        assert(a + b =~= a);
    } else {
        lemma_content_concat(a, b.drop_last());
        assert((a + b).drop_last() =~= a + b.drop_last());
    }
}

proof fn lemma_entry_sums(before: Seq<EntryView>, id: SectionId, ms: Seq<MessageView>, sources: Seq<SourceView>)
    ensures
        sum_messages(before + entry_of(id, ms, sources)) == sum_messages(before) + ms.len(),
        sum_chars(before + entry_of(id, ms, sources)) == sum_chars(before) + content_bytes(ms),
{
    let entry = entry_of(id, ms, sources);
    if ms.len() == 0 {
        assert(before + entry =~= before);
    } else {
        assert((before + entry).drop_last() =~= before);
    }
}

/// The manifest accounts for the request: its totals are the number of
/// messages and the bytes of text actually sent.
pub proof fn manifest_accounts_for_every_message(
    log: Seq<ItemView>,
    fragments: Seq<FragmentView>,
    prelude: Option<&SkillPrelude>,
)
    ensures
        sum_messages(assembled_manifest(log, fragments, prelude)) == assembled_messages(
            log,
            fragments,
            prelude,
        ).len(),
        sum_chars(assembled_manifest(log, fragments, prelude)) == content_bytes(
            assembled_messages(log, fragments, prelude),
        ),
{
    let (p, m, t) = (prelude_messages(prelude), memory_messages(fragments), visible_messages(log));
    let sources = fragments.map_values(|f: FragmentView| fragment_source(f));
    lemma_content_concat(p, m);
    lemma_content_concat(p + m, t);
    let e0 = Seq::<EntryView>::empty();
    let e1 = entry_of(SectionId::SkillPrelude, p, prelude_sources(prelude));
    let e2 = entry_of(SectionId::Memory, m, sources);
    lemma_entry_sums(e0, SectionId::SkillPrelude, p, prelude_sources(prelude));
    assert(e0 + e1 =~= e1);
    lemma_entry_sums(e1, SectionId::Memory, m, sources);
    lemma_entry_sums(e1 + e2, SectionId::Transcript, t, Seq::empty());
}

/// A request ends on the newest turn of the conversation, not on injected
/// context.
pub proof fn request_ends_on_the_latest_turn(
    log: Seq<ItemView>,
    fragments: Seq<FragmentView>,
    prelude: Option<&SkillPrelude>,
)
    requires
        log.len() > 0,
    ensures
        assembled_messages(log, fragments, prelude).last() == log.last().message,
{
    newest_item_is_visible(log);
}

fn push_section(
    messages: &mut Vec<Message>,
    manifest: &mut PromptManifest,
    id: SectionId,
    sources: Vec<RequestSource>,
    rendered: Vec<Message>,
)
    requires
        content_bytes(messages_view(rendered@)) <= usize::MAX,
    ensures
        messages_view(final(messages)@) == messages_view(old(messages)@) + messages_view(rendered@),
        final(manifest)@ == old(manifest)@ + entry_of(
            id,
            messages_view(rendered@),
            sources_view(sources@),
        ),
{
    let ghost all = messages_view(rendered@);
    let ghost before = messages_view(messages@);
    let mut rendered = rendered;
    let count: usize = rendered.len();
    let mut chars: usize = 0;
    let mut i: usize = 0;
    while i < rendered.len()
        invariant
            i <= rendered@.len(),
            all == messages_view(rendered@),
            content_bytes(all) <= usize::MAX,
            chars == content_bytes(all.take(i as int)),
        decreases rendered@.len() - i,
    {
        proof {
            assert(all.take(i + 1).drop_last() =~= all.take(i as int));
            assert(all[i as int] == rendered@[i as int]@);
            super::prune::lemma_content_bytes(all, i + 1);
        }
        chars = chars + byte_length(rendered[i].content.as_str());
        i = i + 1;
    }
    assert(all.take(all.len() as int) =~= all);
    messages.append(&mut rendered);
    assert(messages_view(messages@) =~= before + all);
    if count > 0 {
        let ghost listed = manifest@;
        let entry = SectionEntry { id, messages: count, chars, sources };
        let ghost view = entry@;
        manifest.sections.push(entry);
        assert(manifest@ =~= listed.push(view));
        assert(manifest@ =~= listed + entry_of(id, all, sources_view(sources@)));
    } else {
        assert(manifest@ =~= old(manifest)@ + entry_of(id, all, sources_view(sources@)));
    }
}

/// Assembles the messages for one provider request and leaves its header in
/// the context's sink.
pub fn assemble(ctx: &mut RunContext<'_>, skill_prelude: Option<&SkillPrelude>) -> (out: Prompt)
    requires
        content_bytes(
            assembled_messages(
                old(ctx).state.transcript@,
                fragments_view(old(ctx).memory_fragments@),
                skill_prelude,
            ),
        ) <= usize::MAX,
    ensures
        messages_view(out.messages@) == assembled_messages(
            old(ctx).state.transcript@,
            fragments_view(old(ctx).memory_fragments@),
            skill_prelude,
        ),
        out.manifest@ == assembled_manifest(
            old(ctx).state.transcript@,
            fragments_view(old(ctx).memory_fragments@),
            skill_prelude,
        ),
        final(ctx).state == old(ctx).state,
        final(ctx).memory_fragments == old(ctx).memory_fragments,
        final(ctx).request_sink@.len() == old(ctx).request_sink@.len() + 1,
        final(ctx).request_sink@.drop_last() == old(ctx).request_sink@,
        is_header_of(final(ctx).request_sink@.last(), out.manifest@),
{
    let ghost log = ctx.state.transcript@;
    let ghost fragments = fragments_view(ctx.memory_fragments@);
    let ghost p = prelude_messages(skill_prelude);
    let ghost m = memory_messages(fragments);
    let ghost t = visible_messages(log);
    proof {
        lemma_content_concat(p, m);
        lemma_content_concat(p + m, t);
    }
    let mut messages: Vec<Message> = Vec::new();
    let mut manifest = PromptManifest { sections: Vec::new() };
    assert(messages_view(messages@) =~= Seq::empty());
    assert(manifest@ =~= Seq::empty());
    if let Some(prelude) = skill_prelude {
        let mut rendered: Vec<Message> = Vec::new();
        rendered.push(prelude.message.copy());
        assert(messages_view(rendered@) =~= p);
        push_section(
            &mut messages,
            &mut manifest,
            SectionId::SkillPrelude,
            prelude.sources(),
            rendered,
        );
    }
    let ghost e1 = entry_of(SectionId::SkillPrelude, p, prelude_sources(skill_prelude));
    assert(messages_view(messages@) =~= p);
    assert(manifest@ =~= e1);
    let recalled = memory_message(&ctx.memory_fragments);
    let ghost sources = fragments.map_values(|f: FragmentView| fragment_source(f));
    if let Some(memory) = recalled {
        let mut rendered: Vec<Message> = Vec::new();
        rendered.push(memory);
        assert(messages_view(rendered@) =~= m);
        push_section(
            &mut messages,
            &mut manifest,
            SectionId::Memory,
            memory_sources(&ctx.memory_fragments),
            rendered,
        );
    }
    let ghost e2 = entry_of(SectionId::Memory, m, sources);
    assert(messages_view(messages@) =~= p + m);
    assert(manifest@ =~= e1 + e2);
    let seen = visible(&ctx.state.transcript);
    let mut rendered: Vec<Message> = Vec::new();
    let mut i: usize = 0;
    assert(seen@.map_values(|x: &Item| x@).len() == visible_of(log).map_values(
        |q: int| log[q],
    ).len());
    while i < seen.len()
        invariant
            i <= seen@.len(),
            seen@.len() == t.len(),
            t == visible_messages(log),
            seen@.map_values(|x: &Item| x@) == visible_of(log).map_values(|q: int| log[q]),
            rendered@.len() == i,
            forall|k: int| 0 <= k < i ==> (#[trigger] rendered@[k])@ == t[k],
        decreases seen@.len() - i,
    {
        proof {
            assert(seen@.map_values(|x: &Item| x@)[i as int] == seen@[i as int]@);
            assert(visible_of(log).map_values(|q: int| log[q])[i as int] == log[visible_of(
                log,
            )[i as int]]);
        }
        rendered.push(seen[i].message.copy());
        i = i + 1;
    }
    assert(messages_view(rendered@) =~= t);
    let none: Vec<RequestSource> = Vec::new();
    assert(sources_view(none@) =~= Seq::empty());
    push_section(&mut messages, &mut manifest, SectionId::Transcript, none, rendered);
    proof {
        manifest_accounts_for_every_message(log, fragments, skill_prelude);
        assert(manifest@ =~= assembled_manifest(log, fragments, skill_prelude));
        assert(messages_view(messages@).len() == messages@.len());
    }
    let sent: usize = messages.len();
    assert(sent == sum_messages(manifest@));
    let header = manifest.header();
    let ghost sink = ctx.request_sink@;
    ctx.request_sink.push(header);
    assert(ctx.request_sink@.drop_last() =~= sink);
    Prompt { messages, manifest }
}

fn total_bytes(messages: &Vec<Message>, start: Option<usize>) -> (total: Option<usize>)
    ensures
        start matches Some(bytes) ==> (total matches Some(sum) ==> sum == bytes + content_bytes(
            messages_view(messages@),
        )),
        start matches Some(bytes) ==> (total is None <==> bytes + content_bytes(
            messages_view(messages@),
        ) > usize::MAX),
        start is None ==> total is None,
{
    let ghost all = messages_view(messages@);
    let mut total = start;
    let mut i: usize = 0;
    while i < messages.len()
        invariant
            i <= messages@.len(),
            all == messages_view(messages@),
            start is None ==> total is None,
            start matches Some(bytes) ==> (total matches Some(sum) ==> sum == bytes
                + content_bytes(all.take(i as int))),
            start matches Some(bytes) ==> (total is None <==> bytes + content_bytes(
                all.take(i as int),
            ) > usize::MAX),
        decreases messages@.len() - i,
    {
        proof {
            assert(all.take(i + 1).drop_last() =~= all.take(i as int));
            assert(all[i as int] == messages@[i as int]@);
        }
        total = match total {
            Some(sum) => sum.checked_add(byte_length(messages[i].content.as_str())),
            None => None,
        };
        i = i + 1;
    }
    assert(all.take(all.len() as int) =~= all);
    total
}

/// Assembles a request when its text can be counted at all: `None`, and the
/// context unchanged, when the bytes of it are past what a machine word holds.
pub fn try_assemble(ctx: &mut RunContext<'_>, skill_prelude: Option<&SkillPrelude>) -> (out: Option<
    Prompt,
>)
    ensures
        out is None <==> content_bytes(
            assembled_messages(
                old(ctx).state.transcript@,
                fragments_view(old(ctx).memory_fragments@),
                skill_prelude,
            ),
        ) > usize::MAX,
        out is None ==> *final(ctx) == *old(ctx),
        out matches Some(prompt) ==> {
            &&& messages_view(prompt.messages@) == assembled_messages(
                old(ctx).state.transcript@,
                fragments_view(old(ctx).memory_fragments@),
                skill_prelude,
            )
            &&& prompt.manifest@ == assembled_manifest(
                old(ctx).state.transcript@,
                fragments_view(old(ctx).memory_fragments@),
                skill_prelude,
            )
            &&& final(ctx).state == old(ctx).state
            &&& final(ctx).memory_fragments == old(ctx).memory_fragments
            &&& final(ctx).request_sink@.len() == old(ctx).request_sink@.len() + 1
            &&& final(ctx).request_sink@.drop_last() == old(ctx).request_sink@
            &&& is_header_of(final(ctx).request_sink@.last(), prompt.manifest@)
        },
{
    let ghost log = ctx.state.transcript@;
    let ghost fragments = fragments_view(ctx.memory_fragments@);
    let ghost p = prelude_messages(skill_prelude);
    let ghost m = memory_messages(fragments);
    let ghost t = visible_messages(log);
    proof {
        lemma_content_concat(p, m);
        lemma_content_concat(p + m, t);
    }
    let mut lead: Vec<Message> = Vec::new();
    if let Some(prelude) = skill_prelude {
        lead.push(prelude.message.copy());
    }
    assert(messages_view(lead@) =~= p);
    if let Some(memory) = memory_message(&ctx.memory_fragments) {
        lead.push(memory);
    }
    assert(messages_view(lead@) =~= p + m);
    let seen = visible(&ctx.state.transcript);
    let mut tail: Vec<Message> = Vec::new();
    let mut i: usize = 0;
    assert(seen@.map_values(|x: &Item| x@).len() == visible_of(log).map_values(
        |q: int| log[q],
    ).len());
    while i < seen.len()
        invariant
            i <= seen@.len(),
            seen@.len() == t.len(),
            t == visible_messages(log),
            seen@.map_values(|x: &Item| x@) == visible_of(log).map_values(|q: int| log[q]),
            tail@.len() == i,
            forall|k: int| 0 <= k < i ==> (#[trigger] tail@[k])@ == t[k],
        decreases seen@.len() - i,
    {
        proof {
            assert(seen@.map_values(|x: &Item| x@)[i as int] == seen@[i as int]@);
            assert(visible_of(log).map_values(|q: int| log[q])[i as int] == log[visible_of(
                log,
            )[i as int]]);
        }
        tail.push(seen[i].message.copy());
        i = i + 1;
    }
    assert(messages_view(tail@) =~= t);
    let first = total_bytes(&lead, Some(0));
    let total = total_bytes(&tail, first);
    match total {
        Some(_) => Some(assemble(ctx, skill_prelude)),
        None => None,
    }
}

/// A request holds the whole visible conversation, every message as it was said
/// and in order, after the prelude and what was recalled; and nothing else.
pub proof fn a_request_holds_the_conversation(
    log: Seq<ItemView>,
    fragments: Seq<FragmentView>,
    prelude: Option<&SkillPrelude>,
    k: int,
)
    ensures
        ({
            let sent = assembled_messages(log, fragments, prelude);
            let lead = (if prelude is Some {
                1int
            } else {
                0int
            }) + (if fragments.len() > 0 {
                1int
            } else {
                0int
            });
            &&& sent.len() == lead + visible_of(log).len()
            &&& 0 <= k < visible_of(log).len() ==> sent[lead + k] == log[visible_of(
                log,
            )[k]].message
            &&& prelude matches Some(p) ==> sent[0] == p.message@
            &&& fragments.len() > 0 ==> Some(
                sent[if prelude is Some {
                    1int
                } else {
                    0int
                }],
            ) == recalled_message(fragments)
        }),
{
}

/// The manifest lists the sections that contributed, in the order they were
/// sent, and where each came from.
pub proof fn the_manifest_lists_what_contributed(
    log: Seq<ItemView>,
    fragments: Seq<FragmentView>,
    prelude: Option<&SkillPrelude>,
    id: SectionId,
)
    ensures
        ({
            let manifest = assembled_manifest(log, fragments, prelude);
            (exists|i: int| 0 <= i < manifest.len() && (#[trigger] manifest[i]).id == id) <==> (id
                == SectionId::SkillPrelude && prelude is Some) || (id == SectionId::Memory
                && fragments.len() > 0) || (id == SectionId::Transcript && visible_of(log).len()
                > 0)
        }),
{
    let manifest = assembled_manifest(log, fragments, prelude);
    let a: int = if prelude is Some {
        1
    } else {
        0
    };
    let b: int = if fragments.len() > 0 {
        1
    } else {
        0
    };
    if prelude is Some {
        assert(manifest[0].id == SectionId::SkillPrelude);
    }
    if fragments.len() > 0 {
        assert(manifest[a].id == SectionId::Memory);
    }
    if visible_of(log).len() > 0 {
        assert(visible_messages(log).len() == visible_of(log).len());
        assert(manifest[a + b].id == SectionId::Transcript);
    }
}

/// The messages of a section are those of its first entry.
pub proof fn the_first_entry_of_a_section_counts(entries: Seq<EntryView>, id: SectionId, i: int)
    requires
        0 <= i < entries.len(),
        entries[i].id == id,
        forall|j: int| 0 <= j < i ==> (#[trigger] entries[j]).id != id,
    ensures
        messages_of(entries, id) == entries[i].messages,
    decreases entries.len(),
{
    if i > 0 {
        let rest = entries.drop_first();
        assert(entries[0].id != id);
        assert forall|j: int| 0 <= j < i - 1 implies (#[trigger] rest[j]).id != id by {
            assert(rest[j] == entries[j + 1]);
        }
        the_first_entry_of_a_section_counts(rest, id, i - 1);
    }
}

/// The totals of two runs of sections add up, and one section counts for what
/// it says.
pub proof fn totals_add_up(a: Seq<EntryView>, b: Seq<EntryView>)
    ensures
        sum_messages(a + b) == sum_messages(a) + sum_messages(b),
        sum_chars(a + b) == sum_chars(a) + sum_chars(b),
        a.len() == 1 ==> sum_messages(a) == a[0].messages && sum_chars(a) == a[0].chars,
        a.len() == 0 ==> sum_messages(a) == 0 && sum_chars(a) == 0,
    decreases b.len(),
{
    if a.len() == 1 {
        assert(a.drop_last() =~= Seq::empty());
        assert(sum_messages(a.drop_last()) == 0);
        assert(sum_chars(a.drop_last()) == 0);
    }
    if b.len() == 0 {
        assert(a + b =~= a);
    } else {
        totals_add_up(a, b.drop_last());
        assert((a + b).drop_last() =~= a + b.drop_last());
    }
}

} // verus!
