//! The session log, and the epoch that makes clearing it a projection.
//!
//! Items are appended under dense ordinals and never rewritten. Clearing
//! appends a marker; what a participant sees starts at the newest marker that
//! is theirs or the whole conversation's. The one operation that deletes is a
//! purge confirmed with the item count.

use crate::identity::{storage_name_is_injective, Identity, Principal};
use crate::message::{items_view, Item, ItemView, Transcript};
use crate::ranking::{
    best_first, descending_order, every_entry_is_ranked_by_its_score, positions,
};
use crate::text::{decimal, push_decimal, same};
use vstd::prelude::*;

verus! {

/// Why a session operation was refused.
#[derive(Debug)]
pub enum SessionError {
    Backend(String),
}

/// A marker: from `ordinal` on, the conversation is shown to `principal`.
pub struct Epoch {
    pub principal: String,
    pub ordinal: u64,
}

/// The markers of a list.
pub open spec fn epochs_view(epochs: Seq<Epoch>) -> Seq<(Seq<char>, nat)> {
    epochs.map_values(|e: Epoch| (e.principal@, e.ordinal as nat))
}

/// Everything recorded for one conversation.
pub struct ConversationLog {
    pub key: String,
    /// The ordinal of the first item.
    pub start: u64,
    pub items: Vec<Item>,
    pub epochs: Vec<Epoch>,
}

/// What a [`ConversationLog`] holds.
#[verifier::ext_equal]
pub struct LogView {
    pub start: nat,
    pub items: Seq<ItemView>,
    pub epochs: Seq<(Seq<char>, nat)>,
}

impl ConversationLog {
    /// What is recorded, under whatever key.
    pub open spec fn held(&self) -> LogView {
        LogView {
            start: self.start as nat,
            items: items_view(self.items@),
            epochs: epochs_view(self.epochs@),
        }
    }
}

/// The log of a conversation nothing was recorded for.
pub open spec fn empty_log() -> LogView {
    LogView { start: 0, items: Seq::empty(), epochs: Seq::empty() }
}

/// The newest of the first `n` markers that bind one of two names.
pub open spec fn epoch_among(
    epochs: Seq<(Seq<char>, nat)>,
    own: Seq<char>,
    all: Seq<char>,
    n: int,
) -> nat
    decreases n,
{
    if n <= 0 {
        0
    } else {
        let before = epoch_among(epochs, own, all, n - 1);
        let (principal, ordinal) = epochs[n - 1];
        if (principal == own || principal == all) && ordinal > before {
            ordinal
        } else {
            before
        }
    }
}

impl LogView {
    /// The ordinal the next item gets.
    pub open spec fn next(self) -> nat {
        if self.items.len() == 0 {
            0
        } else {
            self.start + self.items.len()
        }
    }

    /// Where a participant's visible history starts: the newest marker of
    /// their own or of the whole conversation.
    pub open spec fn epoch(self, id: Identity) -> nat {
        epoch_among(
            self.epochs,
            id.name(),
            id.conversation_only().name(),
            self.epochs.len() as int,
        )
    }

    /// The items a participant sees.
    pub open spec fn visible(self, id: Identity) -> Seq<ItemView> {
        let epoch = self.epoch(id);
        if epoch <= self.start {
            self.items
        } else if epoch >= self.start + self.items.len() {
            Seq::empty()
        } else {
            self.items.skip(epoch - self.start)
        }
    }

    /// Whether a log is well formed: ordinals fit, and an empty log starts
    /// over.
    pub open spec fn wf(self) -> bool {
        &&& self.items.len() == 0 ==> self.start == 0
        &&& self.start + self.items.len() <= u64::MAX
    }

    /// Whether no marker lies past the next ordinal.
    pub open spec fn marks_within(self) -> bool {
        forall|i: int| 0 <= i < self.epochs.len() ==> (#[trigger] self.epochs[i]).1 <= self.next()
    }

    /// The log once a participant cleared it.
    pub open spec fn cleared(self, id: Identity) -> LogView {
        LogView { epochs: self.epochs.push((id.name(), self.next())), ..self }
    }

    /// The log with more items.
    pub open spec fn appended(self, more: Seq<ItemView>) -> LogView {
        LogView { items: self.items + more, ..self }
    }

    /// The log seeded with the first `boundary` items a participant sees of a
    /// source, under their ordinals.
    pub open spec fn forked(self, source: LogView, id: Identity, boundary: nat) -> LogView {
        let seen = source.visible(id);
        let count = if boundary < seen.len() {
            boundary
        } else {
            seen.len()
        };
        LogView {
            start: if count == 0 {
                0
            } else {
                (source.start + (source.items.len() - seen.len())) as nat
            },
            items: seen.take(count as int),
            ..self
        }
    }
}

proof fn lemma_epoch_among(epochs: Seq<(Seq<char>, nat)>, own: Seq<char>, all: Seq<char>, n: int, bound: nat)
    requires
        0 <= n <= epochs.len(),
        forall|i: int| 0 <= i < epochs.len() ==> (#[trigger] epochs[i]).1 <= bound,
    ensures
        epoch_among(epochs, own, all, n) <= bound,
    decreases n,
{
    if n > 0 {
        lemma_epoch_among(epochs, own, all, n - 1, bound);
    }
}

proof fn lemma_epoch_prefix(
    epochs: Seq<(Seq<char>, nat)>,
    more: (Seq<char>, nat),
    own: Seq<char>,
    all: Seq<char>,
    n: int,
)
    requires
        0 <= n <= epochs.len(),
    ensures
        epoch_among(epochs.push(more), own, all, n) == epoch_among(epochs, own, all, n),
    decreases n,
{
    if n > 0 {
        lemma_epoch_prefix(epochs, more, own, all, n - 1);
        assert(epochs.push(more)[n - 1] == epochs[n - 1]);
    }
}

/// Clearing hides everything there is from the one who cleared, and from
/// everyone in the conversation when nobody in particular did. It removes
/// nothing.
pub proof fn clearing_hides_and_removes_nothing(log: LogView, id: Identity, other: Identity)
    requires
        log.wf(),
        other == id || (id.sender is None && other.conversation_only() == id),
    ensures
        log.cleared(id).wf(),
        log.cleared(id).items == log.items,
        log.cleared(id).visible(other).len() == 0,
{
    let after = log.cleared(id);
    let own = other.name();
    let all = other.conversation_only().name();
    lemma_epoch_prefix(log.epochs, (id.name(), log.next()), own, all, log.epochs.len() as int);
    assert(after.epochs[log.epochs.len() as int] == (id.name(), log.next()));
    assert(after.epoch(other) >= log.next());
}

/// One participant's clear leaves what another sees alone.
pub proof fn clearing_is_personal(log: LogView, id: Identity, other: Identity)
    requires
        id.sender is Some,
        other != id,
    ensures
        log.cleared(id).visible(other) == log.visible(other),
{
    let own = other.name();
    let all = other.conversation_only().name();
    lemma_epoch_prefix(log.epochs, (id.name(), log.next()), own, all, log.epochs.len() as int);
    storage_name_is_injective(id, other);
    storage_name_is_injective(id, other.conversation_only());
    assert(log.cleared(id).epochs.last().0 != own);
    assert(log.cleared(id).epoch(other) == log.epoch(other));
}

/// Nobody's visible history ever grows backwards: a clear never lowers an
/// epoch.
pub proof fn epochs_only_advance(log: LogView, id: Identity, other: Identity)
    ensures
        log.epoch(other) <= log.cleared(id).epoch(other),
{
    lemma_epoch_prefix(
        log.epochs,
        (id.name(), log.next()),
        other.name(),
        other.conversation_only().name(),
        log.epochs.len() as int,
    );
}

/// What is said after a clear is all that is seen: appended items follow
/// directly on the marker.
pub proof fn after_a_clear_only_new_items_show(log: LogView, id: Identity, more: Seq<ItemView>)
    requires
        log.wf(),
        log.marks_within(),
    ensures
        log.cleared(id).appended(more).visible(id) == more,
{
    clearing_hides_and_removes_nothing(log, id, id);
    let after = log.cleared(id).appended(more);
    let own = id.name();
    let all = id.conversation_only().name();
    lemma_epoch_prefix(log.epochs, (id.name(), log.next()), own, all, log.epochs.len() as int);
    lemma_epoch_among(log.epochs, own, all, log.epochs.len() as int, log.next());
    assert(after.epochs[log.epochs.len() as int] == (id.name(), log.next()));
    assert(after.epoch(id) == log.next());
    if log.items.len() == 0 {
        assert(after.items =~= more);
    } else if more.len() > 0 {
        assert(after.items.skip(log.items.len() as int) =~= more);
    } else {
        assert(after.visible(id) =~= more);
    }
}

/// Appending adds to what is seen and changes none of it.
pub proof fn appending_extends_the_view(log: LogView, id: Identity, more: Seq<ItemView>)
    requires
        log.wf(),
        log.marks_within(),
    ensures
        log.appended(more).visible(id) == log.visible(id) + more,
        log.appended(more).items.take(log.items.len() as int) == log.items,
{
    let after = log.appended(more);
    lemma_epoch_among(
        log.epochs,
        id.name(),
        id.conversation_only().name(),
        log.epochs.len() as int,
        log.next(),
    );
    assert(after.epoch(id) == log.epoch(id));
    assert(after.items.take(log.items.len() as int) =~= log.items);
    let epoch = log.epoch(id);
    if epoch > log.start {
        assert(after.items.skip(epoch - log.start) =~= log.items.skip(epoch - log.start) + more);
    }
    assert(after.visible(id) =~= log.visible(id) + more);
}

/// A fork shows everyone of the child exactly the prefix of what the source's
/// participant saw; hidden history is not copied.
pub proof fn fork_shows_the_visible_prefix(
    child: LogView,
    source: LogView,
    id: Identity,
    boundary: nat,
    reader: Identity,
)
    requires
        child.wf(),
        child.marks_within(),
        child.items.len() == 0,
        source.wf(),
    ensures
        child.forked(source, id, boundary).visible(reader) == source.visible(id).take(
            if boundary < source.visible(id).len() {
                boundary as int
            } else {
                source.visible(id).len() as int
            },
        ),
{
    let after = child.forked(source, id, boundary);
    lemma_epoch_among(
        child.epochs,
        reader.name(),
        reader.conversation_only().name(),
        child.epochs.len() as int,
        0,
    );
    assert(after.epoch(reader) == 0);
}

/// No operation puts a marker past the end of a log: none is there in a log
/// nothing was recorded for, and a clear, more items and a fork keep it so.
pub proof fn markers_stay_within(
    log: LogView,
    id: Identity,
    more: Seq<ItemView>,
    source: LogView,
    reader: Identity,
    boundary: nat,
)
    requires
        log.marks_within(),
    ensures
        empty_log().marks_within(),
        log.cleared(id).marks_within(),
        log.appended(more).marks_within(),
        log.items.len() == 0 ==> log.forked(source, reader, boundary).marks_within(),
{
    let cleared = log.cleared(id);
    assert forall|i: int| 0 <= i < cleared.epochs.len() implies (#[trigger] cleared.epochs[i]).1
        <= cleared.next() by {
        if i < log.epochs.len() {
            assert(cleared.epochs[i] == log.epochs[i]);
        }
    }
}

/// The log under a key among several; empty when there is none.
pub open spec fn log_of(logs: Seq<ConversationLog>, key: Seq<char>) -> LogView
    decreases logs.len(),
{
    if logs.len() == 0 {
        empty_log()
    } else if logs.last().key@ == key {
        logs.last().held()
    } else {
        log_of(logs.drop_last(), key)
    }
}

/// A purge that happened, for the safety record.
pub struct PurgeEvent {
    pub conversation: String,
    pub detail: String,
}

/// Every conversation's log.
pub struct SessionStore {
    pub logs: Vec<ConversationLog>,
    /// The purges performed, oldest first.
    pub purges: Vec<PurgeEvent>,
}

spec fn keys_differ(logs: Seq<ConversationLog>) -> bool {
    forall|i: int, j: int|
        0 <= i < j < logs.len() ==> (#[trigger] logs[i]).key@ != (#[trigger] logs[j]).key@
}

proof fn lemma_log_of_update(logs: Seq<ConversationLog>, at: int, log: ConversationLog, other: Seq<char>)
    requires
        0 <= at < logs.len(),
        logs[at].key@ == log.key@,
        keys_differ(logs),
    ensures
        log_of(logs.update(at, log), log.key@) == log.held(),
        other != log.key@ ==> log_of(logs.update(at, log), other) == log_of(logs, other),
    decreases logs.len(),
{
    let after = logs.update(at, log);
    if at < logs.len() - 1 {
        lemma_log_of_update(logs.drop_last(), at, log, other);
        assert(after.drop_last() =~= logs.drop_last().update(at, log));
        assert(logs[at].key@ != logs[logs.len() - 1].key@);
    } else {
        assert(after.drop_last() =~= logs.drop_last());
    }
}

proof fn lemma_log_absent(logs: Seq<ConversationLog>, key: Seq<char>)
    requires
        forall|i: int| 0 <= i < logs.len() ==> (#[trigger] logs[i]).key@ != key,
    ensures
        log_of(logs, key) == empty_log(),
    decreases logs.len(),
{
    if logs.len() > 0 {
        assert(logs[logs.len() - 1].key@ != key);
        assert forall|i: int| 0 <= i < logs.drop_last().len() implies (
        #[trigger] logs.drop_last()[i]).key@ != key by {
            assert(logs.drop_last()[i] == logs[i]);
        }
        lemma_log_absent(logs.drop_last(), key);
    }
}

proof fn lemma_log_of_index(logs: Seq<ConversationLog>, at: int)
    requires
        0 <= at < logs.len(),
        keys_differ(logs),
    ensures
        log_of(logs, logs[at].key@) == logs[at].held(),
    decreases logs.len(),
{
    if at < logs.len() - 1 {
        assert(logs[at].key@ != logs[logs.len() - 1].key@);
        assert(logs.drop_last()[at] == logs[at]);
        lemma_log_of_index(logs.drop_last(), at);
    }
}

proof fn lemma_log_of_wf(logs: Seq<ConversationLog>, key: Seq<char>)
    requires
        forall|i: int| 0 <= i < logs.len() ==> (#[trigger] logs[i]).held().wf(),
    ensures
        log_of(logs, key).wf(),
    decreases logs.len(),
{
    if logs.len() > 0 {
        assert(logs[logs.len() - 1].held().wf());
        assert forall|i: int| 0 <= i < logs.drop_last().len() implies (
        #[trigger] logs.drop_last()[i]).held().wf() by {
            assert(logs.drop_last()[i] == logs[i]);
        }
        lemma_log_of_wf(logs.drop_last(), key);
    }
}

fn epoch_of(log: &ConversationLog, principal: &Principal) -> (epoch: u64)
    ensures
        epoch == log.held().epoch(principal@),
{
    let own = principal.storage_name();
    let all = principal.conversation_name();
    let ghost marks = epochs_view(log.epochs@);
    let mut epoch: u64 = 0;
    let mut i: usize = 0;
    while i < log.epochs.len()
        invariant
            i <= log.epochs@.len(),
            marks == epochs_view(log.epochs@),
            own@ == principal@.name(),
            all@ == principal@.conversation_only().name(),
            epoch == epoch_among(marks, own@, all@, i as int),
        decreases log.epochs@.len() - i,
    {
        let mark = &log.epochs[i];
        assert(marks[i as int] == (mark.principal@, mark.ordinal as nat));
        if (same(mark.principal.as_str(), own.as_str()) || same(
            mark.principal.as_str(),
            all.as_str(),
        )) && mark.ordinal > epoch {
            epoch = mark.ordinal;
        }
        i = i + 1;
    }
    epoch
}

fn next_of(log: &ConversationLog) -> (next: u64)
    requires
        log.held().wf(),
    ensures
        next == log.held().next(),
{
    if log.items.len() == 0 {
        0
    } else {
        log.start + log.items.len() as u64
    }
}

fn copy_range(items: &Vec<Item>, from: usize, to: usize) -> (out: Vec<Item>)
    requires
        from <= to <= items@.len(),
    ensures
        items_view(out@) == items_view(items@).subrange(from as int, to as int),
{
    let mut out: Vec<Item> = Vec::new();
    let mut i: usize = from;
    while i < to
        invariant
            from <= i <= to <= items@.len(),
            out@.len() == i - from,
            forall|k: int| 0 <= k < i - from ==> (#[trigger] out@[k])@ == items@[from + k]@,
        decreases to - i,
    {
        out.push(items[i].copy());
        i = i + 1;
    }
    assert(items_view(out@) =~= items_view(items@).subrange(from as int, to as int));
    out
}

/// The position of the first visible item.
fn first_visible(log: &ConversationLog, principal: &Principal) -> (from: usize)
    ensures
        from <= log.items@.len(),
        log.held().visible(principal@) == log.held().items.skip(from as int),
{
    let epoch: u64 = epoch_of(log, principal);
    let len: usize = log.items.len();
    if epoch <= log.start {
        assert(log.held().items.skip(0) =~= log.held().items);
        0
    } else if epoch - log.start >= len as u64 {
        assert(log.held().items.skip(len as int) =~= Seq::empty());
        len
    } else {
        (epoch - log.start) as usize
    }
}

impl SessionStore {
    /// Whether no key has two logs and every log is well formed.
    pub open spec fn wf(&self) -> bool {
        &&& forall|i: int, j: int|
            0 <= i < j < self.logs@.len() ==> (#[trigger] self.logs@[i]).key@ != (
            #[trigger] self.logs@[j]).key@
        &&& forall|i: int| 0 <= i < self.logs@.len() ==> (#[trigger] self.logs@[i]).held().wf()
    }

    /// What is recorded for the conversation of a principal.
    pub open spec fn log(&self, id: Identity) -> LogView {
        log_of(self.logs@, id.conversation_only().name())
    }

    /// A store without conversations.
    pub fn new() -> (out: SessionStore)
        ensures
            out.wf(),
            forall|id: Identity| #[trigger] out.log(id) == empty_log(),
            out.purges@.len() == 0,
    {
        SessionStore { logs: Vec::new(), purges: Vec::new() }
    }

    fn position(&self, key: &str) -> (at: Option<usize>)
        requires
            self.wf(),
        ensures
            at matches Some(i) ==> i < self.logs@.len() && self.logs@[i as int].key@ == key@
                && log_of(self.logs@, key@) == self.logs@[i as int].held(),
            at is None ==> log_of(self.logs@, key@) == empty_log() && forall|i: int|
                0 <= i < self.logs@.len() ==> (#[trigger] self.logs@[i]).key@ != key@,
    {
        let mut i: usize = 0;
        while i < self.logs.len()
            invariant
                i <= self.logs@.len(),
                self.wf(),
                forall|k: int| 0 <= k < i ==> (#[trigger] self.logs@[k]).key@ != key@,
            decreases self.logs@.len() - i,
        {
            if same(self.logs[i].key.as_str(), key) {
                proof {
                    lemma_log_of_index(self.logs@, i as int);
                }
                return Some(i);
            }
            i = i + 1;
        }
        proof {
            lemma_log_absent(self.logs@, key@);
        }
        None
    }

    /// The position of a conversation's log, which is created empty when there
    /// is none.
    fn open(&mut self, key: &str) -> (at: usize)
        requires
            old(self).wf(),
        ensures
            final(self).wf(),
            at < final(self).logs@.len(),
            final(self).logs@[at as int].key@ == key@,
            final(self).logs@[at as int].held() == log_of(old(self).logs@, key@),
            forall|other: Seq<char>|
                #[trigger] log_of(final(self).logs@, other) == log_of(old(self).logs@, other),
            final(self).purges == old(self).purges,
    {
        match self.position(key) {
            Some(i) => i,
            None => {
                let log = ConversationLog {
                    key: key.to_owned(),
                    start: 0,
                    items: Vec::new(),
                    epochs: Vec::new(),
                };
                assert(log.held() =~= empty_log());
                let ghost before = self.logs@;
                self.logs.push(log);
                proof {
                    assert(self.logs@.drop_last() =~= before);
                }
                self.logs.len() - 1
            },
        }
    }

    /// Puts a log in the place of another one of the same conversation.
    fn replace(&mut self, at: usize, log: ConversationLog)
        requires
            old(self).wf(),
            at < old(self).logs@.len(),
            old(self).logs@[at as int].key@ == log.key@,
            log.held().wf(),
        ensures
            final(self).wf(),
            log_of(final(self).logs@, log.key@) == log.held(),
            forall|other: Seq<char>|
                other != log.key@ ==> #[trigger] log_of(final(self).logs@, other) == log_of(
                    old(self).logs@,
                    other,
                ),
            final(self).purges == old(self).purges,
    {
        let ghost before = self.logs@;
        self.logs.set(at, log);
        proof {
            assert(self.logs@ =~= before.update(at as int, log));
            lemma_log_of_update(before, at as int, log, log.key@);
            assert forall|other: Seq<char>| other != log.key@ implies #[trigger] log_of(
                self.logs@,
                other,
            ) == log_of(before, other) by {
                lemma_log_of_update(before, at as int, log, other);
            }
        }
    }

    /// Starts a new epoch for a participant, or for the whole conversation
    /// when nobody is named, and says how many items it hides from them.
    pub fn clear_session(&mut self, principal: &Principal) -> (hidden: usize)
        requires
            old(self).wf(),
        ensures
            final(self).wf(),
            final(self).log(principal@) == old(self).log(principal@).cleared(principal@),
            hidden == old(self).log(principal@).visible(principal@).len(),
            forall|other: Identity|
                other.conversation_only() != principal@.conversation_only()
                    ==> #[trigger] final(self).log(other) == old(self).log(other),
            final(self).purges == old(self).purges,
    {
        let key = principal.conversation_name();
        let ghost before = self.log(principal@);
        let at: usize = self.open(key.as_str());
        let log = &self.logs[at];
        let next: u64 = next_of(log);
        let from: usize = first_visible(log, principal);
        let hidden: usize = log.items.len() - from;
        assert(log.held().items.len() == log.items@.len());
        let mut epochs = copy_epochs(&log.epochs);
        epochs.push(Epoch { principal: principal.storage_name(), ordinal: next });
        let replacement = ConversationLog {
            key: key.clone(),
            start: log.start,
            items: copy_range(&log.items, 0, log.items.len()),
            epochs,
        };
        proof {
            assert(items_view(log.items@).subrange(0, log.items@.len() as int) =~= items_view(
                log.items@,
            ));
            assert(replacement.held() =~= before.cleared(principal@));
            clearing_hides_and_removes_nothing(before, principal@, principal@);
        }
        self.replace(at, replacement);
        proof {
            lemma_other_keys(principal@);
        }
        hidden
    }

    /// Every item ever written for a conversation, epochs ignored.
    pub fn session_log(&self, principal: &Principal) -> (items: Vec<Item>)
        requires
            self.wf(),
        ensures
            items_view(items@) == self.log(principal@).items,
    {
        let key = principal.conversation_name();
        match self.position(key.as_str()) {
            Some(i) => {
                let log = &self.logs[i];
                assert(items_view(log.items@).subrange(0, log.items@.len() as int) =~= items_view(
                    log.items@,
                ));
                copy_range(&log.items, 0, log.items.len())
            },
            None => {
                let items: Vec<Item> = Vec::new();
                assert(items_view(items@) =~= Seq::empty());
                items
            },
        }
    }

    /// The transcript a participant sees.
    pub fn load(&self, principal: &Principal) -> (out: Transcript)
        requires
            self.wf(),
        ensures
            out@ == self.log(principal@).visible(principal@),
    {
        let key = principal.conversation_name();
        match self.position(key.as_str()) {
            Some(i) => {
                let log = &self.logs[i];
                let from: usize = first_visible(log, principal);
                assert(items_view(log.items@).subrange(from as int, log.items@.len() as int)
                    =~= items_view(log.items@).skip(from as int));
                Transcript { items: copy_range(&log.items, from, log.items.len()) }
            },
            None => {
                let out = Transcript { items: Vec::new() };
                assert(out@ =~= Seq::empty());
                out
            },
        }
    }

    /// Appends items to a conversation, whoever speaks.
    pub fn append(&mut self, principal: &Principal, items: Vec<Item>)
        requires
            old(self).wf(),
            old(self).log(principal@).start + old(self).log(principal@).items.len() + items@.len()
                <= u64::MAX,
        ensures
            final(self).wf(),
            final(self).log(principal@) == old(self).log(principal@).appended(items_view(items@)),
            forall|other: Identity|
                other.conversation_only() != principal@.conversation_only()
                    ==> #[trigger] final(self).log(other) == old(self).log(other),
            final(self).purges == old(self).purges,
    {
        let ghost more = items_view(items@);
        let ghost before = self.log(principal@);
        if items.len() == 0 {
            assert(before.appended(more) =~= before);
            return;
        }
        let key = principal.conversation_name();
        let mut items = items;
        let at: usize = self.open(key.as_str());
        let log = &self.logs[at];
        let mut all = copy_range(&log.items, 0, log.items.len());
        all.append(&mut items);
        let replacement = ConversationLog {
            key: key.clone(),
            start: log.start,
            items: all,
            epochs: copy_epochs(&log.epochs),
        };
        proof {
            assert(items_view(log.items@).subrange(0, log.items@.len() as int) =~= items_view(
                log.items@,
            ));
            assert(items_view(all@) =~= before.items + more);
            assert(replacement.held() =~= before.appended(more));
            lemma_log_of_wf(old(self).logs@, principal@.conversation_only().name());
            assert(replacement.held().wf()) by {
                assert(before.next() <= replacement.held().next());
            }
        }
        self.replace(at, replacement);
        proof {
            lemma_other_keys(principal@);
        }
    }

    /// Seeds an empty conversation with the first `boundary` items a
    /// participant sees of another, and says how many were copied. A fork onto
    /// itself and onto a conversation with items are refused.
    pub fn fork(&mut self, source: &Principal, boundary: usize, child: &Principal) -> (out: Result<
        usize,
        SessionError,
    >)
        requires
            old(self).wf(),
        ensures
            final(self).wf(),
            out is Ok <==> source@.conversation_only() != child@.conversation_only() && old(
                self,
            ).log(child@).items.len() == 0,
            out matches Ok(seeded) ==> {
                &&& final(self).log(child@) == old(self).log(child@).forked(
                    old(self).log(source@),
                    source@,
                    boundary as nat,
                )
                &&& seeded == final(self).log(child@).items.len()
            },
            out is Err ==> *final(self) == *old(self),
            out matches Err(SessionError::Backend(text)) ==> text@ == if source@.conversation_only()
                == child@.conversation_only() {
                "cannot fork conversation '"@ + source@.conversation_only().name()
                    + "' onto itself"@
            } else {
                "fork target '"@ + child@.conversation_only().name() + "' already holds "@
                    + decimal(old(self).log(child@).items.len())
                    + " items; seeding it would interleave two histories"@
            },
            forall|other: Identity|
                other.conversation_only() != child@.conversation_only()
                    ==> #[trigger] final(self).log(other) == old(self).log(other),
            final(self).purges == old(self).purges,
    {
        let source_key = source.conversation_name();
        let child_key = child.conversation_name();
        proof {
            storage_name_is_injective(source@.conversation_only(), child@.conversation_only());
        }
        if same(source_key.as_str(), child_key.as_str()) {
            let mut text = "cannot fork conversation '".to_owned();
            text.push_str(source_key.as_str());
            text.push_str("' onto itself");
            return Err(SessionError::Backend(text));
        }
        let ghost origin = self.log(source@);
        let ghost target = self.log(child@);
        if let Some(i) = self.position(child_key.as_str()) {
            let existing: usize = self.logs[i].items.len();
            assert(self.logs@[i as int].held().items.len() == existing);
            if existing > 0 {
                let mut text = "fork target '".to_owned();
                text.push_str(child_key.as_str());
                text.push_str("' already holds ");
                push_decimal(&mut text, existing as u64);
                text.push_str(" items; seeding it would interleave two histories");
                return Err(SessionError::Backend(text));
            }
        }
        proof {
            lemma_log_of_wf(self.logs@, source@.conversation_only().name());
            lemma_log_of_wf(self.logs@, child@.conversation_only().name());
        }
        let (items, start) = match self.position(source_key.as_str()) {
            Some(i) => {
                let log = &self.logs[i];
                let from: usize = first_visible(log, source);
                let len: usize = log.items.len();
                let count: usize = if boundary < len - from {
                    boundary
                } else {
                    len - from
                };
                let copied = copy_range(&log.items, from, from + count);
                proof {
                    let seen = origin.visible(source@);
                    assert(log.held().items.len() == len);
                    assert(items_view(log.items@).subrange(from as int, from + count) =~= seen.take(
                        count as int,
                    ));
                }
                let start: u64 = if count == 0 {
                    0
                } else {
                    log.start + from as u64
                };
                (copied, start)
            },
            None => {
                let none: Vec<Item> = Vec::new();
                proof {
                    assert(origin.visible(source@) =~= Seq::empty());
                    assert(items_view(none@) =~= Seq::empty());
                    assert(origin.visible(source@).take(0) =~= Seq::empty());
                }
                (none, 0u64)
            },
        };
        let seeded: usize = items.len();
        let ghost want = target.forked(origin, source@, boundary as nat);
        proof {
            assert(items_view(items@) =~= want.items);
            assert(start == want.start);
        }
        let at: usize = self.open(child_key.as_str());
        let replacement = ConversationLog {
            key: child_key.clone(),
            start,
            items,
            epochs: copy_epochs(&self.logs[at].epochs),
        };
        proof {
            assert(replacement.held() =~= want);
            assert(replacement.held().wf()) by {
                assert(target.next() == 0);
            }
            assert(items_view(items@).len() == items@.len());
        }
        self.replace(at, replacement);
        proof {
            lemma_other_keys(child@);
        }
        Ok(seeded)
    }

    /// Irreversibly removes a conversation's items and every participant's
    /// markers, when the confirmed count still holds, and records that it
    /// happened. Refused, and nothing removed, when it does not.
    pub fn purge_session(&mut self, principal: &Principal, expected: usize, by: &str) -> (out: Result<
        usize,
        SessionError,
    >)
        requires
            old(self).wf(),
        ensures
            final(self).wf(),
            out is Ok <==> old(self).log(principal@).items.len() == expected,
            out matches Ok(removed) ==> {
                &&& removed == expected
                &&& final(self).log(principal@) == empty_log()
                &&& final(self).purges@.len() == old(self).purges@.len() + 1
                &&& final(self).purges@.drop_last() == old(self).purges@
                &&& final(self).purges@.last().conversation@ == principal@.conversation_only().name()
                &&& final(self).purges@.last().detail@ == decimal(removed as nat)
                    + " session items deleted by "@ + by@
            },
            out matches Err(SessionError::Backend(text)) ==> *final(self) == *old(self) && text@
                == "session purge confirmation is stale: expected "@ + decimal(expected as nat)
                + " item(s), found "@ + decimal(old(self).log(principal@).items.len()),
            forall|other: Identity|
                other.conversation_only() != principal@.conversation_only()
                    ==> #[trigger] final(self).log(other) == old(self).log(other),
    {
        let key = principal.conversation_name();
        let found = self.position(key.as_str());
        let actual: usize = match found {
            Some(i) => self.logs[i].items.len(),
            None => 0,
        };
        assert(actual == self.log(principal@).items.len());
        if actual != expected {
            let mut text = "session purge confirmation is stale: expected ".to_owned();
            push_decimal(&mut text, expected as u64);
            text.push_str(" item(s), found ");
            push_decimal(&mut text, actual as u64);
            return Err(SessionError::Backend(text));
        }
        if let Some(i) = found {
            let emptied = ConversationLog {
                key: key.clone(),
                start: 0,
                items: Vec::new(),
                epochs: Vec::new(),
            };
            assert(emptied.held() =~= empty_log());
            self.replace(i, emptied);
        }
        let mut detail = String::new();
        push_decimal(&mut detail, actual as u64);
        detail.push_str(" session items deleted by ");
        detail.push_str(by);
        let ghost purges = self.purges@;
        let ghost logs = self.logs@;
        self.purges.push(PurgeEvent { conversation: key, detail });
        proof {
            assert(detail@ =~= decimal(actual as nat) + " session items deleted by "@ + by@);
            assert(self.purges@.drop_last() =~= purges);
            assert(self.logs@ == logs);
            lemma_other_keys(principal@);
        }
        Ok(actual)
    }
}

proof fn lemma_other_keys(id: Identity)
    ensures
        forall|other: Identity|
            other.conversation_only() != id.conversation_only()
                ==> #[trigger] other.conversation_only().name() != id.conversation_only().name(),
{
    assert forall|other: Identity| other.conversation_only() != id.conversation_only() implies (
    #[trigger] other.conversation_only().name()) != id.conversation_only().name() by {
        storage_name_is_injective(other.conversation_only(), id.conversation_only());
    }
}

fn copy_epochs(epochs: &Vec<Epoch>) -> (out: Vec<Epoch>)
    ensures
        epochs_view(out@) == epochs_view(epochs@),
{
    let mut out: Vec<Epoch> = Vec::new();
    let mut i: usize = 0;
    while i < epochs.len()
        invariant
            i <= epochs@.len(),
            out@.len() == i,
            forall|k: int|
                0 <= k < i ==> (#[trigger] out@[k]).principal@ == epochs@[k].principal@
                    && out@[k].ordinal == epochs@[k].ordinal,
        decreases epochs@.len() - i,
    {
        out.push(Epoch { principal: epochs[i].principal.clone(), ordinal: epochs[i].ordinal });
        i = i + 1;
    }
    assert(epochs_view(out@) =~= epochs_view(epochs@));
    out
}

/// What is known of one stored conversation.
pub struct ConversationAge {
    pub key: String,
    pub items: usize,
    /// When its newest item was written, in Unix seconds.
    pub newest: u64,
}

/// The places of conversations whose newest item is older than a cutoff.
pub open spec fn idle_among(rows: Seq<ConversationAge>, before: u64, n: int) -> Seq<int>
    decreases n,
{
    if n <= 0 {
        Seq::empty()
    } else if rows[n - 1].newest < before {
        idle_among(rows, before, n - 1).push(n - 1)
    } else {
        idle_among(rows, before, n - 1)
    }
}

/// How long before the cutoff the newest item of each was written.
pub open spec fn idle_ages(rows: Seq<ConversationAge>, before: u64, idle: Seq<int>) -> Seq<u64> {
    idle.map_values(|p: int| (before - rows[p].newest) as u64)
}

/// Whether the key of a conversation names a principal.
pub open spec fn is_principal(key: Seq<char>) -> bool {
    exists|id: Identity| #[trigger] id.name() == key
}

/// Whether a survey lists the conversations at the given places, in order,
/// each with its number of items.
pub open spec fn surveys(
    rows: Seq<ConversationAge>,
    places: Seq<int>,
    out: Seq<(Principal, usize)>,
) -> bool {
    &&& out.len() == places.len()
    &&& forall|i: int|
        0 <= i < out.len() ==> (#[trigger] out[i]).0@.name() == rows[places[i]].key@ && out[i].1
            == rows[places[i]].items
}

/// The idle places in the order of a ranking.
pub open spec fn arranged(idle: Seq<int>, order: Seq<int>) -> Seq<int> {
    order.map_values(|p: int| idle[p])
}

/// Whether a survey lists every idle conversation, longest idle first.
pub open spec fn is_idle_survey(
    rows: Seq<ConversationAge>,
    before: u64,
    out: Seq<(Principal, usize)>,
    order: Seq<int>,
) -> bool {
    let idle = idle_among(rows, before, rows.len() as int);
    best_first(idle_ages(rows, before, idle), order) && surveys(rows, arranged(idle, order), out)
}

/// What a survey is refused with.
pub open spec fn undecodable(key: Seq<char>) -> Seq<char> {
    "session key '"@ + key + "' is not a principal name; run `agentos-gateway migrate`"@
}

/// Whether the first conversation of the survey with an unreadable key is the
/// `n`th, longest idle first.
pub open spec fn is_first_undecodable(
    rows: Seq<ConversationAge>,
    before: u64,
    key: Seq<char>,
    order: Seq<int>,
    n: int,
) -> bool {
    let idle = idle_among(rows, before, rows.len() as int);
    let places = arranged(idle, order);
    &&& best_first(idle_ages(rows, before, idle), order)
    &&& 0 <= n < places.len()
    &&& rows[places[n]].key@ == key
    &&& !is_principal(key)
    &&& forall|i: int| 0 <= i < n ==> is_principal((#[trigger] rows[places[i]]).key@)
}

fn idle_places(rows: &Vec<ConversationAge>, before: u64) -> (out: (Vec<usize>, Vec<u64>))
    ensures
        positions(out.0@) == idle_among(rows@, before, rows@.len() as int),
        out.1@ == idle_ages(rows@, before, positions(out.0@)),
        forall|i: int| 0 <= i < out.0@.len() ==> #[trigger] out.0@[i] < rows@.len(),
{
    let mut places: Vec<usize> = Vec::new();
    let mut ages: Vec<u64> = Vec::new();
    let mut n: usize = 0;
    assert(positions(places@) =~= Seq::empty());
    assert(ages@ =~= idle_ages(rows@, before, positions(places@)));
    while n < rows.len()
        invariant
            n <= rows@.len(),
            positions(places@) == idle_among(rows@, before, n as int),
            ages@ == idle_ages(rows@, before, positions(places@)),
            forall|i: int| 0 <= i < places@.len() ==> #[trigger] places@[i] < n,
        decreases rows@.len() - n,
    {
        let ghost done = positions(places@);
        let ghost known = ages@;
        if rows[n].newest < before {
            places.push(n);
            ages.push(before - rows[n].newest);
            assert(positions(places@) =~= done.push(n as int));
            assert(ages@ =~= idle_ages(rows@, before, positions(places@)));
        }
        n = n + 1;
    }
    (places, ages)
}

/// Lists the conversations nothing was written to since a cutoff, longest idle
/// first, each with its number of items. A key that names no principal is an
/// error rather than left out.
pub fn idle_conversations(rows: &Vec<ConversationAge>, before: u64) -> (out: Result<
    Vec<(Principal, usize)>,
    SessionError,
>)
    ensures
        out is Ok ==> exists|order: Seq<int>| is_idle_survey(rows@, before, out->Ok_0@, order),
        out matches Err(SessionError::Backend(text)) ==> exists|
            key: Seq<char>,
            order: Seq<int>,
            n: int,
        | #[trigger] is_first_undecodable(rows@, before, key, order, n) && text@ == undecodable(key),
{
    let (places, ages) = idle_places(rows, before);
    let order = descending_order(&ages);
    let ghost ranked = positions(order@);
    let ghost idle = idle_among(rows@, before, rows@.len() as int);
    let ghost listed = arranged(idle, ranked);
    let mut list: Vec<(Principal, usize)> = Vec::new();
    let mut i: usize = 0;
    while i < order.len()
        invariant
            i <= order@.len(),
            ranked == positions(order@),
            idle == idle_among(rows@, before, rows@.len() as int),
            idle == positions(places@),
            ages@ == idle_ages(rows@, before, idle),
            best_first(ages@, ranked),
            listed == arranged(idle, ranked),
            forall|k: int| 0 <= k < places@.len() ==> #[trigger] places@[k] < rows@.len(),
            list@.len() == i,
            forall|k: int|
                0 <= k < i ==> (#[trigger] list@[k]).0@.name() == rows@[listed[k]].key@ && list@[k].1
                    == rows@[listed[k]].items,
            forall|k: int| 0 <= k < i ==> is_principal((#[trigger] rows@[listed[k]]).key@),
        decreases order@.len() - i,
    {
        assert(ranked[i as int] == order@[i as int]);
        assert(ages@.len() == places@.len());
        let place: usize = places[order[i]];
        assert(listed[i as int] == place);
        match Principal::from_storage_name(rows[place].key.as_str()) {
            Some(principal) => {
                assert(principal@.name() == rows@[place as int].key@);
                list.push((principal, rows[place].items));
            },
            None => {
                let mut text = "session key '".to_owned();
                text.push_str(rows[place].key.as_str());
                text.push_str("' is not a principal name; run `agentos-gateway migrate`");
                assert(is_first_undecodable(
                    rows@,
                    before,
                    rows@[place as int].key@,
                    ranked,
                    i as int,
                ));
                return Err(SessionError::Backend(text));
            },
        }
        i = i + 1;
    }
    assert(surveys(rows@, listed, list@));
    let survey: Result<Vec<(Principal, usize)>, SessionError> = Ok(list);
    assert(is_idle_survey(rows@, before, survey->Ok_0@, ranked));
    survey
}

/// A participant's epoch is the newest marker that is theirs or the whole
/// conversation's, and nobody else's marker moves it.
pub proof fn an_epoch_is_the_newest_own_marker(
    epochs: Seq<(Seq<char>, nat)>,
    own: Seq<char>,
    all: Seq<char>,
    n: int,
)
    requires
        0 <= n <= epochs.len(),
    ensures
        forall|i: int|
            0 <= i < n && ((#[trigger] epochs[i]).0 == own || epochs[i].0 == all) ==> epochs[i].1
                <= epoch_among(epochs, own, all, n),
        epoch_among(epochs, own, all, n) == 0 || exists|i: int|
            0 <= i < n && ((#[trigger] epochs[i]).0 == own || epochs[i].0 == all) && epochs[i].1
                == epoch_among(epochs, own, all, n),
    decreases n,
{
    if n > 0 {
        an_epoch_is_the_newest_own_marker(epochs, own, all, n - 1);
        let before = epoch_among(epochs, own, all, n - 1);
        if before != 0 {
            let i = choose|i: int|
                0 <= i < n - 1 && ((#[trigger] epochs[i]).0 == own || epochs[i].0 == all)
                    && epochs[i].1 == before;
            assert(epochs[i].1 == before);
        }
        assert(epochs[n - 1] == epochs[n - 1]);
    }
}

/// An item is seen exactly when its ordinal is not before the participant's
/// epoch, and what is seen is in order.
pub proof fn an_item_is_seen_from_its_epoch_on(log: LogView, id: Identity) -> (hidden: int)
    ensures
        0 <= hidden <= log.items.len(),
        log.visible(id) == log.items.skip(hidden),
        forall|k: int| 0 <= k < hidden ==> #[trigger] (log.start + k) < log.epoch(id),
        forall|k: int|
            hidden <= k < log.items.len() ==> #[trigger] (log.start + k) >= log.epoch(id),
{
    let epoch = log.epoch(id);
    if epoch <= log.start {
        assert(log.items.skip(0) =~= log.items);
        0
    } else if epoch >= log.start + log.items.len() {
        assert(log.items.skip(log.items.len() as int) =~= Seq::empty());
        log.items.len() as int
    } else {
        epoch - log.start
    }
}

/// A fork keeps the ordinals: what it starts with stood at the same ordinal in
/// the source; and it takes no more than the boundary.
pub proof fn a_fork_keeps_ordinals(
    child: LogView,
    source: LogView,
    id: Identity,
    boundary: nat,
    k: int,
)
    ensures
        ({
            let fork = child.forked(source, id, boundary);
            &&& fork.items.len() <= boundary
            &&& fork.items.len() == boundary || fork.items.len() == source.visible(id).len()
            &&& fork.epochs == child.epochs
            &&& 0 <= k < fork.items.len() ==> source.items[fork.start + k - source.start]
                == fork.items[k]
        }),
{
    let hidden = an_item_is_seen_from_its_epoch_on(source, id);
}

/// The next item gets the ordinal after the last, or the first ordinal where
/// there is none; a clear marks that place for whoever cleared.
pub proof fn a_clear_marks_the_next_ordinal(log: LogView, id: Identity)
    ensures
        log.items.len() == 0 ==> log.next() == 0,
        log.items.len() > 0 ==> log.next() == log.start + log.items.len(),
        log.cleared(id).epochs.last() == (id.name(), log.next()),
        log.cleared(id).epochs.drop_last() == log.epochs,
        log.cleared(id).items == log.items,
        log.cleared(id).start == log.start,
{
    assert(log.cleared(id).epochs.drop_last() =~= log.epochs);
}

/// A conversation is idle exactly when nothing was written to it since the
/// cutoff; each is listed once.
pub proof fn what_was_not_written_to_is_idle(rows: Seq<ConversationAge>, before: u64, n: int)
    requires
        0 <= n <= rows.len(),
    ensures
        forall|p: int|
            #[trigger] idle_among(rows, before, n).contains(p) <==> 0 <= p < n && rows[p].newest
                < before,
        forall|i: int, j: int|
            0 <= i < j < idle_among(rows, before, n).len() ==> #[trigger] idle_among(
                rows,
                before,
                n,
            )[i] < #[trigger] idle_among(rows, before, n)[j],
    decreases n,
{
    if n > 0 {
        what_was_not_written_to_is_idle(rows, before, n - 1);
        let had = idle_among(rows, before, n - 1);
        let now = idle_among(rows, before, n);
        assert forall|i: int| 0 <= i < had.len() implies #[trigger] had[i] < n - 1 by {
            assert(had.contains(had[i]));
        }
        assert forall|p: int| #[trigger] now.contains(p) <==> 0 <= p < n && rows[p].newest
            < before by {
            assert(had.contains(p) <==> 0 <= p < n - 1 && rows[p].newest < before);
            if had.contains(p) {
                let k = choose|k: int| 0 <= k < had.len() && had[k] == p;
                assert(now[k] == p);
            }
            if p == n - 1 && rows[n - 1].newest < before {
                assert(now[had.len() as int] == p);
            }
            if now.contains(p) && p != n - 1 {
                let k = choose|k: int| 0 <= k < now.len() && now[k] == p;
                assert(had[k] == p);
            }
        }
    } else {
        assert forall|p: int| !(#[trigger] idle_among(rows, before, n).contains(p)) by {}
    }
}

/// A survey lists the longest idle conversation first, and leaves out none that
/// is idle.
pub proof fn the_longest_idle_comes_first(
    rows: Seq<ConversationAge>,
    before: u64,
    out: Seq<(Principal, usize)>,
    order: Seq<int>,
    i: int,
    j: int,
    p: int,
)
    requires
        is_idle_survey(rows, before, out, order),
    ensures
        ({
            let places = arranged(idle_among(rows, before, rows.len() as int), order);
            &&& places.len() == out.len()
            &&& 0 <= i < j < out.len() ==> rows[places[i]].newest <= rows[places[j]].newest
            &&& 0 <= i < out.len() ==> out[i].0@.name() == rows[places[i]].key@ && out[i].1
                == rows[places[i]].items && rows[places[i]].newest < before
            &&& 0 <= p < rows.len() && rows[p].newest < before ==> places.contains(p)
        }),
{
    let idle = idle_among(rows, before, rows.len() as int);
    let places = arranged(idle, order);
    let ages = idle_ages(rows, before, idle);
    what_was_not_written_to_is_idle(rows, before, rows.len() as int);
    every_entry_is_ranked_by_its_score(ages, order, i, j);
    if 0 <= i < out.len() {
        assert(idle.contains(idle[order[i]]));
    }
    if 0 <= i < j < out.len() {
        assert(idle.contains(idle[order[i]]));
        assert(idle.contains(idle[order[j]]));
        assert(ages[order[i]] == before - rows[places[i]].newest);
        assert(ages[order[j]] == before - rows[places[j]].newest);
    }
    if 0 <= p < rows.len() && rows[p].newest < before {
        assert(idle.contains(p));
        let k = choose|k: int| 0 <= k < idle.len() && idle[k] == p;
        assert(order.contains(k));
        let q = choose|q: int| 0 <= q < order.len() && order[q] == k;
        assert(places[q] == p);
    }
}

} // verus!
