//! The one durable path from a built request to a provider.
//!
//! Every physical invocation is journaled twice: that it started, before it
//! is made, and how it ended. A stream that breaks under way is tried once
//! more without streaming, as the second attempt of the same request.

use super::assembly::{is_header_of, sum_chars, sum_messages, PromptManifest, RequestHeader};
use super::sections::RequestKind;
use crate::message::Message;
use crate::orchestrator::plan::LlmError;
use crate::text::{
    byte_len, chars_of, lemma_byte_len_push, opt_view, string_of, width_of,
};
use vstd::prelude::*;

verus! {

/// How an attempt stands.
#[derive(Clone, Copy, Debug, PartialEq, Eq, Structural)]
pub enum RequestAttemptStatus {
    Started,
    Succeeded,
    Failed,
    Cancelled,
}

/// What a provider charged for a request.
#[derive(Clone, Copy, Debug, PartialEq, Eq, Structural)]
pub struct Usage {
    pub input_tokens: u64,
    pub output_tokens: u64,
}

/// The journal entry of one transition of one attempt.
pub struct RequestAttempt {
    pub logical_request_id: String,
    pub attempt: u32,
    pub run_id: String,
    pub active_agent: String,
    pub header: RequestHeader,
    pub status: RequestAttemptStatus,
    pub usage: Option<Usage>,
    pub detail: Option<String>,
}

/// A request to be sent.
pub struct Request {
    pub logical_request_id: String,
    pub kind: RequestKind,
    pub manifest: PromptManifest,
}

/// Whether two entries are of the same attempt.
pub open spec fn same_attempt(a: RequestAttempt, b: RequestAttempt) -> bool {
    &&& a.logical_request_id == b.logical_request_id
    &&& a.attempt == b.attempt
    &&& a.run_id == b.run_id
    &&& a.active_agent == b.active_agent
    &&& a.header == b.header
}

/// Whether an entry says that an attempt of a request started.
pub open spec fn is_start(
    entry: RequestAttempt,
    request: Request,
    run_id: Seq<char>,
    active_agent: Seq<char>,
    attempt: u32,
) -> bool {
    &&& entry.logical_request_id@ == request.logical_request_id@
    &&& entry.attempt == attempt
    &&& entry.run_id@ == run_id
    &&& entry.active_agent@ == active_agent
    &&& is_header_of(entry.header, request.manifest@)
    &&& entry.status == RequestAttemptStatus::Started
    &&& entry.usage is None
    &&& entry.detail is None
}

/// What an attempt dropped before it ended is recorded with.
pub const DROPPED: &'static str = "provider future dropped before an outcome";

/// The most bytes a failure is recorded with.
pub const MAX_DETAIL_BYTES: usize = 512;

/// An attempt under way.
pub struct AttemptGuard {
    pub record: RequestAttempt,
}

impl AttemptGuard {
    /// Starts an attempt. Its entry is journaled before the provider is
    /// called.
    pub fn begin(request: &Request, run_id: &str, active_agent: &str, attempt: u32) -> (out:
        AttemptGuard)
        requires
            sum_messages(request.manifest@) <= usize::MAX,
            sum_chars(request.manifest@) <= usize::MAX,
        ensures
            is_start(out.record, *request, run_id@, active_agent@, attempt),
    {
        AttemptGuard {
            record: RequestAttempt {
                logical_request_id: request.logical_request_id.clone(),
                attempt,
                run_id: run_id.to_owned(),
                active_agent: active_agent.to_owned(),
                header: request.manifest.header(),
                status: RequestAttemptStatus::Started,
                usage: None,
                detail: None,
            },
        }
    }

    /// The entry of an attempt that succeeded.
    pub fn succeed(self, usage: Option<Usage>) -> (out: RequestAttempt)
        ensures
            same_attempt(out, self.record),
            out.status == RequestAttemptStatus::Succeeded,
            out.usage == usage,
            out.detail is None,
    {
        RequestAttempt {
            logical_request_id: self.record.logical_request_id,
            attempt: self.record.attempt,
            run_id: self.record.run_id,
            active_agent: self.record.active_agent,
            header: self.record.header,
            status: RequestAttemptStatus::Succeeded,
            usage,
            detail: None,
        }
    }

    /// The entry of an attempt that failed.
    pub fn fail(self, reported: &str) -> (out: RequestAttempt)
        ensures
            same_attempt(out, self.record),
            out.status == RequestAttemptStatus::Failed,
            out.usage is None,
            out.detail matches Some(detail) && is_bounded(reported@, detail@),
    {
        RequestAttempt {
            logical_request_id: self.record.logical_request_id,
            attempt: self.record.attempt,
            run_id: self.record.run_id,
            active_agent: self.record.active_agent,
            header: self.record.header,
            status: RequestAttemptStatus::Failed,
            usage: None,
            detail: Some(bounded_detail(reported)),
        }
    }

    /// The entry of an attempt that was dropped before it ended.
    pub fn cancel(self) -> (out: RequestAttempt)
        ensures
            same_attempt(out, self.record),
            out.status == RequestAttemptStatus::Cancelled,
            out.usage == self.record.usage,
            opt_view(out.detail) == Some(DROPPED@),
    {
        RequestAttempt {
            logical_request_id: self.record.logical_request_id,
            attempt: self.record.attempt,
            run_id: self.record.run_id,
            active_agent: self.record.active_agent,
            header: self.record.header,
            status: RequestAttemptStatus::Cancelled,
            usage: self.record.usage,
            detail: Some(DROPPED.to_owned()),
        }
    }
}

/// Whether a text is the longest beginning of another that takes at most the
/// bytes a failure is recorded with.
pub open spec fn is_bounded(text: Seq<char>, bounded: Seq<char>) -> bool {
    &&& bounded.len() <= text.len()
    &&& bounded == text.take(bounded.len() as int)
    &&& byte_len(bounded) <= MAX_DETAIL_BYTES
    &&& bounded.len() < text.len() ==> byte_len(text.take(bounded.len() as int + 1)) > MAX_DETAIL_BYTES
}

/// There is only one such beginning.
pub proof fn the_bound_is_unique(text: Seq<char>, a: Seq<char>, b: Seq<char>)
    requires
        is_bounded(text, a),
        is_bounded(text, b),
    ensures
        a == b,
{
    if a.len() < b.len() {
        lemma_bytes_grow(text, a.len() as int + 1, b.len() as int);
    }
    if b.len() < a.len() {
        lemma_bytes_grow(text, b.len() as int + 1, a.len() as int);
    }
}

proof fn lemma_bytes_grow(text: Seq<char>, a: int, b: int)
    requires
        0 <= a <= b <= text.len(),
    ensures
        byte_len(text.take(a)) <= byte_len(text.take(b)),
    decreases b - a,
{
    if a < b {
        lemma_bytes_grow(text, a, b - 1);
        assert(text.take(b) =~= text.take(b - 1).push(text[b - 1]));
        lemma_byte_len_push(text.take(b - 1), text[b - 1]);
    }
}

/// Cuts a failure to the bytes it is recorded with, at a character.
pub fn bounded_detail(detail: &str) -> (out: String)
    ensures
        is_bounded(detail@, out@),
{
    let chars = chars_of(detail);
    let ghost text = detail@;
    let mut end: usize = 0;
    let mut bytes: usize = 0;
    proof {
        assert(text.take(0) =~= Seq::<char>::empty());
        assert(byte_len(text.take(0)) == 0);
    }
    while end < chars.len()
        invariant
            end <= chars@.len(),
            chars@ == text,
            bytes == byte_len(text.take(end as int)),
            bytes <= MAX_DETAIL_BYTES,
            text == detail@,
        decreases chars@.len() - end,
    {
        let width: usize = width_of(chars[end]);
        proof {
            assert(text.take(end + 1) =~= text.take(end as int).push(text[end as int]));
            lemma_byte_len_push(text.take(end as int), text[end as int]);
        }
        if bytes + width > MAX_DETAIL_BYTES {
            let out = string_of(&chars, 0, end);
            assert(out@ =~= text.take(end as int));
            return out;
        }
        bytes = bytes + width;
        end = end + 1;
    }
    let out = string_of(&chars, 0, end);
    assert(out@ =~= text.take(end as int));
    out
}

/// The error of a transition that could not be journaled: without the entry
/// the provider is not called.
pub fn journal_error(reported: &str) -> (error: LlmError)
    ensures
        error matches LlmError::Provider(text) && text@
            == "request attempt journal failed before provider transition: "@ + reported@,
{
    let mut text = "request attempt journal failed before provider transition: ".to_owned();
    text.push_str(reported);
    LlmError::Provider(text)
}

/// How a request is sent.
#[derive(Clone, Copy, Debug, PartialEq, Eq, Structural)]
pub enum Invocation {
    Streamed { attempt: u32 },
    Buffered { attempt: u32 },
}

/// The first invocation of a request: only a turn somebody watches is
/// streamed.
pub open spec fn first(kind: RequestKind, watched: bool) -> Invocation {
    if kind == RequestKind::Turn && watched {
        Invocation::Streamed { attempt: 1 }
    } else {
        Invocation::Buffered { attempt: 1 }
    }
}

/// Computes [`first`].
pub fn first_invocation(kind: RequestKind, watched: bool) -> (out: Invocation)
    ensures
        out == first(kind, watched),
{
    if kind == RequestKind::Turn && watched {
        Invocation::Streamed { attempt: 1 }
    } else {
        Invocation::Buffered { attempt: 1 }
    }
}

/// The invocation after one that failed: a broken stream is tried once more
/// without streaming, anything else is final.
pub open spec fn retry(invocation: Invocation, error: LlmError) -> Option<Invocation> {
    if invocation is Streamed && error is StreamTransport {
        Some(Invocation::Buffered { attempt: 2 })
    } else {
        None
    }
}

/// Computes [`retry`].
pub fn retry_after(invocation: Invocation, error: &LlmError) -> (out: Option<Invocation>)
    ensures
        out == retry(invocation, *error),
{
    match invocation {
        Invocation::Streamed { .. } => match error {
            LlmError::StreamTransport(_) => Some(Invocation::Buffered { attempt: 2 }),
            _ => None,
        },
        Invocation::Buffered { .. } => None,
    }
}

/// A request is sent at most twice: what a retry sends is not retried.
pub proof fn a_request_is_sent_at_most_twice(
    invocation: Invocation,
    error: LlmError,
    again: LlmError,
)
    ensures
        retry(invocation, error) matches Some(second) ==> retry(second, again) is None,
{
}

/// Only a turn is ever streamed, and only while somebody watches.
pub proof fn only_watched_turns_stream(kind: RequestKind, watched: bool)
    ensures
        first(kind, watched) is Streamed <==> kind == RequestKind::Turn && watched,
{
}

/// What the run learns of an exchange: the header, unless the turn recorded it
/// when it was assembled, and what it cost.
pub struct Noted {
    pub header: Option<RequestHeader>,
    pub usage: Option<Usage>,
}

/// What the run learns of a finished exchange.
pub fn note_exchange(request: &Request, usage: Option<Usage>) -> (out: Noted)
    requires
        sum_messages(request.manifest@) <= usize::MAX,
        sum_chars(request.manifest@) <= usize::MAX,
    ensures
        out.header is Some <==> request.kind != RequestKind::Turn,
        out.header matches Some(header) ==> is_header_of(header, request.manifest@),
        out.usage == usage,
{
    let header = if request.kind != RequestKind::Turn {
        Some(request.manifest.header())
    } else {
        None
    };
    Noted { header, usage }
}

/// One completed round-trip to a provider and the record of it.
pub struct Exchange {
    pub message: Message,
    pub header: RequestHeader,
    pub usage: Option<Usage>,
}

/// Records a round-trip: what was sent, what came back, and what it cost.
pub fn record(request: &Request, message: Message, usage: Option<Usage>) -> (out: Exchange)
    requires
        sum_messages(request.manifest@) <= usize::MAX,
        sum_chars(request.manifest@) <= usize::MAX,
    ensures
        out.message == message,
        is_header_of(out.header, request.manifest@),
        out.usage == usage,
{
    Exchange { message, header: request.manifest.header(), usage }
}

/// A broken stream is tried once more, without streaming; nothing else is tried
/// again.
pub proof fn a_broken_stream_is_tried_again(invocation: Invocation, error: LlmError)
    ensures
        retry(invocation, error) is Some <==> invocation is Streamed && error is StreamTransport,
        retry(invocation, error) matches Some(second) ==> second == (Invocation::Buffered {
            attempt: 2,
        }),
        first(RequestKind::Turn, true) == (Invocation::Streamed { attempt: 1 }),
        first(RequestKind::Turn, false) == (Invocation::Buffered { attempt: 1 }),
        first(RequestKind::Routing, true) == (Invocation::Buffered { attempt: 1 }),
        first(RequestKind::Compaction, true) == (Invocation::Buffered { attempt: 1 }),
{
}

/// A failure of up to 512 bytes is recorded whole, a longer one by as much of
/// its beginning as fits.
pub proof fn a_short_failure_is_recorded_whole(text: Seq<char>, bounded: Seq<char>)
    requires
        is_bounded(text, bounded),
    ensures
        byte_len(text) <= 512 ==> bounded == text,
        byte_len(text) > 512 ==> 512 - 4 < byte_len(bounded) <= 512,
        bounded == text.take(bounded.len() as int),
{
    let n = bounded.len() as int;
    assert(text.take(text.len() as int) =~= text);
    if n < text.len() {
        lemma_bytes_grow(text, n + 1, text.len() as int);
        assert(text.take(n + 1) =~= text.take(n).push(text[n]));
        lemma_byte_len_push(text.take(n), text[n]);
    } else {
        assert(bounded =~= text);
    }
}

} // verus!
