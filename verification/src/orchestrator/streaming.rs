//! Reading a streamed completion.
//!
//! Chunks of text are shown as they come; what counts is the message that ends
//! the stream. A stream that breaks under way is completed again without
//! streaming.

use super::plan::LlmError;
use crate::message::{Message, MessageView};
use crate::text::opt_view;
use vstd::prelude::*;

verus! {

/// One thing a stream says.
pub enum CompletionEvent {
    /// A chunk of text to show.
    Text(String),
    /// The whole message.
    Done(Message),
}

/// What ends a stream that never said it was done.
pub const NO_FINAL_MESSAGE: &'static str = "stream ended without a final message";

/// A stream being read.
pub struct StreamDrain {
    pub done: Option<Message>,
}

/// The view of an optional message.
pub open spec fn message_view(message: Option<Message>) -> Option<MessageView> {
    match message {
        Some(message) => Some(message@),
        None => None,
    }
}

impl StreamDrain {
    /// Nothing read yet.
    pub fn start() -> (out: StreamDrain)
        ensures
            out.done is None,
    {
        StreamDrain { done: None }
    }

    /// Takes one event: the text to show, if it brought any.
    pub fn take(&mut self, event: CompletionEvent) -> (shown: Option<String>)
        ensures
            opt_view(shown) == match event {
                CompletionEvent::Text(chunk) => Some(chunk@),
                CompletionEvent::Done(_) => None,
            },
            message_view(final(self).done) == match event {
                CompletionEvent::Text(_) => message_view(old(self).done),
                CompletionEvent::Done(message) => Some(message@),
            },
    {
        match event {
            CompletionEvent::Text(chunk) => Some(chunk),
            CompletionEvent::Done(message) => {
                self.done = Some(message);
                None
            },
        }
    }

    /// What the stream came to.
    pub fn finish(self) -> (out: Result<Message, LlmError>)
        ensures
            out is Ok <==> self.done is Some,
            out matches Ok(message) ==> self.done == Some(message),
            out matches Err(error) ==> (error matches LlmError::Provider(text) && text@
                == NO_FINAL_MESSAGE@),
    {
        match self.done {
            Some(message) => Ok(message),
            None => Err(LlmError::Provider(NO_FINAL_MESSAGE.to_owned())),
        }
    }
}

/// Whether a failed stream is completed again without streaming.
pub fn retries_buffered(error: &LlmError) -> (yes: bool)
    ensures
        yes == (error is StreamTransport),
{
    match error {
        LlmError::StreamTransport(_) => true,
        _ => false,
    }
}

} // verus!
