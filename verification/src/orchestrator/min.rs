//! The orchestrator that says back what it was told.

use super::plan::{Plan, PlanView};
use crate::message::{plain_message, ItemView, Message, MessageRole, Transcript};
use vstd::prelude::*;

verus! {

/// Replies with the last thing said.
pub struct EchoOrchestrator;

/// What was said last; nothing when nothing was said.
pub open spec fn last_content(items: Seq<ItemView>) -> Seq<char> {
    if items.len() > 0 {
        items.last().message.content
    } else {
        ""@
    }
}

impl EchoOrchestrator {
    /// Plans a turn.
    pub fn plan(&self, transcript: &Transcript) -> (plan: Plan)
        ensures
            plan@ == PlanView::Reply(
                plain_message(MessageRole::Assistant, last_content(transcript@)),
            ),
    {
        let n: usize = transcript.items.len();
        if n > 0 {
            assert(transcript@.last() == transcript.items@[n - 1]@);
            Plan::Reply(
                Message::text(
                    MessageRole::Assistant,
                    transcript.items[n - 1].message.content.as_str(),
                ),
            )
        } else {
            Plan::Reply(Message::text(MessageRole::Assistant, ""))
        }
    }
}

/// The last thing said is what counts, whatever was said before it.
pub proof fn the_last_word_is_said_back(items: Seq<ItemView>, item: ItemView)
    ensures
        last_content(items.push(item)) == item.message.content,
        last_content(Seq::empty()).len() == 0,
{
    reveal_strlit("");
}

} // verus!
