//! The three message kinds that nodes exchange.

use vstd::prelude::*;

verus! {

/// A protocol message. Every message carries the sender's term; vote requests
/// and heartbeats also carry the sender's endpoint so the receiver can reply
/// or log the leader.
#[derive(Debug, Clone)]
pub enum Message {
    RequestVote { term: u64, candidate_id: String },
    AppendEntries { term: u64, leader_id: String },
    VoteGranted { term: u64 },
}

/// The mathematical value of a [`Message`]: endpoints become character
/// sequences.
pub enum MessageView {
    RequestVote { term: u64, candidate_id: Seq<char> },
    AppendEntries { term: u64, leader_id: Seq<char> },
    VoteGranted { term: u64 },
}

impl View for Message {
    type V = MessageView;

    open spec fn view(&self) -> MessageView {
        match self {
            Message::RequestVote { term, candidate_id } => MessageView::RequestVote {
                term: *term,
                candidate_id: candidate_id@,
            },
            Message::AppendEntries { term, leader_id } => MessageView::AppendEntries {
                term: *term,
                leader_id: leader_id@,
            },
            Message::VoteGranted { term } => MessageView::VoteGranted { term: *term },
        }
    }
}

/// The term a message carries.
pub open spec fn msg_term(m: MessageView) -> u64 {
    match m {
        MessageView::RequestVote { term, .. } => term,
        MessageView::AppendEntries { term, .. } => term,
        MessageView::VoteGranted { term } => term,
    }
}

/// The value of an optional message, for contracts about functions that may
/// or may not produce one.
pub open spec fn opt_msg_view(m: Option<Message>) -> Option<MessageView> {
    match m {
        Some(m) => Some(m@),
        None => None,
    }
}

} // verus!
