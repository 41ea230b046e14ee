//! The per-node election state machine.
//!
//! A node is a Follower, a Candidate, or a Leader. Inbound messages and the
//! election timer drive the transitions; every transition is specified by a
//! spec-level step function and the executable methods are proved to follow
//! it exactly. Time is a monotonic millisecond count supplied by the caller;
//! the randomized election timeout is drawn from `[150, 300)` milliseconds.

use rand::Rng;
use vstd::prelude::*;

use crate::msg::{msg_term, opt_msg_view, Message, MessageView};

verus! {

/// The lower bound (inclusive) of the randomized election timeout, in ms.
pub const ELECTION_TIMEOUT_MIN_MS: u64 = 150;

/// The upper bound (exclusive) of the randomized election timeout, in ms.
pub const ELECTION_TIMEOUT_MAX_MS: u64 = 300;

/// The role a node currently plays.
#[derive(Debug, PartialEq, Eq, Structural)]
pub enum NodeState {
    Follower,
    Candidate,
    Leader,
}

/// One cluster member: its own endpoint, the other members' endpoints, and
/// the election bookkeeping.
pub struct RaftNode {
    /// This node's endpoint; also its identity in the cluster.
    pub address: String,
    /// All other cluster endpoints. Fixed at construction.
    pub peers: Vec<String>,
    /// The current role.
    pub state: NodeState,
    /// The election epoch this node has observed. Never decreases.
    pub current_term: u64,
    /// The current randomized election timeout, in milliseconds.
    pub election_timeout: u64,
    /// The clock reading of the last event that kept this node a Follower
    /// (construction, a valid heartbeat, a vote cast, or an election start).
    pub last_heartbeat: u64,
    /// Vote grants counted in the current candidacy; meaningful only while
    /// Candidate, where it starts at 1 for the self-vote.
    pub votes_received: usize,
}

/// The mathematical value of a [`RaftNode`].
#[verifier::ext_equal]
pub struct NodeView {
    pub addr: Seq<char>,
    pub peers: Seq<Seq<char>>,
    pub state: NodeState,
    pub current_term: u64,
    pub election_timeout: u64,
    pub last_heartbeat: u64,
    pub votes_received: usize,
}

impl View for RaftNode {
    type V = NodeView;

    open spec fn view(&self) -> NodeView {
        NodeView {
            addr: self.address@,
            peers: self.peers.deep_view(),
            state: self.state,
            current_term: self.current_term,
            election_timeout: self.election_timeout,
            last_heartbeat: self.last_heartbeat,
            votes_received: self.votes_received,
        }
    }
}

/// A candidate wins once its vote count strictly exceeds half the peer
/// count: with `N = peers + 1` members that is a majority of the cluster
/// whenever `N` is odd.
pub open spec fn quorum_reached(votes: nat, peers: nat) -> bool {
    votes > peers / 2
}

/// Well-formedness of a node: the cluster has at least three members, the
/// timeout lies in the drawing range, and a candidate's vote count stays
/// between the self-vote and the winning threshold (crossing the threshold
/// makes it a Leader at once).
pub open spec fn wf(s: NodeView) -> bool {
    &&& s.peers.len() >= 2
    &&& s.peers.len() <= usize::MAX
    &&& ELECTION_TIMEOUT_MIN_MS <= s.election_timeout < ELECTION_TIMEOUT_MAX_MS
    &&& s.state == NodeState::Candidate ==> 1 <= s.votes_received && s.votes_received
        <= s.peers.len() / 2
}

/// Whether the election timer has expired at clock reading `now`.
pub open spec fn timed_out(s: NodeView, now: u64) -> bool {
    now >= s.last_heartbeat && now - s.last_heartbeat >= s.election_timeout
}

/// Whether a timer check at `now` starts an election: the timeout elapsed
/// and the node is not the leader.
pub open spec fn tick_fires(s: NodeView, now: u64) -> bool {
    timed_out(s, now) && s.state != NodeState::Leader
}

/// The node after a timer check at `now`, with `drawn` the fresh random
/// timeout used if an election starts: the node becomes a Candidate in the
/// next term, votes for itself, and resets its timer.
pub open spec fn tick_step(s: NodeView, now: u64, drawn: u64) -> NodeView {
    if tick_fires(s, now) {
        NodeView {
            state: NodeState::Candidate,
            current_term: (s.current_term + 1) as u64,
            votes_received: 1,
            election_timeout: drawn,
            last_heartbeat: now,
            ..s
        }
    } else {
        s
    }
}

/// The vote request a timer check at `now` broadcasts, if it starts an
/// election.
pub open spec fn tick_request(s: NodeView, now: u64) -> Option<MessageView> {
    if tick_fires(s, now) {
        Some(
            MessageView::RequestVote {
                term: (s.current_term + 1) as u64,
                candidate_id: s.addr,
            },
        )
    } else {
        None
    }
}

/// The node after handling message `m` at clock reading `now`, with `drawn`
/// the fresh random timeout used if the timer is reset.
///
/// Term dominance comes first: any message whose term strictly exceeds the
/// node's own makes the node adopt that term, demote to Follower and reset
/// its timer. Then, by kind:
/// - a vote request is granted exactly when its term strictly exceeded the
///   node's; any other vote request is silently refused;
/// - a heartbeat at the node's term or above is accepted: adopt the term,
///   demote to Follower, reset the timer; a stale one is ignored;
/// - a vote grant counts only for a Candidate at exactly the grant's term;
///   crossing the winning threshold makes the node Leader.
pub open spec fn handle_step(s: NodeView, m: MessageView, now: u64, drawn: u64) -> NodeView {
    match m {
        MessageView::RequestVote { term, candidate_id } => {
            if term > s.current_term {
                NodeView {
                    current_term: term,
                    state: NodeState::Follower,
                    election_timeout: drawn,
                    last_heartbeat: now,
                    ..s
                }
            } else {
                s
            }
        },
        MessageView::AppendEntries { term, leader_id } => {
            if term >= s.current_term {
                NodeView {
                    current_term: term,
                    state: NodeState::Follower,
                    election_timeout: drawn,
                    last_heartbeat: now,
                    ..s
                }
            } else {
                s
            }
        },
        MessageView::VoteGranted { term } => {
            if term > s.current_term {
                NodeView {
                    current_term: term,
                    state: NodeState::Follower,
                    election_timeout: drawn,
                    last_heartbeat: now,
                    ..s
                }
            } else if s.state == NodeState::Candidate && term == s.current_term {
                let votes = (s.votes_received + 1) as usize;
                if quorum_reached(votes as nat, s.peers.len()) {
                    NodeView { votes_received: votes, state: NodeState::Leader, ..s }
                } else {
                    NodeView { votes_received: votes, ..s }
                }
            } else {
                s
            }
        },
    }
}

/// The reply handling message `m` sends, and its destination: a granted vote
/// request is answered with `VoteGranted` at the adopted term, sent to the
/// candidate's endpoint; nothing else is answered.
pub open spec fn handle_reply(s: NodeView, m: MessageView) -> Option<(Seq<char>, MessageView)> {
    match m {
        MessageView::RequestVote { term, candidate_id } => {
            if term > s.current_term {
                Some((candidate_id, MessageView::VoteGranted { term }))
            } else {
                None
            }
        },
        _ => None,
    }
}

/// The heartbeat a node broadcasts: leaders announce their term and
/// endpoint; other roles send nothing.
pub open spec fn heartbeat_msg(s: NodeView) -> Option<MessageView> {
    if s.state == NodeState::Leader {
        Some(MessageView::AppendEntries { term: s.current_term, leader_id: s.addr })
    } else {
        None
    }
}

/// The value of an optional reply, for the contract of
/// [`RaftNode::handle_message`].
pub open spec fn opt_reply_view(r: Option<(String, Message)>) -> Option<
    (Seq<char>, MessageView),
> {
    match r {
        Some((target, m)) => Some((target@, m@)),
        None => None,
    }
}

/// Relies on `rand::Rng::gen_range` over `rand::thread_rng`: a value drawn
/// uniformly from the given half-open range, here `[150, 300)`.
#[verifier::external_body]
fn draw_election_timeout() -> (t: u64)
    ensures
        ELECTION_TIMEOUT_MIN_MS <= t < ELECTION_TIMEOUT_MAX_MS,
{
    rand::thread_rng().gen_range(ELECTION_TIMEOUT_MIN_MS..ELECTION_TIMEOUT_MAX_MS)
}

impl RaftNode {
    /// A fresh node: a Follower at term 0 with a randomized election timeout
    /// and its timer anchored at `now_ms`.
    pub fn new(address: String, peers: Vec<String>, now_ms: u64) -> (node: RaftNode)
        requires
            peers@.len() >= 2,
        ensures
            node@.addr == address@,
            node@.peers == peers.deep_view(),
            node@.state == NodeState::Follower,
            node@.current_term == 0,
            node@.votes_received == 0,
            node@.last_heartbeat == now_ms,
            ELECTION_TIMEOUT_MIN_MS <= node@.election_timeout < ELECTION_TIMEOUT_MAX_MS,
            wf(node@),
    {
        let n_peers: usize = peers.len();
        proof {
            assert(peers.deep_view().len() == n_peers);
        }
        RaftNode {
            address,
            peers,
            state: NodeState::Follower,
            current_term: 0,
            election_timeout: draw_election_timeout(),
            last_heartbeat: now_ms,
            votes_received: 0,
        }
    }

    /// Redraw the election timeout and anchor the timer at `now_ms`; every
    /// other field is untouched.
    pub fn reset_election_timeout(&mut self, now_ms: u64)
        ensures
            ELECTION_TIMEOUT_MIN_MS <= final(self)@.election_timeout < ELECTION_TIMEOUT_MAX_MS,
            final(self)@.last_heartbeat == now_ms,
            final(self)@.addr == old(self)@.addr,
            final(self)@.peers == old(self)@.peers,
            final(self)@.state == old(self)@.state,
            final(self)@.current_term == old(self)@.current_term,
            final(self)@.votes_received == old(self)@.votes_received,
    {
        self.election_timeout = draw_election_timeout();
        self.last_heartbeat = now_ms;
    }

    /// Whether the election timer has expired at clock reading `now_ms`.
    pub fn election_timed_out(&self, now_ms: u64) -> (r: bool)
        ensures
            r == timed_out(self@, now_ms),
    {
        now_ms >= self.last_heartbeat && now_ms - self.last_heartbeat >= self.election_timeout
    }

    /// One timer check at clock reading `now_ms`. If the timeout elapsed and
    /// this node is not the Leader, it becomes a Candidate: the term rises by
    /// exactly one, the vote count restarts at 1 for the self-vote, the timer
    /// is reset, and the vote request to broadcast to every peer is returned.
    /// Otherwise nothing changes and nothing is sent.
    pub fn tick(&mut self, now_ms: u64) -> (req: Option<Message>)
        requires
            wf(old(self)@),
            old(self).current_term < u64::MAX,
        ensures
            exists|drawn: u64|
                ELECTION_TIMEOUT_MIN_MS <= drawn < ELECTION_TIMEOUT_MAX_MS && final(self)@
                    == tick_step(old(self)@, now_ms, drawn),
            opt_msg_view(req) == tick_request(old(self)@, now_ms),
            wf(final(self)@),
            final(self)@.current_term >= old(self)@.current_term,
            tick_fires(old(self)@, now_ms) ==> final(self)@.state == NodeState::Candidate
                && final(self)@.votes_received == 1 && final(self)@.current_term == old(
                self,
            )@.current_term + 1,
            !tick_fires(old(self)@, now_ms) ==> final(self)@ == old(self)@ && req is None,
    {
        if self.election_timed_out(now_ms) && self.state != NodeState::Leader {
            self.state = NodeState::Candidate;
            self.current_term = self.current_term + 1;
            self.votes_received = 1;
            let req = Message::RequestVote {
                term: self.current_term,
                candidate_id: self.address.clone(),
            };
            self.reset_election_timeout(now_ms);
            proof {
                assert(self@ =~= tick_step(old(self)@, now_ms, self.election_timeout));
            }
            Some(req)
        } else {
            proof {
                assert(self@ =~= tick_step(old(self)@, now_ms, self.election_timeout));
            }
            None
        }
    }

    /// The heartbeat to broadcast right now: leaders announce their term and
    /// endpoint to every peer; other roles send nothing.
    pub fn heartbeat(&self) -> (hb: Option<Message>)
        ensures
            opt_msg_view(hb) == heartbeat_msg(self@),
    {
        if self.state == NodeState::Leader {
            Some(
                Message::AppendEntries {
                    term: self.current_term,
                    leader_id: self.address.clone(),
                },
            )
        } else {
            None
        }
    }

    /// Handle one decoded inbound message at clock reading `now_ms`,
    /// following [`handle_step`] exactly; the returned reply, if any, is the
    /// vote grant to send to the candidate's endpoint, per [`handle_reply`].
    ///
    /// Consequences stated here outright: the term never decreases and ends
    /// at or above the message's term, and a node that just became Leader
    /// crossed the winning threshold.
    pub fn handle_message(&mut self, message: Message, now_ms: u64) -> (reply: Option<
        (String, Message),
    >)
        requires
            wf(old(self)@),
        ensures
            exists|drawn: u64|
                ELECTION_TIMEOUT_MIN_MS <= drawn < ELECTION_TIMEOUT_MAX_MS && final(self)@
                    == handle_step(old(self)@, message@, now_ms, drawn),
            opt_reply_view(reply) == handle_reply(old(self)@, message@),
            wf(final(self)@),
            final(self)@.current_term >= old(self)@.current_term,
            final(self)@.current_term >= msg_term(message@),
            final(self)@.state == NodeState::Leader && old(self)@.state != NodeState::Leader
                ==> quorum_reached(final(self)@.votes_received as nat, old(self)@.peers.len()),
    {
        match message {
            Message::RequestVote { term, candidate_id } => {
                if term > self.current_term {
                    self.current_term = term;
                    self.state = NodeState::Follower;
                    self.reset_election_timeout(now_ms);
                    proof {
                        assert(self@ =~= handle_step(
                            old(self)@,
                            MessageView::RequestVote { term, candidate_id: candidate_id@ },
                            now_ms,
                            self.election_timeout,
                        ));
                    }
                    Some((candidate_id, Message::VoteGranted { term }))
                } else {
                    proof {
                        assert(self@ =~= handle_step(
                            old(self)@,
                            MessageView::RequestVote { term, candidate_id: candidate_id@ },
                            now_ms,
                            self.election_timeout,
                        ));
                    }
                    None
                }
            },
            Message::AppendEntries { term, leader_id } => {
                if term >= self.current_term {
                    self.current_term = term;
                    self.state = NodeState::Follower;
                    self.reset_election_timeout(now_ms);
                }
                proof {
                    assert(self@ =~= handle_step(
                        old(self)@,
                        MessageView::AppendEntries { term, leader_id: leader_id@ },
                        now_ms,
                        self.election_timeout,
                    ));
                }
                None
            },
            Message::VoteGranted { term } => {
                if term > self.current_term {
                    self.current_term = term;
                    self.state = NodeState::Follower;
                    self.reset_election_timeout(now_ms);
                } else if self.state == NodeState::Candidate && term == self.current_term {
                    self.votes_received = self.votes_received + 1;
                    if self.votes_received > self.peers.len() / 2 {
                        self.state = NodeState::Leader;
                    }
                }
                proof {
                    assert(self@ =~= handle_step(
                        old(self)@,
                        MessageView::VoteGranted { term },
                        now_ms,
                        self.election_timeout,
                    ));
                }
                None
            },
        }
    }
}

/// Heartbeat suppression: a node that accepted a heartbeat at clock reading
/// `recv` cannot start an election at any check before `recv` plus the
/// timeout it drew; in particular a Follower stays a Follower there.
pub proof fn lemma_heartbeat_suppression(
    s: NodeView,
    term: u64,
    leader: Seq<char>,
    recv: u64,
    drawn: u64,
    check: u64,
)
    requires
        term >= s.current_term,
        recv <= check < recv + drawn,
    ensures
        !tick_fires(
            handle_step(s, MessageView::AppendEntries { term, leader_id: leader }, recv, drawn),
            check,
        ),
        forall|d: u64|
            tick_step(
                handle_step(
                    s,
                    MessageView::AppendEntries { term, leader_id: leader },
                    recv,
                    drawn,
                ),
                check,
                d,
            ) == handle_step(
                s,
                MessageView::AppendEntries { term, leader_id: leader },
                recv,
                drawn,
            ),
{
}

/// Idempotent heartbeat: a heartbeat at exactly the node's current term
/// leaves the term unchanged, and since it also leaves the node at that
/// term, a repeated delivery changes the term no further.
pub proof fn lemma_heartbeat_idempotent(
    s: NodeView,
    term: u64,
    leader: Seq<char>,
    now: u64,
    drawn: u64,
    now2: u64,
    drawn2: u64,
)
    requires
        s.current_term == term,
    ensures
        handle_step(
            s,
            MessageView::AppendEntries { term, leader_id: leader },
            now,
            drawn,
        ).current_term == s.current_term,
        handle_step(
            handle_step(s, MessageView::AppendEntries { term, leader_id: leader }, now, drawn),
            MessageView::AppendEntries { term, leader_id: leader },
            now2,
            drawn2,
        ).current_term == s.current_term,
{
}

} // verus!

