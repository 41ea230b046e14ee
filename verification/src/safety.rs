//! An abstract model of a whole cluster's election history, and the proof
//! that at most one leader arises per term.
//!
//! The model watches a cluster of `n` members, numbered `0` to `n - 1`, and
//! records the current term of every member, every vote ever cast — the
//! self-vote a candidate casts on starting an election, and the grants
//! followers send back — and every leadership ever assumed. Each kind of
//! step carries exactly the guard the executable transitions of
//! [`crate::node`] enforce:
//!
//! - a member starts an election only by moving to the next term, voting for
//!   itself ([`start_election`], the contract of [`crate::node::RaftNode::tick`]);
//! - a member grants a vote only for a term strictly above its own, which it
//!   then adopts ([`grant_vote`], the vote-request arm of
//!   [`crate::node::handle_step`]);
//! - a member may otherwise adopt any term at or above its own, as the
//!   term-dominance rule does ([`observe_term`]);
//! - a candidate becomes leader at its current term only with grants from
//!   strictly more than half its peer count of distinct members
//!   ([`become_leader`], the vote-grant arm of [`crate::node::handle_step`]
//!   with each counted grant delivered once).
//!
//! Under those guards a member casts at most one vote per term, so for a
//! cluster of odd size two leaderships in one term would need two majorities
//! with a common member that voted for both: [`lemma_one_leader_per_term`]
//! derives the contradiction.

use vstd::prelude::*;
use vstd::set_lib::{lemma_int_range, lemma_len_subset, set_int_range};

use crate::node::quorum_reached;

verus! {

/// One vote in the history: `voter` granted `candidate` its vote for
/// `term`. A candidate's self-vote is recorded the same way.
#[verifier::ext_equal]
pub struct Vote {
    pub voter: int,
    pub term: u64,
    pub candidate: int,
}

/// One leadership in the history: `node` became Leader for `term`.
#[verifier::ext_equal]
pub struct Leadership {
    pub node: int,
    pub term: u64,
}

/// The abstract cluster: its size, every member's current term, and the
/// full history of votes and leaderships.
#[verifier::ext_equal]
pub struct ClusterView {
    pub n: nat,
    pub term_of: Map<int, u64>,
    pub votes: Set<Vote>,
    pub leaders: Set<Leadership>,
}

/// Whether `i` names a member of the cluster.
pub open spec fn valid_id(c: ClusterView, i: int) -> bool {
    0 <= i < c.n
}

/// The set of all member ids.
pub open spec fn member_ids(c: ClusterView) -> Set<int> {
    set_int_range(0, c.n as int)
}

/// The cluster at start-up: every member a Follower at term 0, no votes, no
/// leaders.
pub open spec fn init(n: nat) -> ClusterView {
    ClusterView {
        n,
        term_of: Map::new(|i: int| 0 <= i < n, |i: int| 0u64),
        votes: Set::empty(),
        leaders: Set::empty(),
    }
}

/// Member `candidate` starts an election: it moves to the next term and
/// votes for itself. This is the transition of [`crate::node::tick_step`]
/// when the timer fires.
pub open spec fn start_election(pre: ClusterView, post: ClusterView, candidate: int) -> bool {
    let next_term = (pre.term_of[candidate] + 1) as u64;
    &&& valid_id(pre, candidate)
    &&& pre.term_of[candidate] < u64::MAX
    &&& post == ClusterView {
        term_of: pre.term_of.insert(candidate, next_term),
        votes: pre.votes.insert(Vote { voter: candidate, term: next_term, candidate }),
        ..pre
    }
}

/// Member `voter` grants `candidate` its vote for `term`: only for a term
/// strictly above its own, which it adopts at once. This is the granting arm
/// of [`crate::node::handle_step`].
pub open spec fn grant_vote(
    pre: ClusterView,
    post: ClusterView,
    voter: int,
    term: u64,
    candidate: int,
) -> bool {
    &&& valid_id(pre, voter)
    &&& term > pre.term_of[voter]
    &&& post == ClusterView {
        term_of: pre.term_of.insert(voter, term),
        votes: pre.votes.insert(Vote { voter, term, candidate }),
        ..pre
    }
}

/// Member `node` adopts `term`, at or above its own, without voting: the
/// term-dominance rule on a heartbeat or a stale-free vote grant.
pub open spec fn observe_term(pre: ClusterView, post: ClusterView, node: int, term: u64) -> bool {
    &&& valid_id(pre, node)
    &&& term >= pre.term_of[node]
    &&& post == ClusterView { term_of: pre.term_of.insert(node, term), ..pre }
}

/// The distinct members `voters` all voted for `candidate` in `term`, and
/// they outnumber half the peer count: what a candidate has counted when it
/// crosses the winning threshold, provided each grant was delivered once.
pub open spec fn vote_quorum(c: ClusterView, candidate: int, term: u64, voters: Set<int>) -> bool {
    &&& voters.finite()
    &&& voters.subset_of(member_ids(c))
    &&& quorum_reached(voters.len(), (c.n - 1) as nat)
    &&& forall|v: int|
        voters.contains(v) ==> c.votes.contains(Vote { voter: v, term, candidate })
}

/// Candidate `candidate` becomes Leader for its current term, having
/// gathered the votes of the distinct members `voters`. This is the
/// vote-grant arm of [`crate::node::handle_step`] crossing the threshold.
pub open spec fn become_leader(
    pre: ClusterView,
    post: ClusterView,
    candidate: int,
    term: u64,
    voters: Set<int>,
) -> bool {
    &&& valid_id(pre, candidate)
    &&& term == pre.term_of[candidate]
    &&& vote_quorum(pre, candidate, term, voters)
    &&& post == ClusterView { leaders: pre.leaders.insert(Leadership { node: candidate, term }), ..pre }
}

/// One step of the cluster.
pub enum ClusterStep {
    StartElection { candidate: int },
    GrantVote { voter: int, term: u64, candidate: int },
    ObserveTerm { node: int, term: u64 },
    BecomeLeader { candidate: int, term: u64, voters: Set<int> },
}

/// Whether `s` takes the cluster from `pre` to `post`.
pub open spec fn step(pre: ClusterView, post: ClusterView, s: ClusterStep) -> bool {
    match s {
        ClusterStep::StartElection { candidate } => start_election(pre, post, candidate),
        ClusterStep::GrantVote { voter, term, candidate } => grant_vote(
            pre,
            post,
            voter,
            term,
            candidate,
        ),
        ClusterStep::ObserveTerm { node, term } => observe_term(pre, post, node, term),
        ClusterStep::BecomeLeader { candidate, term, voters } => become_leader(
            pre,
            post,
            candidate,
            term,
            voters,
        ),
    }
}

/// Whether the cluster can move from `pre` to `post` in one step.
pub open spec fn next(pre: ClusterView, post: ClusterView) -> bool {
    exists|s: ClusterStep| step(pre, post, s)
}

/// The inductive invariant of the history:
/// - every member has a term;
/// - a member casts at most one vote per term;
/// - every vote was cast at or below its voter's current term, by a member;
/// - every leadership rests on a quorum of votes.
pub open spec fn inv(c: ClusterView) -> bool {
    &&& c.term_of.dom() == member_ids(c)
    &&& forall|v1: Vote, v2: Vote|
        c.votes.contains(v1) && c.votes.contains(v2) && v1.voter == v2.voter && v1.term == v2.term
            ==> v1.candidate == v2.candidate
    &&& forall|v: Vote|
        c.votes.contains(v) ==> valid_id(c, v.voter) && v.term <= c.term_of[v.voter]
    &&& forall|l: Leadership|
        c.leaders.contains(l) ==> exists|voters: Set<int>| vote_quorum(c, l.node, l.term, voters)
}

/// The invariant holds at start-up.
pub proof fn lemma_init_inv(n: nat)
    ensures
        inv(init(n)),
{
    assert(init(n).term_of.dom() =~= member_ids(init(n)));
}

/// The invariant is preserved by every step.
pub proof fn lemma_next_inv(pre: ClusterView, post: ClusterView)
    requires
        inv(pre),
        next(pre, post),
    ensures
        inv(post),
{
    let s = choose|s: ClusterStep| step(pre, post, s);
    match s {
        ClusterStep::StartElection { candidate } => {
            let next_term = (pre.term_of[candidate] + 1) as u64;
            lemma_vote_added_inv(pre, post, candidate, next_term, candidate);
        },
        ClusterStep::GrantVote { voter, term, candidate } => {
            lemma_vote_added_inv(pre, post, voter, term, candidate);
        },
        ClusterStep::ObserveTerm { node, term } => {
            assert(post.term_of.dom() =~= member_ids(post));
            assert forall|l: Leadership| post.leaders.contains(l) implies exists|voters: Set<int>|
                vote_quorum(post, l.node, l.term, voters) by {
                let voters = choose|voters: Set<int>| vote_quorum(pre, l.node, l.term, voters);
                assert(vote_quorum(post, l.node, l.term, voters));
            }
        },
        ClusterStep::BecomeLeader { candidate, term, voters } => {
            assert forall|l: Leadership| post.leaders.contains(l) implies exists|vs: Set<int>|
                vote_quorum(post, l.node, l.term, vs) by {
                if l == (Leadership { node: candidate, term }) {
                    assert(vote_quorum(post, l.node, l.term, voters));
                } else {
                    let vs = choose|vs: Set<int>| vote_quorum(pre, l.node, l.term, vs);
                    assert(vote_quorum(post, l.node, l.term, vs));
                }
            }
        },
    }
}

/// Both vote-casting steps add one vote for a term strictly above the
/// voter's, which the voter adopts: the invariant survives.
proof fn lemma_vote_added_inv(
    pre: ClusterView,
    post: ClusterView,
    voter: int,
    term: u64,
    candidate: int,
)
    requires
        inv(pre),
        valid_id(pre, voter),
        term > pre.term_of[voter],
        post == (ClusterView {
            term_of: pre.term_of.insert(voter, term),
            votes: pre.votes.insert(Vote { voter, term, candidate }),
            ..pre
        }),
    ensures
        inv(post),
{
    assert(post.term_of.dom() =~= member_ids(post));
    let nv = Vote { voter, term, candidate };
    assert forall|v1: Vote, v2: Vote|
        post.votes.contains(v1) && post.votes.contains(v2) && v1.voter == v2.voter && v1.term
            == v2.term implies v1.candidate == v2.candidate by {
        if v1 != nv && v2 != nv {
            assert(pre.votes.contains(v1) && pre.votes.contains(v2));
        } else if v1 == nv && v2 != nv {
            assert(pre.votes.contains(v2));
        } else if v1 != nv && v2 == nv {
            assert(pre.votes.contains(v1));
        }
    }
    assert forall|l: Leadership| post.leaders.contains(l) implies exists|voters: Set<int>|
        vote_quorum(post, l.node, l.term, voters) by {
        let voters = choose|voters: Set<int>| vote_quorum(pre, l.node, l.term, voters);
        assert(vote_quorum(post, l.node, l.term, voters));
    }
}

/// Terms never move backwards: every step leaves every member's term at
/// or above where it was.
pub proof fn lemma_next_term_monotonic(pre: ClusterView, post: ClusterView)
    requires
        next(pre, post),
    ensures
        forall|i: int|
            pre.term_of.dom().contains(i) ==> post.term_of.dom().contains(i)
                && post.term_of[i] >= pre.term_of[i],
{
    let s = choose|s: ClusterStep| step(pre, post, s);
    match s {
        ClusterStep::StartElection { candidate } => {
        },
        ClusterStep::GrantVote { voter, term, candidate } => {
        },
        ClusterStep::ObserveTerm { node, term } => {
        },
        ClusterStep::BecomeLeader { candidate, term, voters } => {
        },
    }
}

/// A node whose election timer fires takes exactly a [`start_election`]
/// step of the cluster model: the executable transition
/// [`crate::node::tick_step`] and the model agree on the guard and on the
/// new term.
pub proof fn lemma_tick_refines_start_election(
    c: ClusterView,
    s: crate::node::NodeView,
    now: u64,
    drawn: u64,
    i: int,
)
    requires
        valid_id(c, i),
        c.term_of[i] == s.current_term,
        s.current_term < u64::MAX,
        crate::node::tick_fires(s, now),
    ensures
        ({
            let next_term = (c.term_of[i] + 1) as u64;
            let post = ClusterView {
                term_of: c.term_of.insert(i, next_term),
                votes: c.votes.insert(Vote { voter: i, term: next_term, candidate: i }),
                ..c
            };
            &&& start_election(c, post, i)
            &&& next(c, post)
            &&& post.term_of[i] == crate::node::tick_step(s, now, drawn).current_term
            &&& crate::node::tick_step(s, now, drawn).votes_received == 1
        }),
{
    let next_term = (c.term_of[i] + 1) as u64;
    let post = ClusterView {
        term_of: c.term_of.insert(i, next_term),
        votes: c.votes.insert(Vote { voter: i, term: next_term, candidate: i }),
        ..c
    };
    assert(step(c, post, ClusterStep::StartElection { candidate: i }));
}

/// A node that grants a vote request takes exactly a [`grant_vote`] step
/// of the cluster model: the guard `term > current_term` of the granting
/// arm of [`crate::node::handle_step`] is the model's guard, and both
/// adopt the candidate's term.
pub proof fn lemma_grant_refines_grant_vote(
    c: ClusterView,
    s: crate::node::NodeView,
    term: u64,
    cand_addr: Seq<char>,
    now: u64,
    drawn: u64,
    i: int,
    j: int,
)
    requires
        valid_id(c, i),
        valid_id(c, j),
        c.term_of[i] == s.current_term,
        term > s.current_term,
    ensures
        ({
            let post = ClusterView {
                term_of: c.term_of.insert(i, term),
                votes: c.votes.insert(Vote { voter: i, term, candidate: j }),
                ..c
            };
            let stepped = crate::node::handle_step(
                s,
                crate::msg::MessageView::RequestVote { term, candidate_id: cand_addr },
                now,
                drawn,
            );
            &&& grant_vote(c, post, i, term, j)
            &&& next(c, post)
            &&& post.term_of[i] == stepped.current_term
            &&& stepped.state == crate::node::NodeState::Follower
        }),
{
    let post = ClusterView {
        term_of: c.term_of.insert(i, term),
        votes: c.votes.insert(Vote { voter: i, term, candidate: j }),
        ..c
    };
    assert(step(c, post, ClusterStep::GrantVote { voter: i, term, candidate: j }));
}

/// Two disjoint finite sets have a union of exactly the summed size.
proof fn lemma_disjoint_union_len(s1: Set<int>, s2: Set<int>)
    requires
        s1.finite(),
        s2.finite(),
        s1.disjoint(s2),
    ensures
        s1.union(s2).len() == s1.len() + s2.len(),
    decreases s1.len(),
{
    if s1.len() == 0 {
        assert(s1.union(s2) =~= s2);
    } else {
        let a = s1.choose();
        assert(s1.contains(a));
        assert(s1.remove(a).union(s2) =~= s1.union(s2).remove(a));
        lemma_disjoint_union_len(s1.remove(a), s2);
    }
}

/// Two sets of members that each outnumber half the peer count share a
/// member, provided the cluster size is odd.
proof fn lemma_quorums_intersect(
    c: ClusterView,
    voters1: Set<int>,
    voters2: Set<int>,
) -> (common: int)
    requires
        c.n % 2 == 1,
        voters1.finite(),
        voters2.finite(),
        voters1.subset_of(member_ids(c)),
        voters2.subset_of(member_ids(c)),
        quorum_reached(voters1.len(), (c.n - 1) as nat),
        quorum_reached(voters2.len(), (c.n - 1) as nat),
    ensures
        voters1.contains(common),
        voters2.contains(common),
{
    lemma_int_range(0, c.n as int);
    if voters1.disjoint(voters2) {
        lemma_disjoint_union_len(voters1, voters2);
        lemma_len_subset(voters1.union(voters2), member_ids(c));
        assert(voters1.len() + voters2.len() <= c.n);
        assert(voters1.len() > ((c.n - 1) as nat) / 2);
        assert(false);
    }
    choose|v: int| voters1.contains(v) && voters2.contains(v)
}

/// At most one leader per term: in a cluster of odd size whose history
/// satisfies the invariant, two leaderships for the same term belong to the
/// same member. Two winners would each hold a majority, the majorities would
/// share a member, and that member would have cast two votes in one term.
pub proof fn lemma_one_leader_per_term(c: ClusterView, l1: Leadership, l2: Leadership)
    requires
        inv(c),
        c.n % 2 == 1,
        c.leaders.contains(l1),
        c.leaders.contains(l2),
        l1.term == l2.term,
    ensures
        l1.node == l2.node,
{
    let voters1 = choose|voters: Set<int>| vote_quorum(c, l1.node, l1.term, voters);
    let voters2 = choose|voters: Set<int>| vote_quorum(c, l2.node, l2.term, voters);
    let common = lemma_quorums_intersect(c, voters1, voters2);
    assert(c.votes.contains(Vote { voter: common, term: l1.term, candidate: l1.node }));
    assert(c.votes.contains(Vote { voter: common, term: l2.term, candidate: l2.node }));
}

} // verus!
