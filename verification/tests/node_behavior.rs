use raft_election::msg::Message;
use raft_election::node::{NodeState, RaftNode};

fn three_node(addr: &str) -> RaftNode {
    let peers: Vec<String> = vec![
        "127.0.0.1:8082".to_string(),
        "127.0.0.1:8083".to_string(),
    ];
    RaftNode::new(addr.to_string(), peers, 0)
}

#[test]
fn new_node_defaults() {
    let n = three_node("127.0.0.1:8081");
    assert_eq!(n.address, "127.0.0.1:8081");
    assert_eq!(n.peers.len(), 2);
    assert_eq!(n.state, NodeState::Follower);
    assert_eq!(n.current_term, 0);
    assert_eq!(n.votes_received, 0);
    assert_eq!(n.last_heartbeat, 0);
    assert!(n.election_timeout >= 150 && n.election_timeout < 300);
}

#[test]
fn reset_redraws_within_range() {
    let mut n = three_node("127.0.0.1:8081");
    for now in [5u64, 700, 12345] {
        n.reset_election_timeout(now);
        assert_eq!(n.last_heartbeat, now);
        assert!(n.election_timeout >= 150 && n.election_timeout < 300);
    }
}

#[test]
fn tick_before_timeout_does_nothing() {
    let mut n = three_node("127.0.0.1:8081");
    let req = n.tick(100);
    assert!(req.is_none());
    assert_eq!(n.state, NodeState::Follower);
    assert_eq!(n.current_term, 0);
}

#[test]
fn tick_after_timeout_starts_election() {
    let mut n = three_node("127.0.0.1:8081");
    let req = n.tick(400);
    match req {
        Some(Message::RequestVote { term, candidate_id }) => {
            assert_eq!(term, 1);
            assert_eq!(candidate_id, "127.0.0.1:8081");
        }
        other => panic!("expected a vote request, got {:?}", other),
    }
    assert_eq!(n.state, NodeState::Candidate);
    assert_eq!(n.current_term, 1);
    assert_eq!(n.votes_received, 1);
    assert_eq!(n.last_heartbeat, 400);
}

#[test]
fn candidate_reaches_quorum_with_one_grant() {
    let mut n = three_node("127.0.0.1:8081");
    n.tick(400);
    let reply = n.handle_message(Message::VoteGranted { term: 1 }, 410);
    assert!(reply.is_none());
    assert_eq!(n.state, NodeState::Leader);
    assert_eq!(n.votes_received, 2);
    assert_eq!(n.current_term, 1);
}

#[test]
fn five_node_cluster_needs_two_grants() {
    let peers: Vec<String> = (2..=5)
        .map(|p| format!("127.0.0.1:808{}", p))
        .collect();
    let mut n = RaftNode::new("127.0.0.1:8081".to_string(), peers, 0);
    n.tick(400);
    n.handle_message(Message::VoteGranted { term: 1 }, 410);
    assert_eq!(n.state, NodeState::Candidate);
    assert_eq!(n.votes_received, 2);
    n.handle_message(Message::VoteGranted { term: 1 }, 420);
    assert_eq!(n.state, NodeState::Leader);
    assert_eq!(n.votes_received, 3);
}

#[test]
fn stale_vote_grant_is_ignored() {
    // A candidate at term 5 gets a grant stamped with term 0.
    let mut n = three_node("127.0.0.1:8081");
    for round in 1..=5u64 {
        let now = 400 * round;
        n.tick(now);
        assert_eq!(n.current_term, round);
    }
    assert_eq!(n.state, NodeState::Candidate);
    assert_eq!(n.votes_received, 1);
    let reply = n.handle_message(Message::VoteGranted { term: 0 }, 2100);
    assert!(reply.is_none());
    assert_eq!(n.votes_received, 1);
    assert_eq!(n.state, NodeState::Candidate);
    assert_eq!(n.current_term, 5);
}

#[test]
fn higher_term_vote_request_demotes_leader() {
    // A leader at term 1 sees a vote request for term 99: it demotes,
    // adopts the term, and grants the vote to the candidate's endpoint.
    let mut n = three_node("127.0.0.1:8081");
    n.tick(400);
    n.handle_message(Message::VoteGranted { term: 1 }, 410);
    assert_eq!(n.state, NodeState::Leader);
    let reply = n.handle_message(
        Message::RequestVote {
            term: 99,
            candidate_id: "127.0.0.1:9999".to_string(),
        },
        500,
    );
    match reply {
        Some((target, Message::VoteGranted { term })) => {
            assert_eq!(target, "127.0.0.1:9999");
            assert_eq!(term, 99);
        }
        other => panic!("expected a vote grant, got {:?}", other),
    }
    assert_eq!(n.state, NodeState::Follower);
    assert_eq!(n.current_term, 99);
    assert_eq!(n.last_heartbeat, 500);
}

#[test]
fn equal_term_vote_request_is_refused() {
    let mut n = three_node("127.0.0.1:8081");
    n.tick(400);
    assert_eq!(n.current_term, 1);
    let reply = n.handle_message(
        Message::RequestVote {
            term: 1,
            candidate_id: "127.0.0.1:8082".to_string(),
        },
        410,
    );
    assert!(reply.is_none());
    assert_eq!(n.state, NodeState::Candidate);
    assert_eq!(n.current_term, 1);
}

#[test]
fn single_vote_per_term() {
    // Once a node grants its vote for term 1, a second candidate asking
    // for term 1 is refused: the adopted term blocks the second grant.
    let mut c = three_node("127.0.0.1:8083");
    let first = c.handle_message(
        Message::RequestVote {
            term: 1,
            candidate_id: "127.0.0.1:8081".to_string(),
        },
        50,
    );
    assert!(first.is_some());
    let second = c.handle_message(
        Message::RequestVote {
            term: 1,
            candidate_id: "127.0.0.1:8082".to_string(),
        },
        60,
    );
    assert!(second.is_none());
    assert_eq!(c.current_term, 1);
}

#[test]
fn heartbeat_adopts_term_and_resets_timer() {
    let mut n = three_node("127.0.0.1:8081");
    let reply = n.handle_message(
        Message::AppendEntries {
            term: 3,
            leader_id: "127.0.0.1:8082".to_string(),
        },
        1000,
    );
    assert!(reply.is_none());
    assert_eq!(n.state, NodeState::Follower);
    assert_eq!(n.current_term, 3);
    assert_eq!(n.last_heartbeat, 1000);
}

#[test]
fn stale_heartbeat_is_ignored() {
    let mut n = three_node("127.0.0.1:8081");
    n.handle_message(
        Message::AppendEntries {
            term: 5,
            leader_id: "127.0.0.1:8082".to_string(),
        },
        100,
    );
    let timeout_before = n.election_timeout;
    n.handle_message(
        Message::AppendEntries {
            term: 1,
            leader_id: "127.0.0.1:8083".to_string(),
        },
        200,
    );
    assert_eq!(n.current_term, 5);
    assert_eq!(n.last_heartbeat, 100);
    assert_eq!(n.election_timeout, timeout_before);
}

#[test]
fn repeated_heartbeat_at_same_term_keeps_term() {
    // An idempotent heartbeat: however often the leader repeats
    // AppendEntries at the node's own term, the term stays put.
    let mut n = three_node("127.0.0.1:8081");
    n.handle_message(
        Message::AppendEntries {
            term: 7,
            leader_id: "127.0.0.1:8082".to_string(),
        },
        100,
    );
    assert_eq!(n.current_term, 7);
    for round in 0..5u64 {
        n.handle_message(
            Message::AppendEntries {
                term: 7,
                leader_id: "127.0.0.1:8082".to_string(),
            },
            200 + round * 100,
        );
        assert_eq!(n.current_term, 7);
        assert_eq!(n.state, NodeState::Follower);
    }
}

#[test]
fn heartbeat_suppresses_election() {
    // A follower that took a heartbeat at time t cannot start an election
    // before t + its timeout; the timeout is below 300 ms, so a check at
    // t + 149 never fires.
    let mut n = three_node("127.0.0.1:8081");
    n.handle_message(
        Message::AppendEntries {
            term: 1,
            leader_id: "127.0.0.1:8082".to_string(),
        },
        1000,
    );
    let req = n.tick(1000 + 149);
    assert!(req.is_none());
    assert_eq!(n.state, NodeState::Follower);
    assert_eq!(n.current_term, 1);
}

#[test]
fn term_dominance_on_every_message_kind() {
    // After a message stamped with term 10, the node's term is at least 10,
    // whatever the kind.
    for msg in [
        Message::RequestVote {
            term: 10,
            candidate_id: "127.0.0.1:8082".to_string(),
        },
        Message::AppendEntries {
            term: 10,
            leader_id: "127.0.0.1:8082".to_string(),
        },
        Message::VoteGranted { term: 10 },
    ] {
        let mut n = three_node("127.0.0.1:8081");
        n.handle_message(msg, 100);
        assert!(n.current_term >= 10);
        assert_eq!(n.state, NodeState::Follower);
    }
}

#[test]
fn term_never_decreases() {
    let mut n = three_node("127.0.0.1:8081");
    let mut highest = 0u64;
    let script: Vec<(Message, u64)> = vec![
        (Message::AppendEntries { term: 4, leader_id: "127.0.0.1:8082".to_string() }, 10),
        (Message::VoteGranted { term: 2 }, 20),
        (Message::RequestVote { term: 9, candidate_id: "127.0.0.1:8083".to_string() }, 30),
        (Message::AppendEntries { term: 1, leader_id: "127.0.0.1:8082".to_string() }, 40),
        (Message::VoteGranted { term: 9 }, 50),
        (Message::RequestVote { term: 3, candidate_id: "127.0.0.1:8082".to_string() }, 60),
    ];
    for (msg, now) in script {
        n.handle_message(msg, now);
        assert!(n.current_term >= highest);
        highest = n.current_term;
    }
    n.tick(100_000);
    assert!(n.current_term >= highest);
}

#[test]
fn leader_heartbeat_message() {
    let mut n = three_node("127.0.0.1:8081");
    assert!(n.heartbeat().is_none());
    n.tick(400);
    assert!(n.heartbeat().is_none());
    n.handle_message(Message::VoteGranted { term: 1 }, 410);
    match n.heartbeat() {
        Some(Message::AppendEntries { term, leader_id }) => {
            assert_eq!(term, 1);
            assert_eq!(leader_id, "127.0.0.1:8081");
        }
        other => panic!("expected a heartbeat, got {:?}", other),
    }
}

#[test]
fn leader_does_not_tick_itself_out() {
    let mut n = three_node("127.0.0.1:8081");
    n.tick(400);
    n.handle_message(Message::VoteGranted { term: 1 }, 410);
    assert_eq!(n.state, NodeState::Leader);
    let req = n.tick(10_000);
    assert!(req.is_none());
    assert_eq!(n.state, NodeState::Leader);
    assert_eq!(n.current_term, 1);
}

#[test]
fn candidate_restarts_election_on_split_vote() {
    // A candidate that gathers no quorum before its timeout starts a new
    // election at the next term with a fresh self-vote.
    let mut n = three_node("127.0.0.1:8081");
    n.tick(400);
    assert_eq!((n.current_term, n.votes_received), (1, 1));
    let req = n.tick(400 + 300);
    match req {
        Some(Message::RequestVote { term, .. }) => assert_eq!(term, 2),
        other => panic!("expected a vote request, got {:?}", other),
    }
    assert_eq!(n.state, NodeState::Candidate);
    assert_eq!(n.current_term, 2);
    assert_eq!(n.votes_received, 1);
}
