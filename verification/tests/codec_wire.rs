use raft_election::codec::{decode, encode};
use raft_election::msg::Message;

#[test]
fn encode_request_vote_exact_bytes() {
    let m = Message::RequestVote {
        term: 1,
        candidate_id: "127.0.0.1:8081".to_string(),
    };
    let expected = b"{\"RequestVote\":{\"term\":1,\"candidate_id\":\"127.0.0.1:8081\"}}";
    assert_eq!(encode(&m), expected.to_vec());
}

#[test]
fn encode_append_entries_exact_bytes() {
    let m = Message::AppendEntries {
        term: 42,
        leader_id: "127.0.0.1:8082".to_string(),
    };
    let expected = b"{\"AppendEntries\":{\"term\":42,\"leader_id\":\"127.0.0.1:8082\"}}";
    assert_eq!(encode(&m), expected.to_vec());
}

#[test]
fn encode_vote_granted_exact_bytes() {
    let m = Message::VoteGranted { term: 7 };
    let expected = b"{\"VoteGranted\":{\"term\":7}}";
    assert_eq!(encode(&m), expected.to_vec());
}

#[test]
fn encode_escapes_special_characters() {
    let m = Message::RequestVote {
        term: 3,
        candidate_id: "a\"b\\c\nd\u{1}e".to_string(),
    };
    let expected =
        b"{\"RequestVote\":{\"term\":3,\"candidate_id\":\"a\\\"b\\\\c\\nd\\u0001e\"}}";
    assert_eq!(encode(&m), expected.to_vec());
}

#[test]
fn encode_large_term() {
    let m = Message::VoteGranted { term: u64::MAX };
    let expected = b"{\"VoteGranted\":{\"term\":18446744073709551615}}";
    assert_eq!(encode(&m), expected.to_vec());
}

#[test]
fn round_trip_request_vote() {
    let m = Message::RequestVote {
        term: 5,
        candidate_id: "127.0.0.1:8081".to_string(),
    };
    match decode(&encode(&m)) {
        Some(Message::RequestVote { term, candidate_id }) => {
            assert_eq!(term, 5);
            assert_eq!(candidate_id, "127.0.0.1:8081");
        }
        other => panic!("round trip failed: {:?}", other),
    }
}

#[test]
fn round_trip_append_entries() {
    let m = Message::AppendEntries {
        term: 0,
        leader_id: "h\u{e9}te:1".to_string(),
    };
    match decode(&encode(&m)) {
        Some(Message::AppendEntries { term, leader_id }) => {
            assert_eq!(term, 0);
            assert_eq!(leader_id, "h\u{e9}te:1");
        }
        other => panic!("round trip failed: {:?}", other),
    }
}

#[test]
fn round_trip_vote_granted() {
    let m = Message::VoteGranted { term: u64::MAX };
    match decode(&encode(&m)) {
        Some(Message::VoteGranted { term }) => assert_eq!(term, u64::MAX),
        other => panic!("round trip failed: {:?}", other),
    }
}

#[test]
fn round_trip_with_escapes() {
    let m = Message::RequestVote {
        term: 9,
        candidate_id: "x\"\\\n\r\t\u{8}\u{c}\u{1f}y".to_string(),
    };
    match decode(&encode(&m)) {
        Some(Message::RequestVote { term, candidate_id }) => {
            assert_eq!(term, 9);
            assert_eq!(candidate_id, "x\"\\\n\r\t\u{8}\u{c}\u{1f}y");
        }
        other => panic!("round trip failed: {:?}", other),
    }
}

#[test]
fn decode_accepts_whitespace() {
    let bytes =
        b" {\t\"VoteGranted\" : \n{ \"term\" : 12 }\r} ";
    match decode(&bytes.to_vec()) {
        Some(Message::VoteGranted { term }) => assert_eq!(term, 12),
        other => panic!("expected a vote grant, got {:?}", other),
    }
}

#[test]
fn decode_accepts_swapped_field_order() {
    let bytes = b"{\"RequestVote\":{\"candidate_id\":\"127.0.0.1:8081\",\"term\":3}}";
    match decode(&bytes.to_vec()) {
        Some(Message::RequestVote { term, candidate_id }) => {
            assert_eq!(term, 3);
            assert_eq!(candidate_id, "127.0.0.1:8081");
        }
        other => panic!("expected a vote request, got {:?}", other),
    }
}

#[test]
fn decode_accepts_escaped_tag() {
    // The tag itself may be written with escapes: it is still the same
    // JSON string.
    let bytes = b"{\"\\u0056oteGranted\":{\"term\":1}}";
    match decode(&bytes.to_vec()) {
        Some(Message::VoteGranted { term }) => assert_eq!(term, 1),
        other => panic!("expected a vote grant, got {:?}", other),
    }
}

#[test]
fn decode_accepts_max_term() {
    let bytes = b"{\"VoteGranted\":{\"term\":18446744073709551615}}";
    match decode(&bytes.to_vec()) {
        Some(Message::VoteGranted { term }) => assert_eq!(term, u64::MAX),
        other => panic!("expected a vote grant, got {:?}", other),
    }
}

#[test]
fn decode_rejects_term_overflow() {
    let bytes = b"{\"VoteGranted\":{\"term\":18446744073709551616}}";
    assert!(decode(&bytes.to_vec()).is_none());
}

#[test]
fn decode_rejects_leading_zero() {
    let bytes = b"{\"VoteGranted\":{\"term\":01}}";
    assert!(decode(&bytes.to_vec()).is_none());
}

#[test]
fn decode_rejects_unknown_tag() {
    let bytes = b"{\"InstallSnapshot\":{\"term\":1}}";
    assert!(decode(&bytes.to_vec()).is_none());
}

#[test]
fn decode_rejects_missing_field() {
    let bytes = b"{\"RequestVote\":{\"term\":1}}";
    assert!(decode(&bytes.to_vec()).is_none());
}

#[test]
fn decode_rejects_duplicate_field() {
    let bytes = b"{\"VoteGranted\":{\"term\":1,\"term\":2}}";
    assert!(decode(&bytes.to_vec()).is_none());
}

#[test]
fn decode_rejects_wrong_id_field() {
    let bytes = b"{\"RequestVote\":{\"term\":1,\"leader_id\":\"x\"}}";
    assert!(decode(&bytes.to_vec()).is_none());
}

#[test]
fn decode_rejects_trailing_garbage() {
    let bytes = b"{\"VoteGranted\":{\"term\":1}}x";
    assert!(decode(&bytes.to_vec()).is_none());
}

#[test]
fn decode_rejects_unterminated_string() {
    let bytes = b"{\"RequestVote\":{\"term\":1,\"candidate_id\":\"abc";
    assert!(decode(&bytes.to_vec()).is_none());
}

#[test]
fn decode_rejects_bad_escape() {
    let bytes = b"{\"RequestVote\":{\"term\":1,\"candidate_id\":\"a\\xb\"}}";
    assert!(decode(&bytes.to_vec()).is_none());
}

#[test]
fn decode_rejects_unescaped_control_character() {
    let bytes = b"{\"RequestVote\":{\"term\":1,\"candidate_id\":\"a\x01b\"}}";
    assert!(decode(&bytes.to_vec()).is_none());
}

#[test]
fn decode_rejects_invalid_utf8_in_string() {
    let mut bytes = b"{\"RequestVote\":{\"term\":1,\"candidate_id\":\"a".to_vec();
    bytes.push(0xff);
    bytes.extend_from_slice(b"b\"}}");
    assert!(decode(&bytes).is_none());
}

#[test]
fn decode_accepts_raw_utf8_in_string() {
    let text = format!(
        "{{\"AppendEntries\":{{\"term\":2,\"leader_id\":\"n\u{f8}de\"}}}}"
    );
    match decode(text.as_bytes()) {
        Some(Message::AppendEntries { term, leader_id }) => {
            assert_eq!(term, 2);
            assert_eq!(leader_id, "n\u{f8}de");
        }
        other => panic!("expected a heartbeat, got {:?}", other),
    }
}

#[test]
fn decode_rejects_non_ascii_unicode_escape() {
    let bytes = b"{\"AppendEntries\":{\"term\":2,\"leader_id\":\"n\\u00f8de\"}}";
    assert!(decode(&bytes.to_vec()).is_none());
}

#[test]
fn decode_accepts_ascii_unicode_escape() {
    let bytes = b"{\"AppendEntries\":{\"term\":2,\"leader_id\":\"\\u0041\\u002f\"}}";
    match decode(&bytes.to_vec()) {
        Some(Message::AppendEntries { term, leader_id }) => {
            assert_eq!(term, 2);
            assert_eq!(leader_id, "A/");
        }
        other => panic!("expected a heartbeat, got {:?}", other),
    }
}

#[test]
fn decode_rejects_empty_and_junk() {
    assert!(decode(&Vec::new()).is_none());
    assert!(decode(&b"   ".to_vec()).is_none());
    assert!(decode(&b"nonsense".to_vec()).is_none());
    assert!(decode(&b"{}".to_vec()).is_none());
    assert!(decode(&b"{\"VoteGranted\":{\"term\":}}".to_vec()).is_none());
    assert!(decode(&b"{\"VoteGranted\":{\"term\":1}".to_vec()).is_none());
}
