//! The durable state codec: encoding then decoding yields the record back.

use rafty::codec::{DurableState, decode_log_entry, decode_state, encode_log_entry, encode_state};
use rafty::kv::Command;
use rafty::log::LogEntry;
use rafty::primitives::{LogIndex, PeerId, Term};

#[test]
fn state_with_a_vote_round_trips() {
    let state = DurableState { current_term: Term(42), voted_for: Some(PeerId(7)) };
    let encoded = encode_state(&state);
    assert_eq!(encoded.iter().collect::<String>(), "42 7");
    assert_eq!(decode_state(&encoded), Some(state));
}

#[test]
fn state_without_a_vote_round_trips() {
    let state = DurableState { current_term: Term(0), voted_for: None };
    let encoded = encode_state(&state);
    assert_eq!(encoded.iter().collect::<String>(), "0 -");
    assert_eq!(decode_state(&encoded), Some(state));
}

#[test]
fn large_values_round_trip() {
    let state = DurableState {
        current_term: Term(usize::MAX),
        voted_for: Some(PeerId(usize::MAX - 1)),
    };
    let encoded = encode_state(&state);
    assert_eq!(decode_state(&encoded), Some(state));
}

#[test]
fn garbage_is_refused() {
    assert_eq!(decode_state(&"".chars().collect()), None);
    assert_eq!(decode_state(&"abc".chars().collect()), None);
    assert_eq!(decode_state(&"12".chars().collect()), None);
    assert_eq!(decode_state(&"12 ".chars().collect()), None);
    assert_eq!(decode_state(&"12 x".chars().collect()), None);
    assert_eq!(decode_state(&"99999999999999999999999999 1".chars().collect()), None);
}

#[test]
fn log_entries_round_trip() {
    let entries = vec![
        LogEntry::new(LogIndex(1), Term(1), Command::NoOp),
        LogEntry::new(
            LogIndex(2),
            Term(3),
            Command::Insert { key: "a key".to_string(), value: "a value".to_string() },
        ),
        LogEntry::new(
            LogIndex(30),
            Term(4),
            Command::Upsert { key: String::new(), value: "7 7".to_string() },
        ),
        LogEntry::new(LogIndex(31), Term(4), Command::Clear { key: "1 2 3".to_string() }),
    ];
    for entry in &entries {
        let encoded = encode_log_entry(entry);
        let decoded = decode_log_entry(&encoded);
        assert_eq!(decoded.as_ref(), Some(entry));
    }
}

#[test]
fn entry_lines_look_as_documented() {
    let entry = LogEntry::new(
        LogIndex(2),
        Term(3),
        Command::Insert { key: "k".to_string(), value: "v 1".to_string() },
    );
    let encoded: String = encode_log_entry(&entry).iter().collect();
    assert_eq!(encoded, "2 3 i 1 k 3 v 1");
}

#[test]
fn entry_garbage_is_refused() {
    assert_eq!(decode_log_entry(&"".chars().collect()), None);
    assert_eq!(decode_log_entry(&"1 2".chars().collect()), None);
    assert_eq!(decode_log_entry(&"1 2 x".chars().collect()), None);
    assert_eq!(decode_log_entry(&"1 2 i 5 ab".chars().collect()), None);
    assert_eq!(decode_log_entry(&"1 2 n extra".chars().collect()), None);
}
