//! Key/value machine behavior.

use rafty::kv::{Command, CommandResult, Machine, Query, QueryResult};

#[test]
fn insert_fails_on_existing_key() {
    let mut machine = Machine::new();
    let first = machine.apply(&Command::Insert { key: "a".to_string(), value: "1".to_string() });
    assert_eq!(first, CommandResult::Done);
    let second = machine.apply(&Command::Insert { key: "a".to_string(), value: "2".to_string() });
    assert_eq!(second, CommandResult::AlreadyExists);
    let value = machine.query(&Query::Entry { key: "a".to_string() });
    assert_eq!(value, QueryResult::Entry { value: Some("1".to_string()) });
}

#[test]
fn upsert_overwrites() {
    let mut machine = Machine::new();
    machine.apply(&Command::Insert { key: "a".to_string(), value: "1".to_string() });
    let result = machine.apply(&Command::Upsert { key: "a".to_string(), value: "2".to_string() });
    assert_eq!(result, CommandResult::Done);
    let value = machine.query(&Query::Entry { key: "a".to_string() });
    assert_eq!(value, QueryResult::Entry { value: Some("2".to_string()) });
}

#[test]
fn clear_removes_and_no_op_does_nothing() {
    let mut machine = Machine::new();
    machine.apply(&Command::Insert { key: "a".to_string(), value: "1".to_string() });
    machine.apply(&Command::Insert { key: "b".to_string(), value: "2".to_string() });
    assert_eq!(machine.query(&Query::Length), QueryResult::Length { length: 2 });
    assert_eq!(machine.apply(&Command::NoOp), CommandResult::Done);
    assert_eq!(machine.query(&Query::Length), QueryResult::Length { length: 2 });
    assert_eq!(machine.apply(&Command::Clear { key: "a".to_string() }), CommandResult::Done);
    assert_eq!(machine.query(&Query::Length), QueryResult::Length { length: 1 });
    assert_eq!(
        machine.query(&Query::Entry { key: "a".to_string() }),
        QueryResult::Entry { value: None },
    );
}

#[test]
fn clearing_a_missing_key_is_done() {
    let mut machine = Machine::new();
    assert_eq!(machine.apply(&Command::Clear { key: "ghost".to_string() }), CommandResult::Done);
    assert_eq!(machine.query(&Query::Length), QueryResult::Length { length: 0 });
}

#[test]
fn machines_with_the_same_history_agree() {
    let history = vec![
        Command::Insert { key: "x".to_string(), value: "1".to_string() },
        Command::Upsert { key: "y".to_string(), value: "2".to_string() },
        Command::Clear { key: "x".to_string() },
    ];
    let mut first = Machine::new();
    let mut second = Machine::new();
    for command in &history {
        first.apply(command);
        second.apply(command);
    }
    assert!(first.deep_eq(&second));
    assert_eq!(first.query(&Query::Length), second.query(&Query::Length));
}
