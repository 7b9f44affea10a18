use messageiro::framing::{read_step, ReadOutcome, BUFFER_SIZE};
use messageiro::logging::{format_line, init_logger, level_name, Level, Logger};
use messageiro::registry::{Shared, SubscriptionTable};
use messageiro::types::{clone_body, clone_bytes, Error};

#[test]
fn short_read_completes_message() {
    let mut pending: Vec<u8> = vec![1, 2];
    let chunk = [3u8, 4u8];
    let outcome = read_step(&mut pending, &chunk);
    assert_eq!(outcome, ReadOutcome::MessageComplete);
    assert_eq!(pending, vec![1, 2, 3, 4]);
}

#[test]
fn empty_read_closes_connection() {
    let mut pending: Vec<u8> = vec![9];
    let chunk: [u8; 0] = [];
    let outcome = read_step(&mut pending, &chunk);
    assert_eq!(outcome, ReadOutcome::Closed);
    assert_eq!(pending, vec![9]);
}

#[test]
fn full_read_needs_more() {
    let mut pending: Vec<u8> = Vec::new();
    let chunk = vec![7u8; BUFFER_SIZE];
    let outcome = read_step(&mut pending, &chunk);
    assert_eq!(outcome, ReadOutcome::NeedMore);
    assert_eq!(pending.len(), BUFFER_SIZE);
}

#[test]
fn logger_takes_everything_up_to_debug() {
    let (logger, max) = init_logger();
    assert_eq!(max, Level::Debug);
    assert!(logger.enabled(Level::Error));
    assert!(logger.enabled(Level::Warn));
    assert!(logger.enabled(Level::Info));
    assert!(logger.enabled(Level::Debug));
    assert!(!logger.enabled(Level::Trace));
    logger.flush();
}

#[test]
fn log_line_layout() {
    let line = format_line(
        level_name(Level::Info),
        "2021-01-01T00:00:00",
        "broker",
        "listening",
    );
    assert_eq!(line, "(INFO) 2021-01-01T00:00:00 (broker): listening");
}

#[test]
fn registry_membership() {
    let mut shared = Shared::new();
    assert!(!shared.get_peer(5));
    shared.insert(5);
    shared.insert(8);
    assert!(shared.get_peer(5));
    assert!(shared.get_peer(8));
    assert!(!shared.get_peer(6));
    let by_default = Shared::default();
    assert!(!by_default.get_peer(5));
}

#[test]
fn subscription_table_keeps_order_and_duplicates() {
    let mut table = SubscriptionTable::new();
    let topic = "/t".to_string();
    table.subscribe(&topic, 1);
    table.subscribe(&topic, 2);
    table.subscribe(&topic, 1);
    assert_eq!(table.subscribers(&topic), vec![1, 2, 1]);
    table.unsubscribe(&topic, 1);
    assert_eq!(table.subscribers(&topic), vec![2]);
    table.unsubscribe(&"/missing".to_string(), 1);
    assert_eq!(table.subscribers(&"/missing".to_string()), Vec::<u128>::new());
}

#[test]
fn byte_copies_are_exact() {
    let v = vec![0u8, 1, 2, 255];
    assert_eq!(clone_bytes(&v), v);
    assert_eq!(clone_body(&Some(v.clone())), Some(v));
    assert_eq!(clone_body(&None), None);
}

#[test]
fn error_carries_its_message() {
    let e = Error::new("boom".to_string());
    assert_eq!(e.message().as_str(), "boom");
}
