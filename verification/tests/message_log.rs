use servyi_states::{EventVisitor, LogEntry, MessageLog, MessageLogLayer};

fn test_entry(log: &mut MessageLog, message: &str) -> LogEntry {
    LogEntry {
        seq: log.next_seq(),
        level: tracing::Level::INFO,
        target: "test".to_string(),
        message: message.to_string(),
        fields: vec![],
    }
}

#[test]
fn test_message_log_push_and_get() {
    let mut log = MessageLog::new();
    let entry = test_entry(&mut log, "hello");
    log.push("1.2".to_string(), entry);
    let entries = log.get("1.2");
    assert_eq!(entries.len(), 1);
    assert_eq!(entries[0].message, "hello");
    assert!(log.get("9.9").is_empty());
}

#[test]
fn entries_come_back_in_order_and_by_context() {
    let mut log = MessageLog::default();
    for (context, message) in [("1", "a"), ("2", "b"), ("1", "c"), ("1", "d")] {
        let entry = test_entry(&mut log, message);
        log.push(context.to_string(), entry);
    }
    let messages = |context: &str| -> Vec<String> {
        log.get(context).into_iter().map(|entry| entry.message).collect()
    };
    assert_eq!(messages("1"), vec!["a", "c", "d"]);
    assert_eq!(messages("2"), vec!["b"]);
    let numbers: Vec<u64> = log.get("1").iter().map(|entry| entry.seq).collect();
    assert_eq!(numbers, vec![0, 2, 3]);
}

#[test]
fn keys_name_each_context_once() {
    let mut log = MessageLog::new();
    assert!(log.keys().is_empty());
    for context in ["1.2", "3", "1.2", "4.5"] {
        let entry = test_entry(&mut log, "x");
        log.push(context.to_string(), entry);
    }
    let mut keys = log.keys();
    keys.sort();
    assert_eq!(keys, vec!["1.2", "3", "4.5"]);
    assert!(log.has("3"));
    assert!(!log.has("1"));
}

#[test]
fn statuses_are_kept_apart_from_entries() {
    let mut log = MessageLog::new();
    assert_eq!(log.get_status("1"), None);
    log.set_status("1".to_string(), "running".to_string());
    log.set_status("2".to_string(), "waiting".to_string());
    log.set_status("1".to_string(), "done".to_string());
    assert_eq!(log.get_status("1"), Some("done".to_string()));
    assert_eq!(log.get_status("2"), Some("waiting".to_string()));
    assert!(!log.has("1"));
    assert!(log.keys().is_empty());
}

#[test]
fn sequence_numbers_count_up_from_zero() {
    let mut log = MessageLog::new();
    assert_eq!(log.next_seq(), 0);
    assert_eq!(log.next_seq(), 1);
    assert_eq!(log.next_seq(), 2);
}

#[test]
fn cloned_entry_says_the_same() {
    let entry = LogEntry {
        seq: 9,
        level: tracing::Level::WARN,
        target: "t".to_string(),
        message: "m".to_string(),
        fields: vec![("k".to_string(), "v".to_string()), ("l".to_string(), "w".to_string())],
    };
    let copy = entry.clone();
    assert_eq!(copy.seq, 9);
    assert_eq!(copy.level, tracing::Level::WARN);
    assert_eq!(copy.target, "t");
    assert_eq!(copy.message, "m");
    assert_eq!(copy.fields, entry.fields);
}

#[test]
fn event_is_logged_for_each_context_it_names() {
    let mut layer = MessageLogLayer::new(MessageLog::new());
    let mut event = EventVisitor::new();
    event.record_str("ctx", "1.2");
    event.record_debug("message", "moved".to_string());
    event.record_u64("count", 12);
    event.record_debug("self.fctx", "7".to_string());
    layer.on_event(event, tracing::Level::DEBUG, "worker".to_string());
    for context in ["1.2", "7"] {
        let entries = layer.log.get(context);
        assert_eq!(entries.len(), 1);
        assert_eq!(entries[0].seq, 0);
        assert_eq!(entries[0].level, tracing::Level::DEBUG);
        assert_eq!(entries[0].target, "worker");
        assert_eq!(entries[0].message, "moved");
        assert_eq!(entries[0].fields, vec![("count".to_string(), "12".to_string())]);
    }
    assert_eq!(layer.log.keys().len(), 2);
}

#[test]
fn event_that_names_a_context_twice_is_logged_twice() {
    let mut layer = MessageLogLayer::new(MessageLog::new());
    let mut event = EventVisitor::new();
    event.record_str("ctx", "1");
    event.record_str("context_id", "1");
    layer.on_event(event, tracing::Level::INFO, String::new());
    let numbers: Vec<u64> = layer.log.get("1").iter().map(|entry| entry.seq).collect();
    assert_eq!(numbers, vec![0, 0]);
}

#[test]
fn event_without_a_context_is_passed_over() {
    let mut layer = MessageLogLayer::new(MessageLog::new());
    let mut event = EventVisitor::new();
    event.record_str("message", "nobody");
    event.record_u64("count", 5);
    layer.on_event(event, tracing::Level::INFO, "t".to_string());
    assert!(layer.log.keys().is_empty());
    assert_eq!(layer.log.next_seq(), 0);
}

#[test]
fn event_with_a_number_for_its_context_is_logged() {
    let mut layer = MessageLogLayer::new(MessageLog::new());
    let mut event = EventVisitor::new();
    event.record_u64("self.ctx", 5);
    event.record_u64("self.n", 8);
    layer.on_event(event, tracing::Level::INFO, "t".to_string());
    let entries = layer.log.get("5");
    assert_eq!(entries.len(), 1);
    assert_eq!(entries[0].fields, vec![("n".to_string(), "8".to_string())]);
}

#[test]
fn later_events_have_larger_numbers() {
    let mut layer = MessageLogLayer::new(MessageLog::new());
    for context in ["1", "2", "1"] {
        let mut event = EventVisitor::new();
        event.record_str("func_ctx", context);
        layer.on_event(event, tracing::Level::INFO, String::new());
    }
    let numbers: Vec<u64> = layer.log.get("1").iter().map(|entry| entry.seq).collect();
    assert_eq!(numbers, vec![0, 2]);
}
