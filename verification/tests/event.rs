use servyi_states::event::normalize_field_name;
use servyi_states::EventVisitor;

fn field(name: &str, value: &str) -> (String, String) {
    (name.to_string(), value.to_string())
}

#[test]
fn self_prefix_is_stripped_once() {
    assert_eq!(normalize_field_name("self.ctx"), "ctx");
    assert_eq!(normalize_field_name("self.self.ctx"), "self.ctx");
    assert_eq!(normalize_field_name("self."), "");
    assert_eq!(normalize_field_name("self"), "self");
    assert_eq!(normalize_field_name("selfish"), "selfish");
    assert_eq!(normalize_field_name("a.self.b"), "a.self.b");
    assert_eq!(normalize_field_name("self.größe"), "größe");
}

#[test]
fn context_fields_are_told_from_the_others() {
    let mut event = EventVisitor::new();
    for name in ["ctx", "context_id", "func_ctx", "fctx", "self.ctx"] {
        event.record_str(name, name);
    }
    event.record_str("ctx2", "other");
    event.record_str("Ctx", "other");
    assert_eq!(event.context_ids, vec!["ctx", "context_id", "func_ctx", "fctx", "self.ctx"]);
    assert_eq!(event.fields, vec![field("ctx2", "other"), field("Ctx", "other")]);
}

#[test]
fn last_message_counts() {
    let mut event = EventVisitor::new();
    assert_eq!(event.message, "");
    event.record_debug("message", "first".to_string());
    event.record_str("self.message", "second");
    assert_eq!(event.message, "second");
    assert!(event.fields.is_empty());
}

#[test]
fn text_fields_have_their_names_normalized() {
    let mut event = EventVisitor::new();
    event.record_str("self.name", "a");
    event.record_debug("self.kind", "B".to_string());
    assert_eq!(event.fields, vec![field("name", "a"), field("kind", "B")]);
}

#[test]
fn fields_of_every_kind_have_their_names_normalized() {
    let mut event = EventVisitor::new();
    event.record_u64("self.n", 5);
    event.record_i64("self.i", -5);
    event.record_bool("self.b", true);
    event.record_f64("self.f", 1.5f64.to_string());
    event.record_bytes("self.raw", &[1, 2]);
    assert_eq!(
        event.fields,
        vec![
            field("n", "5"),
            field("i", "-5"),
            field("b", "true"),
            field("f", "1.5"),
            field("raw", "[1, 2]"),
        ]
    );
    assert!(event.context_ids.is_empty());
    assert_eq!(event.message, "");
}

#[test]
fn fields_of_every_kind_may_be_context_ids() {
    let mut event = EventVisitor::new();
    event.record_u64("ctx", 5);
    event.record_u64("self.ctx", 6);
    event.record_i64("context_id", -7);
    event.record_bool("self.func_ctx", false);
    event.record_f64("fctx", "1.5".to_string());
    event.record_bytes("self.fctx", &[9]);
    assert_eq!(event.context_ids, vec!["5", "6", "-7", "false", "1.5", "[9]"]);
    assert!(event.fields.is_empty());
}

#[test]
fn only_text_can_be_the_message() {
    let mut event = EventVisitor::new();
    event.record_str("message", "text");
    event.record_u64("message", 12);
    event.record_i64("message", -1);
    event.record_bool("self.message", true);
    event.record_f64("message", "1.5".to_string());
    event.record_bytes("message", &[3]);
    assert_eq!(event.message, "text");
    assert_eq!(
        event.fields,
        vec![
            field("message", "12"),
            field("message", "-1"),
            field("message", "true"),
            field("message", "1.5"),
            field("message", "[3]"),
        ]
    );
}

#[test]
fn numbers_are_written_in_decimal() {
    let mut event = EventVisitor::new();
    for value in [0u64, 7, 10, 909, u64::MAX] {
        event.record_u64("n", value);
    }
    for value in [0i64, -1, 42, i64::MAX, i64::MIN] {
        event.record_i64("i", value);
    }
    let values: Vec<String> = event.fields.into_iter().map(|(_, value)| value).collect();
    assert_eq!(
        values,
        vec![
            0u64.to_string(),
            7u64.to_string(),
            10u64.to_string(),
            909u64.to_string(),
            u64::MAX.to_string(),
            0i64.to_string(),
            (-1i64).to_string(),
            42i64.to_string(),
            i64::MAX.to_string(),
            i64::MIN.to_string(),
        ]
    );
}

#[test]
fn truth_values_and_bytes_are_written_out() {
    let mut event = EventVisitor::new();
    event.record_bool("yes", true);
    event.record_bool("no", false);
    event.record_bytes("none", &[]);
    event.record_bytes("one", &[7]);
    event.record_bytes("some", &[0, 10, 255]);
    assert_eq!(
        event.fields,
        vec![
            field("yes", "true"),
            field("no", "false"),
            field("none", &format!("{:?}", [0u8; 0])),
            field("one", "[7]"),
            field("some", &format!("{:?}", [0u8, 10, 255])),
        ]
    );
}
