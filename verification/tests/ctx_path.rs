use servyi_states::{ancestors, is_valid_ctx_id, ContextId, IdSource};

#[test]
fn test_ancestors_leaf() {
    assert_eq!(ancestors("1.2.3"), vec!["1.2.3", "1.2", "1"]);
}

#[test]
fn test_ancestors_root_child() {
    assert_eq!(ancestors("5"), vec!["5"]);
}

#[test]
fn test_ancestors_deep() {
    assert_eq!(ancestors("1.2.3.4"), vec!["1.2.3.4", "1.2.3", "1.2", "1"]);
}

#[test]
fn test_is_valid_ctx_id() {
    assert!(is_valid_ctx_id("1"));
    assert!(is_valid_ctx_id("1.2.3"));
    assert!(!is_valid_ctx_id(""));
    assert!(!is_valid_ctx_id("abc"));
    assert!(!is_valid_ctx_id("1.2."));
    assert!(!is_valid_ctx_id(".1"));
    assert!(!is_valid_ctx_id("1.a.2"));
}

#[test]
fn odd_ids_have_ancestors_too() {
    assert_eq!(ancestors(""), vec![""]);
    assert_eq!(ancestors("."), vec![".", ""]);
    assert_eq!(ancestors("a..b"), vec!["a..b", "a.", "a"]);
    assert_eq!(ancestors("é.ü"), vec!["é.ü", "é"]);
}

#[test]
fn odd_ids_are_not_valid() {
    assert!(!is_valid_ctx_id("."));
    assert!(!is_valid_ctx_id("1..2"));
    assert!(!is_valid_ctx_id("-1"));
    assert!(!is_valid_ctx_id("1 "));
    assert!(!is_valid_ctx_id("\u{0661}"));
    assert!(is_valid_ctx_id("0"));
    assert!(is_valid_ctx_id("007.0"));
}

#[test]
fn contexts_are_written_as_valid_ids() {
    let mut ids = IdSource::new();
    let mut root = ContextId::root();
    let mut child = root.new_child(&mut ids);
    let grandchild = child.new_child(&mut ids);
    assert!(is_valid_ctx_id(&root.to_string()));
    assert!(is_valid_ctx_id(&child.to_string()));
    assert!(is_valid_ctx_id(&grandchild.to_string()));
    assert_eq!(
        ancestors(&grandchild.to_string()),
        vec![grandchild.to_string(), child.to_string()]
    );
    assert_eq!(ancestors(&child.to_string()), vec![child.to_string()]);
}

#[test]
fn ancestors_of_ancestors_are_the_rest_of_the_list() {
    let list = ancestors("10.20.30.40");
    assert_eq!(list.len(), 4);
    assert_eq!(ancestors(&list[2]), list[2..].to_vec());
    assert!(list.iter().all(|id| is_valid_ctx_id(id)));
    assert_eq!(list.last().map(String::as_str), Some("10"));
}
