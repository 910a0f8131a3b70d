use servyi_states::{ContextId, IdSource};
use std::collections::hash_map::DefaultHasher;
use std::hash::{Hash, Hasher};

fn hash_of(context: &ContextId) -> u64 {
    let mut hasher = DefaultHasher::new();
    context.hash(&mut hasher);
    hasher.finish()
}

#[test]
fn root_displays_as_0() {
    assert_eq!(ContextId::root().to_string(), "0");
}

#[test]
fn child_increments_counter() {
    let mut ids = IdSource::new();
    let mut root = ContextId::root();
    let c1 = root.new_child(&mut ids);
    let c2 = root.new_child(&mut ids);
    assert!(c1 != c2);
}

#[test]
fn grandchild_appends_segment() {
    let mut ids = IdSource::new();
    let mut root = ContextId::root();
    let mut child = root.new_child(&mut ids);
    let gc1 = child.new_child(&mut ids);
    let gc2 = child.new_child(&mut ids);
    let prefix = child.to_string();
    assert_eq!(gc1.to_string(), format!("{prefix}.1"));
    assert_eq!(gc2.to_string(), format!("{prefix}.2"));
}

#[test]
fn siblings_have_independent_counters() {
    let mut ids = IdSource::new();
    let mut root = ContextId::root();
    let mut a = root.new_child(&mut ids);
    let mut b = root.new_child(&mut ids);
    let a1 = a.new_child(&mut ids);
    let b1 = b.new_child(&mut ids);
    let a2 = a.new_child(&mut ids);
    let a_str = a.to_string();
    let b_str = b.to_string();
    assert_ne!(a_str, b_str);
    assert_eq!(a1.to_string(), format!("{a_str}.1"));
    assert_eq!(b1.to_string(), format!("{b_str}.1"));
    assert_eq!(a2.to_string(), format!("{a_str}.2"));
}

#[test]
fn equality_based_on_global_id() {
    let mut ids = IdSource::new();
    let mut root = ContextId::root();
    let a = root.new_child(&mut ids);
    let b = root.new_child(&mut ids);
    assert!(a == a);
    assert!(a != b);
}

#[test]
fn deep_nesting() {
    let mut ids = IdSource::new();
    let mut root = ContextId::root();
    let mut c1 = root.new_child(&mut ids);
    let mut c2 = c1.new_child(&mut ids);
    let c3 = c2.new_child(&mut ids);
    let p1 = c1.to_string();
    assert_eq!(c2.to_string(), format!("{p1}.1"));
    assert_eq!(c3.to_string(), format!("{p1}.1.1"));
}

#[test]
fn global_ids_are_unique() {
    let mut ids = IdSource::new();
    let mut root = ContextId::root();
    let mut a = root.new_child(&mut ids);
    let mut b = a.new_child(&mut ids);
    let c = b.new_child(&mut ids);
    assert_ne!(a.id(), b.id());
    assert_ne!(b.id(), c.id());
    assert_ne!(a.id(), c.id());
}

#[test]
fn root_has_number_zero_and_children_count_from_one() {
    let mut ids = IdSource::new();
    let mut root = ContextId::root();
    assert_eq!(root.id(), 0);
    let first = root.new_child(&mut ids);
    let second = root.new_child(&mut ids);
    assert_eq!(first.id(), 1);
    assert_eq!(second.id(), 2);
    assert_eq!(first.to_string(), "1");
    assert_eq!(second.to_string(), "2");
    assert_eq!(root.to_string(), "0");
}

#[test]
fn two_hierarchies_on_one_source_share_no_number() {
    let mut ids = IdSource::new();
    let mut one = ContextId::root();
    let mut other = ContextId::root();
    let a = one.new_child(&mut ids);
    let b = other.new_child(&mut ids);
    assert_eq!(a.to_string(), b.to_string());
    assert!(a != b);
}

#[test]
fn numbers_with_several_digits_are_written_in_decimal() {
    let mut ids = IdSource::new();
    let mut root = ContextId::root();
    let mut last = root.new_child(&mut ids);
    for _ in 0..120 {
        last = root.new_child(&mut ids);
    }
    assert_eq!(last.to_string(), "121");
    let mut deep = last.new_child(&mut ids);
    for _ in 0..9 {
        deep = last.new_child(&mut ids);
    }
    assert_eq!(deep.to_string(), "121.10");
}

#[test]
fn equal_contexts_hash_alike() {
    let mut ids = IdSource::new();
    let mut root = ContextId::root();
    let mut context = root.new_child(&mut ids);
    let before = hash_of(&context);
    let _grandchild = context.new_child(&mut ids);
    assert_eq!(hash_of(&context), before);
    let mut expected = DefaultHasher::new();
    1u64.hash(&mut expected);
    assert_eq!(before, expected.finish());
}
