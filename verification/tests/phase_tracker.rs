use servyi_states::phase_tracker::PhaseError;
use servyi_states::{ContextId, DefaultPhaseTracker, IdSource, PhaseTracker};

#[test]
fn test_advance_from_none() {
    let mut tracker = DefaultPhaseTracker::<&str>::new();
    let mut ids = IdSource::new();
    let mut root = ContextId::root();
    let ctx = root.new_child(&mut ids);
    tracker.advance(&ctx, None, "open");
    assert_eq!(tracker.get_phase(&ctx), Some("open"));
}

#[test]
fn test_advance_with_correct_from() {
    let mut tracker = DefaultPhaseTracker::<&str>::new();
    let mut ids = IdSource::new();
    let mut root = ContextId::root();
    let ctx = root.new_child(&mut ids);
    tracker.advance(&ctx, None, "open");
    tracker.advance(&ctx, Some("open"), "closed");
    assert_eq!(tracker.get_phase(&ctx), Some("closed"));
}

#[test]
fn test_expect_any_and_set() {
    let mut tracker = DefaultPhaseTracker::<&str>::new();
    let mut ids = IdSource::new();
    let mut root = ContextId::root();
    let ctx = root.new_child(&mut ids);
    tracker.advance(&ctx, None, "open");
    tracker.expect_any_and_set(&ctx, &["open", "retry"], "done");
    assert_eq!(tracker.get_phase(&ctx), Some("done"));
}

#[test]
fn test_get_phase_absent() {
    let tracker = DefaultPhaseTracker::<&str>::new();
    let mut ids = IdSource::new();
    let mut root = ContextId::root();
    let ctx = root.new_child(&mut ids);
    assert_eq!(tracker.get_phase(&ctx), None);
}

#[test]
fn test_multiple_contexts_independent() {
    let mut tracker = DefaultPhaseTracker::<&str>::new();
    let mut ids = IdSource::new();
    let mut root = ContextId::root();
    let a = root.new_child(&mut ids);
    let b = root.new_child(&mut ids);
    tracker.advance(&a, None, "phase_a");
    tracker.advance(&b, None, "phase_b");
    assert_eq!(tracker.get_phase(&a), Some("phase_a"));
    assert_eq!(tracker.get_phase(&b), Some("phase_b"));
}

#[test]
fn advance_from_another_phase_is_refused_and_changes_nothing() {
    let mut tracker = DefaultPhaseTracker::<&str>::new();
    let mut ids = IdSource::new();
    let mut root = ContextId::root();
    let ctx = root.new_child(&mut ids);
    tracker.advance(&ctx, None, "open");
    assert_eq!(
        tracker.try_advance(&ctx, Some("wrong"), "closed"),
        Err(PhaseError::Unexpected)
    );
    assert_eq!(tracker.get_phase(&ctx), Some("open"));
}

#[test]
fn advance_from_a_phase_needs_one() {
    let mut tracker = DefaultPhaseTracker::<&str>::default();
    let root = ContextId::root();
    assert_eq!(tracker.try_advance(&root, Some("open"), "closed"), Err(PhaseError::Absent));
    assert_eq!(tracker.get_phase(&root), None);
    assert_eq!(tracker.try_advance(&root, None, "closed"), Ok(()));
    assert_eq!(tracker.get_phase(&root), Some("closed"));
}

#[test]
fn advance_from_nothing_overrides_any_phase() {
    let mut tracker = DefaultPhaseTracker::<u32>::new();
    let root = ContextId::root();
    tracker.advance(&root, None, 1);
    tracker.advance(&root, None, 2);
    assert_eq!(tracker.get_phase(&root), Some(2));
}

#[test]
fn set_from_a_phase_not_listed_is_refused_and_changes_nothing() {
    let mut tracker = DefaultPhaseTracker::<String>::new();
    let root = ContextId::root();
    tracker.advance(&root, None, "open".to_string());
    assert_eq!(
        tracker.try_expect_any_and_set(&root, &["retry".to_string()], "done".to_string()),
        Err(PhaseError::Unexpected)
    );
    assert_eq!(
        tracker.try_expect_any_and_set(&root, &[], "done".to_string()),
        Err(PhaseError::Unexpected)
    );
    assert_eq!(tracker.get_phase(&root), Some("open".to_string()));
}

#[test]
fn set_on_a_context_without_phase_needs_none() {
    let mut tracker = DefaultPhaseTracker::<&str>::new();
    let root = ContextId::root();
    tracker.expect_any_and_set(&root, &[], "done");
    assert_eq!(tracker.get_phase(&root), Some("done"));
}

#[test]
fn many_contexts_keep_their_phases() {
    let mut tracker = DefaultPhaseTracker::<u64>::new();
    let mut ids = IdSource::new();
    let mut root = ContextId::root();
    let contexts: Vec<ContextId> = (0..50).map(|_| root.new_child(&mut ids)).collect();
    for context in &contexts {
        tracker.advance(context, None, context.id());
    }
    for context in &contexts {
        tracker.advance(context, Some(context.id()), context.id() * 2);
    }
    for context in &contexts {
        assert_eq!(tracker.get_phase(context), Some(context.id() * 2));
    }
}

/// A phase that counts how often it was copied.
#[derive(Debug, PartialEq)]
struct Copied(u32, u32);

impl Clone for Copied {
    fn clone(&self) -> Self {
        Copied(self.0, self.1 + 1)
    }
}

#[test]
fn first_phase_is_kept_and_a_later_one_is_cloned() {
    let mut root = ContextId::root();
    let mut ids = IdSource::new();
    let ctx = root.new_child(&mut ids);
    let mut tracker = DefaultPhaseTracker::<Copied>::new();
    tracker.advance(&ctx, None, Copied(1, 0));
    assert_eq!(tracker.get_phase(&ctx), Some(Copied(1, 1)));
    tracker.advance(&ctx, None, Copied(2, 0));
    assert_eq!(tracker.get_phase(&ctx), Some(Copied(2, 2)));
    tracker.expect_any_and_set(&ctx, &[Copied(2, 1)], Copied(3, 0));
    assert_eq!(tracker.get_phase(&ctx), Some(Copied(3, 2)));
}
