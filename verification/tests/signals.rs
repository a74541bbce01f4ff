//! Signal bookkeeping: ids, liveness, and the changed set.
use fynix::signal::{ScopeKey, Signals, UntypedScope};
use fynix::style::TypeKey;

#[test]
fn signals_are_live_until_removed_and_report_changes_once() {
    let mut signals = Signals::new();
    let a = signals.add_signal();
    let b = signals.add_signal();
    assert!(a != b);
    assert!(signals.contains(a) && signals.contains(b));

    signals.mark_set(a);
    signals.mark_set(a);
    signals.mark_set(b);
    let mut dirty = signals.take_dirty();
    dirty.sort_by_key(|g| g.to_bits());
    assert_eq!(dirty, vec![a, b]);
    assert!(signals.take_dirty().is_empty());

    signals.mark_set(b);
    assert!(signals.remove_signal(b));
    assert!(!signals.contains(b));
    // A removed signal is no longer reported as changed.
    assert!(signals.take_dirty().is_empty());

    // Its slot comes back with a new generation.
    let c = signals.add_signal();
    assert_eq!(c.index(), b.index());
    assert_eq!(c.generation(), b.generation() + 1);
    assert!(signals.can_add_now());
}

#[test]
fn removal_goes_by_whether_the_signal_was_ever_added() {
    let mut signals = Signals::new();
    let a = signals.add_signal();
    let never = fynix::id::GenId::from_raw(9, 0);
    assert!(!signals.remove_signal(never));
    assert!(signals.remove_signal(a));
    // The signal stays known, so a second removal reports `true` again.
    assert!(signals.remove_signal(a));
}

#[test]
fn scopes_get_their_own_slots_and_go_with_their_signal() {
    let mut signals = Signals::new();
    let a = signals.add_signal();
    let b = signals.add_signal();
    let scope = UntypedScope { value_type: TypeKey(1), world_type: TypeKey(2), scope_fn: 7 };
    let k0 = signals.add_scope(a, scope);
    let k1 = signals.add_scope(a, scope);
    assert_eq!(k0, ScopeKey { index: 0, generation: 0 });
    assert_eq!(k1, ScopeKey { index: 1, generation: 0 });
    // Each signal numbers its scopes on its own.
    assert_eq!(signals.add_scope(b, scope), ScopeKey { index: 0, generation: 0 });
    assert_eq!(signals.add_scope(b, scope), ScopeKey { index: 1, generation: 0 });
    assert_eq!(signals.add_scope(b, scope), ScopeKey { index: 2, generation: 0 });
    // Removing the signal drops its list: a new scope starts afresh.
    assert!(signals.remove_signal(b));
    assert_eq!(signals.add_scope(b, scope), ScopeKey { index: 0, generation: 0 });
    assert_eq!(signals.add_scope(a, scope), ScopeKey { index: 2, generation: 0 });
}
