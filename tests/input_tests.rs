use planet_lod::input::ActionState;

#[test]
fn press_then_hold_then_release() {
    let mut s = ActionState::default();
    assert!(!s.is_down());
    s.set(true);
    assert!(s.is_down());
    assert!(s.is_down_once());
    s.increment();
    assert!(s.is_down());
    assert!(!s.is_down_once());
    s.set(true);
    assert_eq!(s, ActionState::Active(1));
    s.set(false);
    assert!(s.was_down_once());
    assert!(!s.is_down());
    s.increment();
    assert!(!s.was_down_once());
    assert_eq!(s, ActionState::Inactive(1));
}

#[test]
fn count_saturates() {
    let mut s = ActionState::Active(i32::MAX);
    s.increment();
    assert_eq!(s, ActionState::Active(i32::MAX));
}
