use multithread_raycaster_game::controls::{ControlKey, MouseLock, WindowAction};

#[test]
fn escape_exits_on_press_and_release() {
    let mut m = MouseLock::new();
    assert_eq!(m.on_key(ControlKey::Escape, true), WindowAction::Exit);
    assert_eq!(m.on_key(ControlKey::Escape, false), WindowAction::Exit);
    assert_eq!(m, MouseLock::new());
}

#[test]
fn alt_press_toggles_lock() {
    let mut m = MouseLock::new();
    assert_eq!(m.on_key(ControlKey::Alt, true), WindowAction::LockCursor);
    assert!(m.mouse_lock);
    assert_eq!(m.on_key(ControlKey::Alt, false), WindowAction::Nothing);
    assert!(m.mouse_lock);
    assert_eq!(m.on_key(ControlKey::Alt, true), WindowAction::UnlockCursor);
    assert!(!m.mouse_lock);
}

#[test]
fn other_keys_do_nothing() {
    let mut m = MouseLock::new();
    assert_eq!(m.on_key(ControlKey::Other, true), WindowAction::Nothing);
    assert_eq!(m, MouseLock::new());
}

#[test]
fn first_second_locks_once() {
    let mut m = MouseLock::new();
    assert_eq!(m.on_second(), WindowAction::LockCursor);
    assert_eq!(m, MouseLock { mouse_lock: true, mouse_lock_setup: false });
    assert_eq!(m.on_second(), WindowAction::Nothing);
    assert!(m.mouse_lock);
}
