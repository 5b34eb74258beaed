use multithread_raycaster_game::game_state::{CROUCH_COOLDOWN_NANOS, JUMP_COOLDOWN_NANOS};
use multithread_raycaster_game::state::{PlayerStates, PlayerTimings};

#[test]
fn new_states_are_cleared() {
    let s = PlayerStates::new();
    assert!(!s.is_crouching && !s.is_crouched && !s.is_jumping && !s.is_walking);
    assert!(!s.is_colliding && !s.is_steps_playing && !s.was_player_walking);
}

#[test]
fn jump_after_cooldown_takes_off() {
    let mut s = PlayerStates::new();
    assert_eq!(s.jump_after(JUMP_COOLDOWN_NANOS + 1), (true, true));
    assert!(s.is_jumping);
    // already jumping: no second take-off, cooldown restarts
    assert_eq!(s.jump_after(JUMP_COOLDOWN_NANOS + 1), (false, true));
}

#[test]
fn jump_during_cooldown_does_nothing() {
    let mut s = PlayerStates::new();
    assert_eq!(s.jump_after(JUMP_COOLDOWN_NANOS), (false, false));
    assert!(!s.is_jumping);
}

#[test]
fn crouched_player_cannot_jump() {
    let mut s = PlayerStates::new();
    s.is_crouched = true;
    assert_eq!(s.jump_after(u128::MAX), (false, false));
    assert!(!s.is_jumping);
}

#[test]
fn crouching_player_restarts_cooldown_without_jumping() {
    let mut s = PlayerStates::new();
    s.is_crouching = true;
    assert_eq!(s.jump_after(JUMP_COOLDOWN_NANOS + 5), (false, true));
    assert!(!s.is_jumping);
}

#[test]
fn crouch_toggles() {
    let mut s = PlayerStates::new();
    assert!(s.crouch_after(CROUCH_COOLDOWN_NANOS + 1));
    assert!(s.is_crouching);
    assert!(s.crouch_after(CROUCH_COOLDOWN_NANOS + 1));
    assert!(!s.is_crouching);
    assert!(!s.crouch_after(CROUCH_COOLDOWN_NANOS));
    assert!(!s.is_crouching);
}

#[test]
fn jumping_player_cannot_crouch() {
    let mut s = PlayerStates::new();
    s.is_jumping = true;
    assert!(s.crouch_after(CROUCH_COOLDOWN_NANOS + 1));
    assert!(!s.is_crouching);
}

#[test]
fn press_right_after_start_does_nothing() {
    let mut s = PlayerStates::new();
    let mut t = PlayerTimings::new();
    // the cooldown clock was just started
    assert!(!s.jump(&mut t));
    assert!(!s.is_jumping);
    s.crouch(&mut t);
    assert!(!s.is_crouching);
}
