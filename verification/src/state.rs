use vstd::prelude::*;
use std::time::{Duration, Instant};

verus! {

/// `std::time::Instant`, carried through as an opaque value.
#[verifier::external_type_specification]
#[verifier::external_body]
pub struct ExInstant(Instant);

/// `Instant::now`: the current time; nothing is known of it.
#[verifier::external_body]
pub(crate) fn instant_now() -> (now: Instant) {
    Instant::now()
}

/// `Instant::elapsed`: the time since `since`; it depends on the clock, so
/// nothing is known of it.
#[verifier::external_body]
fn instant_elapsed(since: &Instant) -> (elapsed: Duration) {
    since.elapsed()
}

/// `Duration::as_nanos`: the duration in whole nanoseconds. The duration is
/// opaque here, so nothing is stated of the count.
#[verifier::external_body]
fn duration_nanos(d: &Duration) -> (nanos: u128) {
    d.as_nanos()
}

/// Nanoseconds since `since`, as the clock reads now.
pub(crate) fn nanos_since(since: &Instant) -> (nanos: u128) {
    let elapsed = instant_elapsed(since);
    duration_nanos(&elapsed)
}

/// Flags for what the player is doing.
#[derive(Copy, Clone)]
pub struct PlayerStates {
    pub is_crouching: bool,
    pub is_crouched: bool,
    pub is_jumping: bool,
    pub is_walking: bool,
    pub is_colliding: bool,
    pub is_steps_playing: bool,
    pub was_player_walking: bool,
}

impl PlayerStates {
    /// All flags cleared.
    pub fn new() -> (s: Self)
        ensures
            !s.is_crouching && !s.is_crouched && !s.is_jumping && !s.is_walking && !s.is_colliding
                && !s.is_steps_playing && !s.was_player_walking,
    {
        PlayerStates {
            is_crouching: false,
            is_crouched: false,
            is_jumping: false,
            is_walking: false,
            is_colliding: false,
            is_steps_playing: false,
            was_player_walking: false,
        }
    }
}

/// When the player's state was last updated, and when the last movement
/// (jump or crouch) started its cooldown.
#[derive(Copy, Clone)]
pub struct PlayerTimings {
    pub last_updated: Instant,
    pub movement_cooldown: Instant,
}

impl PlayerTimings {
    /// Both times set to now.
    pub fn new() -> (t: Self) {
        PlayerTimings { last_updated: instant_now(), movement_cooldown: instant_now() }
    }
}

} // verus!
