use vstd::prelude::*;
use crate::state::{instant_now, nanos_since};
pub use crate::state::{PlayerStates, PlayerTimings};

verus! {

/// Cooldown after a jump before the next one, in nanoseconds (1.25 s).
pub const JUMP_COOLDOWN_NANOS: u128 = 1_250_000_000;

/// Cooldown after a crouch toggle before the next one, in nanoseconds (0.25 s).
pub const CROUCH_COOLDOWN_NANOS: u128 = 250_000_000;

/// What a jump press does, `elapsed` nanoseconds after the last movement:
/// the new flags, whether the player takes off, and whether the movement
/// cooldown starts again. A crouched player does nothing; otherwise, once
/// the cooldown is over, the cooldown restarts and a player that is neither
/// jumping nor crouching takes off.
pub open spec fn spec_jump(s: PlayerStates, elapsed: u128) -> (PlayerStates, bool, bool) {
    if !s.is_crouched && elapsed > JUMP_COOLDOWN_NANOS {
        if !s.is_jumping && !s.is_crouching {
            (PlayerStates { is_jumping: true, ..s }, true, true)
        } else {
            (s, false, true)
        }
    } else {
        (s, false, false)
    }
}

/// What a crouch press does, `elapsed` nanoseconds after the last movement:
/// the new flags and whether the movement cooldown starts again. Once the
/// cooldown is over it restarts, and a player that is not jumping toggles
/// crouching.
pub open spec fn spec_crouch(s: PlayerStates, elapsed: u128) -> (PlayerStates, bool) {
    if elapsed > CROUCH_COOLDOWN_NANOS {
        if !s.is_jumping {
            (PlayerStates { is_crouching: !s.is_crouching, ..s }, true)
        } else {
            (s, true)
        }
    } else {
        (s, false)
    }
}

impl PlayerStates {
    /// The jump decision for a press `elapsed` nanoseconds after the last
    /// movement; returns whether the player takes off and whether the
    /// cooldown restarts.
    pub fn jump_after(&mut self, elapsed: u128) -> (r: (bool, bool))
        ensures
            (*final(self), r.0, r.1) == spec_jump(*old(self), elapsed),
    {
        if !self.is_crouched && elapsed > JUMP_COOLDOWN_NANOS {
            if !self.is_jumping && !self.is_crouching {
                self.is_jumping = true;
                (true, true)
            } else {
                (false, true)
            }
        } else {
            (false, false)
        }
    }

    /// The crouch decision for a press `elapsed` nanoseconds after the last
    /// movement; returns whether the cooldown restarts.
    pub fn crouch_after(&mut self, elapsed: u128) -> (restart: bool)
        ensures
            (*final(self), restart) == spec_crouch(*old(self), elapsed),
    {
        if elapsed > CROUCH_COOLDOWN_NANOS {
            if !self.is_jumping {
                self.is_crouching = !self.is_crouching;
            }
            true
        } else {
            false
        }
    }

    /// A jump press now: reads the time since the last movement, applies
    /// `jump_after`, and restarts the cooldown clock when it says so. Returns
    /// whether the player takes off (the caller then gives the player its
    /// upward speed).
    pub fn jump(&mut self, timings: &mut PlayerTimings) -> (launched: bool)
        ensures
            exists|elapsed: u128|
                (*final(self), launched) == (#[trigger] spec_jump(*old(self), elapsed).0, spec_jump(*old(self), elapsed).1)
                    && (!spec_jump(*old(self), elapsed).2 ==> *final(timings) == *old(timings)),
            final(timings).last_updated == old(timings).last_updated,
            old(self).is_crouched ==> *final(self) == *old(self) && !launched && *final(timings) == *old(timings),
            launched ==> final(self).is_jumping && !old(self).is_jumping,
    {
        let elapsed = nanos_since(&timings.movement_cooldown);
        let (launched, restart) = self.jump_after(elapsed);
        if restart {
            timings.movement_cooldown = instant_now();
        }
        assert((*self, launched) == (spec_jump(*old(self), elapsed).0, spec_jump(*old(self), elapsed).1)
            && (!spec_jump(*old(self), elapsed).2 ==> *timings == *old(timings)));
        launched
    }

    /// A crouch press now: reads the time since the last movement, applies
    /// `crouch_after`, and restarts the cooldown clock when it says so.
    pub fn crouch(&mut self, timings: &mut PlayerTimings)
        ensures
            exists|elapsed: u128|
                *final(self) == (#[trigger] spec_crouch(*old(self), elapsed)).0
                    && (!spec_crouch(*old(self), elapsed).1 ==> *final(timings) == *old(timings)),
            final(timings).last_updated == old(timings).last_updated,
            old(self).is_jumping ==> *final(self) == *old(self),
    {
        let elapsed = nanos_since(&timings.movement_cooldown);
        let restart = self.crouch_after(elapsed);
        if restart {
            timings.movement_cooldown = instant_now();
        }
        assert(*self == spec_crouch(*old(self), elapsed).0
            && (!spec_crouch(*old(self), elapsed).1 ==> *timings == *old(timings)));
    }
}

/// Crouching is a toggle: two crouch presses, each after the cooldown, of a
/// player that is not jumping leave the flags as they were.
pub proof fn law_crouch_twice_restores(s: PlayerStates, first: u128, second: u128)
    requires
        first > CROUCH_COOLDOWN_NANOS,
        second > CROUCH_COOLDOWN_NANOS,
        !s.is_jumping,
    ensures
        spec_crouch(spec_crouch(s, first).0, second).0 == s,
{
}

/// A player takes off at most once before landing: after a take-off, no
/// later jump press takes off again while the jump flag is set.
pub proof fn law_no_double_jump(s: PlayerStates, first: u128, second: u128)
    requires
        spec_jump(s, first).1,
    ensures
        spec_jump(s, first).0.is_jumping,
        !spec_jump(spec_jump(s, first).0, second).1,
{
}

/// Neither a jump nor a crouch press does anything before its cooldown is
/// over, and a crouch press never starts a jump.
pub proof fn law_cooldown_blocks(s: PlayerStates, elapsed: u128)
    ensures
        elapsed <= JUMP_COOLDOWN_NANOS ==> spec_jump(s, elapsed) == (s, false, false),
        elapsed <= CROUCH_COOLDOWN_NANOS ==> spec_crouch(s, elapsed) == (s, false),
        spec_crouch(s, elapsed).0.is_jumping == s.is_jumping,
{
}

/// A jump press touches only the jump flag, and sets it exactly when the
/// player takes off: every other flag (crouching, crouched, walking, ...)
/// stays as it was. The player takes off exactly when the cooldown is over
/// and it is neither crouched, crouching nor already jumping; the cooldown
/// restarts exactly when it is over and the player is not crouched.
pub proof fn law_jump_changes_only_takeoff(s: PlayerStates, elapsed: u128)
    ensures
        spec_jump(s, elapsed).0.is_crouching == s.is_crouching,
        spec_jump(s, elapsed).0.is_crouched == s.is_crouched,
        spec_jump(s, elapsed).0.is_walking == s.is_walking,
        spec_jump(s, elapsed).0.is_colliding == s.is_colliding,
        spec_jump(s, elapsed).0.is_steps_playing == s.is_steps_playing,
        spec_jump(s, elapsed).0.was_player_walking == s.was_player_walking,
        spec_jump(s, elapsed).0.is_jumping == (s.is_jumping || spec_jump(s, elapsed).1),
        spec_jump(s, elapsed).1 <==> (elapsed > JUMP_COOLDOWN_NANOS && !s.is_crouched && !s.is_crouching
            && !s.is_jumping),
        spec_jump(s, elapsed).2 <==> (elapsed > JUMP_COOLDOWN_NANOS && !s.is_crouched),
{
}

/// A crouch press touches only the crouching flag: it flips it exactly when
/// the cooldown is over and the player is not jumping, and the cooldown
/// restarts exactly when it is over.
pub proof fn law_crouch_changes_only_crouching(s: PlayerStates, elapsed: u128)
    ensures
        spec_crouch(s, elapsed).0.is_jumping == s.is_jumping,
        spec_crouch(s, elapsed).0.is_crouched == s.is_crouched,
        spec_crouch(s, elapsed).0.is_walking == s.is_walking,
        spec_crouch(s, elapsed).0.is_colliding == s.is_colliding,
        spec_crouch(s, elapsed).0.is_steps_playing == s.is_steps_playing,
        spec_crouch(s, elapsed).0.was_player_walking == s.was_player_walking,
        spec_crouch(s, elapsed).0.is_crouching != s.is_crouching <==> (elapsed > CROUCH_COOLDOWN_NANOS
            && !s.is_jumping),
        spec_crouch(s, elapsed).1 <==> elapsed > CROUCH_COOLDOWN_NANOS,
{
}

} // verus!
