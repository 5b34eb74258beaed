use vstd::prelude::*;

verus! {

/// The keys that the window reacts to.
#[derive(Clone, Copy, Debug, PartialEq, Eq, Structural)]
pub enum ControlKey {
    Escape,
    Alt,
    Other,
}

/// What the window has to do after an event.
#[derive(Clone, Copy, Debug, PartialEq, Eq, Structural)]
pub enum WindowAction {
    Nothing,
    Exit,
    /// Confine the cursor to the window and hide it.
    LockCursor,
    /// Free the cursor and show it.
    UnlockCursor,
}

/// Whether the cursor is locked to the window, and whether the first lock,
/// done once the game runs, is still to come.
#[derive(Clone, Copy, Debug, PartialEq, Eq, Structural)]
pub struct MouseLock {
    pub mouse_lock: bool,
    pub mouse_lock_setup: bool,
}

/// The lock state and the action after a key event: Escape (pressed or
/// released) closes the game; a press of Alt toggles the cursor lock;
/// anything else does nothing.
pub open spec fn spec_on_key(m: MouseLock, key: ControlKey, pressed: bool) -> (MouseLock, WindowAction) {
    match key {
        ControlKey::Escape => (m, WindowAction::Exit),
        ControlKey::Alt => if pressed {
            if m.mouse_lock {
                (MouseLock { mouse_lock: false, ..m }, WindowAction::UnlockCursor)
            } else {
                (MouseLock { mouse_lock: true, ..m }, WindowAction::LockCursor)
            }
        } else {
            (m, WindowAction::Nothing)
        },
        ControlKey::Other => (m, WindowAction::Nothing),
    }
}

impl MouseLock {
    /// Unlocked, with the first lock still to come.
    pub fn new() -> (m: Self)
        ensures
            !m.mouse_lock,
            m.mouse_lock_setup,
    {
        MouseLock { mouse_lock: false, mouse_lock_setup: true }
    }

    /// A key event (see `spec_on_key`).
    pub fn on_key(&mut self, key: ControlKey, pressed: bool) -> (action: WindowAction)
        ensures
            (*final(self), action) == spec_on_key(*old(self), key, pressed),
    {
        match key {
            ControlKey::Escape => WindowAction::Exit,
            ControlKey::Alt => {
                if pressed {
                    if self.mouse_lock {
                        self.mouse_lock = false;
                        WindowAction::UnlockCursor
                    } else {
                        self.mouse_lock = true;
                        WindowAction::LockCursor
                    }
                } else {
                    WindowAction::Nothing
                }
            },
            ControlKey::Other => WindowAction::Nothing,
        }
    }

    /// The once-a-second frame-rate update: the first one locks the cursor.
    pub fn on_second(&mut self) -> (action: WindowAction)
        ensures
            old(self).mouse_lock_setup ==> action == WindowAction::LockCursor && final(self).mouse_lock
                && !final(self).mouse_lock_setup,
            !old(self).mouse_lock_setup ==> action == WindowAction::Nothing && *final(self) == *old(self),
    {
        if self.mouse_lock_setup {
            self.mouse_lock = true;
            self.mouse_lock_setup = false;
            WindowAction::LockCursor
        } else {
            WindowAction::Nothing
        }
    }
}

/// Pressing Alt twice leaves the cursor lock as it was, and the two presses
/// ask for opposite cursor actions.
pub proof fn law_alt_twice_restores(m: MouseLock)
    ensures
        spec_on_key(spec_on_key(m, ControlKey::Alt, true).0, ControlKey::Alt, true).0 == m,
        spec_on_key(m, ControlKey::Alt, true).1 == WindowAction::LockCursor
            <==> spec_on_key(spec_on_key(m, ControlKey::Alt, true).0, ControlKey::Alt, true).1
            == WindowAction::UnlockCursor,
{
}

/// Only Escape and a press of Alt do anything: any other key event (a
/// release of Alt, any event of another key) keeps the lock state and asks
/// for nothing.
pub proof fn law_only_escape_and_alt_press_act(m: MouseLock, key: ControlKey, pressed: bool)
    requires
        key != ControlKey::Escape,
        !(key == ControlKey::Alt && pressed),
    ensures
        spec_on_key(m, key, pressed) == (m, WindowAction::Nothing),
{
}

/// What any key event does to the lock: the first-lock flag never changes;
/// the lock flips exactly on a press of Alt; the cursor action names the new
/// lock state when there is one, and Escape always exits.
pub proof fn law_key_event_effects(m: MouseLock, key: ControlKey, pressed: bool)
    ensures
        spec_on_key(m, key, pressed).0.mouse_lock_setup == m.mouse_lock_setup,
        spec_on_key(m, key, pressed).0.mouse_lock != m.mouse_lock <==> (key == ControlKey::Alt && pressed),
        spec_on_key(m, key, pressed).1 == WindowAction::LockCursor ==> spec_on_key(m, key, pressed).0.mouse_lock,
        spec_on_key(m, key, pressed).1 == WindowAction::UnlockCursor ==> !spec_on_key(m, key, pressed).0.mouse_lock,
        spec_on_key(m, key, pressed).1 == WindowAction::Exit <==> key == ControlKey::Escape,
{
}

/// Pressing and then releasing Alt leaves the lock flipped, and the release
/// asks for nothing.
pub proof fn law_alt_press_release_toggles(m: MouseLock)
    ensures
        spec_on_key(spec_on_key(m, ControlKey::Alt, true).0, ControlKey::Alt, false).0
            == (MouseLock { mouse_lock: !m.mouse_lock, mouse_lock_setup: m.mouse_lock_setup }),
        spec_on_key(spec_on_key(m, ControlKey::Alt, true).0, ControlKey::Alt, false).1 == WindowAction::Nothing,
{
}

} // verus!
