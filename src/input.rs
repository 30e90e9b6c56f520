use vstd::prelude::*;

verus! {

/// The state of one key or button, with the number of frames it has been
/// in that state (saturating at `i32::MAX`).
#[derive(Clone, Copy, Debug, PartialEq, Eq, Structural)]
pub enum ActionState {
    Active(i32),
    Inactive(i32),
}

impl Default for ActionState {
    /// Released, since this frame.
    fn default() -> (r: Self)
        ensures
            r == ActionState::Inactive(0),
    {
        ActionState::Inactive(0)
    }
}

/// `t + 1`, held at `i32::MAX`.
pub open spec fn next_count(t: i32) -> i32 {
    if t < i32::MAX {
        (t + 1) as i32
    } else {
        t
    }
}

impl ActionState {
    /// Records a press (`pressed`) or a release.  A change of state starts
    /// the count again at zero; a repeated report changes nothing.
    pub fn set(&mut self, pressed: bool)
        ensures
            pressed ==> *final(self) == match *old(self) {
                ActionState::Inactive(_) => ActionState::Active(0),
                ActionState::Active(t) => ActionState::Active(t),
            },
            !pressed ==> *final(self) == match *old(self) {
                ActionState::Active(_) => ActionState::Inactive(0),
                ActionState::Inactive(t) => ActionState::Inactive(t),
            },
    {
        if pressed {
            if matches!(self, ActionState::Inactive(_)) {
                *self = ActionState::Active(0);
            }
        } else {
            if matches!(self, ActionState::Active(_)) {
                *self = ActionState::Inactive(0);
            }
        }
    }

    /// Counts one more frame in the present state.
    pub fn increment(&mut self)
        ensures
            *final(self) == match *old(self) {
                ActionState::Active(t) => ActionState::Active(next_count(t)),
                ActionState::Inactive(t) => ActionState::Inactive(next_count(t)),
            },
    {
        match self {
            ActionState::Active(t) => {
                if *t < i32::MAX {
                    *t = *t + 1;
                }
            },
            ActionState::Inactive(t) => {
                if *t < i32::MAX {
                    *t = *t + 1;
                }
            },
        }
    }

    /// Whether the key or button is held.
    pub fn is_down(&self) -> (r: bool)
        ensures
            r == (*self is Active),
    {
        matches!(self, ActionState::Active(_))
    }

    /// Whether it was pressed in this very frame.
    pub fn is_down_once(&self) -> (r: bool)
        ensures
            r == (*self == ActionState::Active(0)),
    {
        if let ActionState::Active(t) = self {
            *t == 0
        } else {
            false
        }
    }

    /// Whether it was released in this very frame.
    pub fn was_down_once(&self) -> (r: bool)
        ensures
            r == (*self == ActionState::Inactive(0)),
    {
        if let ActionState::Inactive(t) = self {
            *t == 0
        } else {
            false
        }
    }
}

} // verus!
