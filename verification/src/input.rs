//! What the host hands to the driver between ticks: the direction keys of
//! each player, and the signals that end or restart a run.

use vstd::prelude::*;

verus! {

/// The four direction signals of one player.
#[derive(Clone, Copy, Debug, PartialEq, Eq, Structural)]
pub struct PlayerInput {
    pub left: bool,
    pub right: bool,
    pub up: bool,
    pub down: bool,
}

/// Steps along one axis for a pair of opposite signals: the two cancel.
pub open spec fn axis_step(back: bool, forth: bool) -> int {
    (if forth {
        1int
    } else {
        0int
    }) - (if back {
        1int
    } else {
        0int
    })
}

/// How many cursor steps a player's cursor moves along `x` and along `y`.
/// `y` grows downwards.
pub fn cursor_step(input: PlayerInput) -> (step: (i32, i32))
    ensures
        step.0 == axis_step(input.left, input.right),
        step.1 == axis_step(input.up, input.down),
{
    let mut dx: i32 = 0;
    let mut dy: i32 = 0;
    if input.left {
        dx -= 1;
    }
    if input.right {
        dx += 1;
    }
    if input.up {
        dy -= 1;
    }
    if input.down {
        dy += 1;
    }
    (dx, dy)
}

/// A signal of the host.
#[derive(Clone, Copy, Debug, PartialEq, Eq, Structural)]
pub enum HostSignal {
    /// End the program.
    Quit,
    /// Discard the run and start it again.
    Restart,
    /// Anything else.
    Other,
}

/// What the host loop does after a tick.
#[derive(Clone, Copy, Debug, PartialEq, Eq, Structural)]
pub enum LoopAction {
    /// Go on with the next tick.
    Continue,
    /// Discard the run and start it again.
    Restart,
    /// End the program.
    Quit,
}

/// The action that the signals from place `from` on ask for: the first quit
/// or restart among them decides, and without one the run goes on.
pub open spec fn action_from(signals: Seq<HostSignal>, from: int) -> LoopAction
    decreases signals.len() - from,
{
    if from < 0 || from >= signals.len() {
        LoopAction::Continue
    } else {
        match signals[from] {
            HostSignal::Quit => LoopAction::Quit,
            HostSignal::Restart => LoopAction::Restart,
            HostSignal::Other => action_from(signals, from + 1),
        }
    }
}

/// The action that the signals of one tick ask for, taken in the order in
/// which they came.
pub fn next_action(signals: &Vec<HostSignal>) -> (action: LoopAction)
    ensures
        action == action_from(signals@, 0),
{
    let mut k: usize = 0;
    while k < signals.len()
        invariant
            k <= signals@.len(),
            action_from(signals@, 0) == action_from(signals@, k as int),
        decreases signals@.len() - k,
    {
        match signals[k] {
            HostSignal::Quit => {
                return LoopAction::Quit;
            },
            HostSignal::Restart => {
                return LoopAction::Restart;
            },
            HostSignal::Other => {},
        }
        k += 1;
    }
    LoopAction::Continue
}

} // verus!
