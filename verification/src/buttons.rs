//! The buttons of the stations.
use crate::recipes::controller;
use crate::time::{ticks_in, Duration, TICK_HZ};
use vstd::prelude::*;

verus! {

/// Seconds after which a button counts as held.
pub const HOLD_SECS: u64 = 3;

/// Milliseconds for which a button is not looked at after it was used. Its pin changes at edges, and
/// bad hardware may give more than one.
pub const SETTLE_MILLIS: u64 = 100;

/// What a button is at.
#[derive(Clone, Copy, Debug, PartialEq, Eq, Structural)]
pub enum Phase {
    /// Nobody presses it.
    Up,
    /// Somebody presses it.
    Down,
    /// It was used a moment ago.
    Settling,
}

/// What a button has waited for.
#[derive(Clone, Copy, Debug, PartialEq, Eq, Structural)]
pub enum Input {
    RisingEdge,
    FallingEdge,
    /// The time of the phase is over.
    Elapsed,
}

impl Phase {
    /// The input is one that the button waits for in this phase.
    pub open spec fn awaits(self, input: Input) -> bool {
        match self {
            Phase::Up => input == Input::RisingEdge,
            Phase::Down => input == Input::FallingEdge || input == Input::Elapsed,
            Phase::Settling => input == Input::Elapsed,
        }
    }

    /// The phase that `input` leads to.
    pub open spec fn after(self, input: Input) -> Phase {
        match self {
            Phase::Up => Phase::Down,
            Phase::Down => Phase::Settling,
            Phase::Settling => Phase::Up,
        }
    }

    /// What the controller of the station is told on `input`: that its button was pressed where it
    /// is let go, and to cancel the recipe where it is held.
    pub open spec fn message(self, input: Input) -> Option<controller::EventView> {
        match (self, input) {
            (Phase::Down, Input::FallingEdge) => Some(controller::EventView::ButtonPress),
            (Phase::Down, Input::Elapsed) => Some(controller::EventView::CancelRecipe),
            _ => None,
        }
    }

    /// The time to which the phase is limited, if it is.
    pub open spec fn limit(self) -> Option<Duration> {
        match self {
            Phase::Up => None,
            Phase::Down => Some(Duration { ticks: (HOLD_SECS * TICK_HZ) as u64 }),
            Phase::Settling => Some(Duration { ticks: ticks_in(SETTLE_MILLIS as int) as u64 }),
        }
    }

    /// The time after which the phase is over, if it is limited.
    pub fn timeout(self) -> (timeout: Option<Duration>)
        ensures
            timeout == self.limit(),
            timeout == match self {
                Phase::Up => None,
                Phase::Down => Some(Duration { ticks: (HOLD_SECS * TICK_HZ) as u64 }),
                Phase::Settling => Some(Duration { ticks: ticks_in(SETTLE_MILLIS as int) as u64 }),
            },
    {
        match self {
            Phase::Up => None,
            Phase::Down => Some(Duration::from_secs(HOLD_SECS)),
            Phase::Settling => Some(Duration::from_millis(SETTLE_MILLIS)),
        }
    }
}

/// One turn of a button: from its phase and what it has waited for to the next phase and what the
/// controller of the station is told.
pub fn main_task_turn(phase: Phase, input: Input) -> (turn: (Phase, Option<controller::Event>))
    requires
        phase.awaits(input),
    ensures
        turn.0 == phase.after(input),
        turn.1 is Some <==> phase.message(input) is Some,
        turn.1 matches Some(event) ==> Some(event@) == phase.message(input),
{
    match (phase, input) {
        (Phase::Up, _) => (Phase::Down, None),
        (Phase::Down, Input::FallingEdge) => (
            Phase::Settling,
            Some(controller::Event::ButtonPress),
        ),
        (Phase::Down, _) => (Phase::Settling, Some(controller::Event::CancelRecipe)),
        (Phase::Settling, _) => (Phase::Up, None),
    }
}

/// A button that is pressed tells its controller one thing and is up again: that it was pressed, or
/// to cancel, by how the press ended.
pub proof fn law_press_gives_one_message(end: Input)
    requires
        Phase::Down.awaits(end),
    ensures
        Phase::Up.after(Input::RisingEdge).after(end).after(Input::Elapsed) == Phase::Up,
        Phase::Up.message(Input::RisingEdge) is None,
        Phase::Down.message(end) == Some(
            if end == Input::FallingEdge {
                controller::EventView::ButtonPress
            } else {
                controller::EventView::CancelRecipe
            },
        ),
        Phase::Settling.message(Input::Elapsed) is None,
{
}

/// A press begins with a rising edge, ends when the button is let go or has been held, and is
/// followed by a time in which the button is not looked at.
pub proof fn law_press_has_its_phases(input: Input)
    ensures
        Phase::Up.awaits(input) <==> input == Input::RisingEdge,
        Phase::Down.awaits(input) <==> input != Input::RisingEdge,
        Phase::Settling.awaits(input) <==> input == Input::Elapsed,
        Phase::Up.awaits(input) ==> Phase::Up.after(input) == Phase::Down,
        Phase::Down.awaits(input) ==> Phase::Down.after(input) == Phase::Settling,
        Phase::Settling.awaits(input) ==> Phase::Settling.after(input) == Phase::Up,
{
}

/// The end of its time is what a button waits for where its phase is limited, and only there: three
/// seconds while it is pressed, and a tenth of one after that.
pub proof fn law_limited_phases_await_the_end_of_their_time(phase: Phase)
    ensures
        phase.limit() is Some <==> phase.awaits(Input::Elapsed),
        phase == Phase::Down ==> phase.limit()->0.ticks == 3 * TICK_HZ,
        phase == Phase::Settling ==> 10 * phase.limit()->0.ticks == TICK_HZ,
{
}

/// The controller is told something only when a press ends: to cancel where the button was held for
/// its whole time, and otherwise that it was pressed.
pub proof fn law_message_tells_how_the_press_ended(phase: Phase, input: Input)
    requires
        phase.awaits(input),
    ensures
        phase.message(input) is Some <==> phase == Phase::Down,
        phase.message(input) == Some(controller::EventView::CancelRecipe) <==> phase == Phase::Down
            && input == Input::Elapsed,
        phase.message(input) == Some(controller::EventView::ButtonPress) <==> phase == Phase::Down
            && input == Input::FallingEdge,
{
}

} // verus!
