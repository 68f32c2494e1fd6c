//! The lights of the stations.
use crate::time::{Duration, TICK_HZ};
use vstd::prelude::*;

verus! {

/// Milliseconds after which a blinking light changes.
pub const BLINK_MILLIS: u64 = 500;

/// What a light shows.
#[derive(Clone, Copy, Debug, PartialEq, Eq, Structural)]
pub enum Status {
    On,
    Off,
    Blinking,
}

/// The level of the pin that drives a light.
#[derive(Clone, Copy, Debug, PartialEq, Eq, Structural)]
pub enum Level {
    Low,
    High,
}

impl Status {
    /// The level that shows this status. A blinking light has no fixed one.
    pub fn into(self) -> (level: Level)
        requires
            self != Status::Blinking,
        ensures
            level == if self == Status::On {
                Level::High
            } else {
                Level::Low
            },
    {
        match self {
            Status::On => Level::High,
            _ => Level::Low,
        }
    }
}

impl Level {
    /// The other level.
    pub open spec fn opposite(self) -> Level {
        match self {
            Level::Low => Level::High,
            Level::High => Level::Low,
        }
    }
}

/// What a light has waited for.
#[derive(Clone, Copy, Debug, PartialEq, Eq, Structural)]
pub enum Input {
    /// The time after which a blinking light changes is over.
    Elapsed,
    /// There is a new status to show.
    Signal(Status),
}

/// A light: what it is to show, and the level that its pin is at.
#[derive(Clone, Copy, Debug, PartialEq, Eq, Structural)]
pub struct Light {
    pub status: Status,
    pub level: Level,
}

impl Light {
    /// A light that is off.
    pub fn new() -> (light: Light)
        ensures
            light == (Light { status: Status::Off, level: Level::Low }),
    {
        Light { status: Status::Off, level: Level::Low }
    }

    /// The light with its pin at the level that the status asks for.
    pub open spec fn driven(self) -> Light {
        match self.status {
            Status::On => Light { level: Level::High, ..self },
            Status::Off => Light { level: Level::Low, ..self },
            Status::Blinking => self,
        }
    }

    /// The time after which the light changes by itself, if it does.
    pub open spec fn period(self) -> Option<Duration> {
        match self.status {
            Status::Blinking => Some(
                Duration { ticks: crate::time::ticks_in(BLINK_MILLIS as int) as u64 },
            ),
            Status::On | Status::Off => None,
        }
    }

    /// Puts the pin at the level that the status asks for. Gives the time after which the light
    /// changes by itself, if it does.
    pub fn drive(&mut self) -> (timeout: Option<Duration>)
        ensures
            *final(self) == old(self).driven(),
            timeout == old(self).period(),
            timeout == if old(self).status == Status::Blinking {
                Some(Duration { ticks: crate::time::ticks_in(BLINK_MILLIS as int) as u64 })
            } else {
                None
            },
    {
        match self.status {
            Status::Blinking => Some(Duration::from_millis(BLINK_MILLIS)),
            Status::On | Status::Off => {
                self.level = self.status.into();
                None
            },
        }
    }

    /// What `input` makes of the light: a blinking one changes when its time is over, and a signal
    /// says what is shown from then on.
    pub open spec fn after(self, input: Input) -> Light {
        match input {
            Input::Elapsed => Light { level: self.level.opposite(), ..self },
            Input::Signal(status) => Light { status, ..self },
        }
    }

    /// Takes in what the light has waited for.
    pub fn handle(&mut self, input: Input)
        requires
            input == Input::Elapsed ==> old(self).status == Status::Blinking,
        ensures
            *final(self) == old(self).after(input),
    {
        match input {
            Input::Elapsed => {
                self.level = match self.level {
                    Level::Low => Level::High,
                    Level::High => Level::Low,
                };
            },
            Input::Signal(status) => {
                self.status = status;
            },
        }
    }
}

/// A light that is told to be on or off is at that level as soon as it is driven, whatever it showed
/// before.
pub proof fn law_signal_decides_level(light: Light)
    ensures
        light.after(Input::Signal(Status::On)).driven().level == Level::High,
        light.after(Input::Signal(Status::Off)).driven().level == Level::Low,
{
}

/// A blinking light changes each time, and is back where it was after two.
pub proof fn law_blinking_alternates(light: Light)
    requires
        light.status == Status::Blinking,
    ensures
        light.driven().after(Input::Elapsed).driven().level != light.level,
        light.driven().after(Input::Elapsed).driven().after(Input::Elapsed).driven() == light,
{
}

/// A signal decides what the light shows, whatever it showed before, and leaves the pin alone until
/// the light is driven.
pub proof fn law_signal_sets_the_status(light: Light, status: Status)
    ensures
        light.after(Input::Signal(status)).status == status,
        light.after(Input::Signal(status)).level == light.level,
{
}

/// Of all that can be signalled, only blinking makes the light change by itself, after half a second
/// each time; and a light changes by itself only then.
pub proof fn law_light_changes_by_itself_where_it_blinks(light: Light, status: Status)
    ensures
        light.after(Input::Signal(status)).driven().period() is Some <==> status
            == Status::Blinking,
        light.period() is Some <==> light.status == Status::Blinking,
        light.period() matches Some(period) ==> 2 * period.ticks == TICK_HZ,
{
}

/// Driving a light changes nothing of what it shows. A steady light comes to the level that it is to
/// show and stays there, and a blinking one stays at its level until its time is over.
pub proof fn law_driving_keeps_the_status(light: Light)
    ensures
        light.driven().status == light.status,
        light.status == Status::On ==> light.driven().level == Level::High,
        light.status == Status::Off ==> light.driven().level == Level::Low,
        light.status == Status::Blinking ==> light.driven() == light,
        light.driven().driven() == light.driven(),
{
}

/// When its time is over, a light changes its level and nothing else.
pub proof fn law_elapsed_time_turns_the_level(light: Light)
    ensures
        light.after(Input::Elapsed).status == light.status,
        light.after(Input::Elapsed).level == Level::High <==> light.level == Level::Low,
{
}

} // verus!
