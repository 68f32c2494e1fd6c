//! Brewing stations and the stages that a recipe goes through at one of them.
use crate::leds;
use vstd::prelude::*;

verus! {

/// Number of stations that the machine serves.
pub const MAX_STATIONS: usize = 1;

/// One value for each station, indexed by the station's number.
pub type PerStationData<T> = [T; MAX_STATIONS];

/// A station, by its number.
#[derive(Clone, Copy, Debug, PartialEq, Eq, PartialOrd, Ord, Structural)]
pub struct Station(pub usize);

/// What goes on at a station.
#[derive(Clone, Copy, Debug, PartialEq, Eq, Structural)]
pub enum Status {
    Free,
    WaitingToScald,
    Scalding,
    WaitingToAttack,
    Attacking,
    Finalizing,
    Finished,
}

impl Status {
    /// A recipe is under way: there is a stage after this one.
    pub open spec fn can_advance(self) -> bool {
        self != Status::Free && self != Status::Finished
    }

    /// The stage after this one. Nothing follows `Free` and `Finished`.
    pub open spec fn successor(self) -> Status {
        match self {
            Status::WaitingToScald => Status::Scalding,
            Status::Scalding => Status::WaitingToAttack,
            Status::WaitingToAttack => Status::Attacking,
            Status::Attacking => Status::Finalizing,
            Status::Finalizing => Status::Finished,
            Status::Free => Status::Free,
            Status::Finished => Status::Finished,
        }
    }

    /// Moves on to the next stage of the recipe.
    pub fn advance(&mut self)
        requires
            old(self).can_advance(),
        ensures
            *final(self) == old(self).successor(),
    {
        *self = match *self {
            Status::WaitingToScald => Status::Scalding,
            Status::Scalding => Status::WaitingToAttack,
            Status::WaitingToAttack => Status::Attacking,
            Status::Attacking => Status::Finalizing,
            Status::Finalizing => Status::Finished,
            unchanged => unchanged,
        };
    }

    /// The station waits for its user to press the button.
    pub open spec fn awaits_user(self) -> bool {
        self == Status::WaitingToScald || self == Status::WaitingToAttack || self
            == Status::Finished
    }

    /// What the light of a station in this status shows.
    pub open spec fn light(self) -> leds::Status {
        match self {
            Status::Free => leds::Status::Off,
            Status::WaitingToScald | Status::WaitingToAttack | Status::Finished => {
                leds::Status::Blinking
            },
            Status::Scalding | Status::Attacking | Status::Finalizing => leds::Status::On,
        }
    }

    /// What the station's light shows: nothing where the station is free, blinking where the user
    /// is to press the button, and a steady light while the machine is at work.
    pub fn led_status(self) -> (shown: leds::Status)
        ensures
            shown == self.light(),
            shown == if self == Status::Free {
                leds::Status::Off
            } else if self.awaits_user() {
                leds::Status::Blinking
            } else {
                leds::Status::On
            },
    {
        match self {
            Status::Free => leds::Status::Off,
            Status::WaitingToAttack | Status::WaitingToScald | Status::Finished => {
                leds::Status::Blinking
            },
            _ => leds::Status::On,
        }
    }
}

impl Status {
    /// The number of stages between the start of a recipe and this one.
    pub open spec fn rank(self) -> int {
        match self {
            Status::Free => 0,
            Status::WaitingToScald => 1,
            Status::Scalding => 2,
            Status::WaitingToAttack => 3,
            Status::Attacking => 4,
            Status::Finalizing => 5,
            Status::Finished => 6,
        }
    }
}

/// A recipe goes through its stages one by one, without leaving one out or coming back, up to its
/// end.
pub proof fn law_stages_follow_in_order(status: Status)
    requires
        status.can_advance(),
    ensures
        status.successor().rank() == status.rank() + 1,
        status.successor().can_advance() || status.successor() == Status::Finished,
{
}

/// The stages between a free station and a finished recipe: first the scald and then the attacks,
/// each of which its user starts, and then the time in which the coffee drips. No other stage has
/// the place of one of them.
pub proof fn law_stages_have_their_places(a: Status, b: Status)
    ensures
        a.rank() == b.rank() ==> a == b,
        0 <= a.rank() <= 6,
        a == Status::Free <==> a.rank() == 0,
        a == Status::WaitingToScald <==> a.rank() == 1,
        a == Status::Scalding <==> a.rank() == 2,
        a == Status::WaitingToAttack <==> a.rank() == 3,
        a == Status::Attacking <==> a.rank() == 4,
        a == Status::Finalizing <==> a.rank() == 5,
        a == Status::Finished <==> a.rank() == 6,
        a.can_advance() <==> 0 < a.rank() < 6,
        a.awaits_user() <==> a == Status::WaitingToScald || a == Status::WaitingToAttack || a
            == Status::Finished,
        a.awaits_user() <==> a.light() == leds::Status::Blinking,
        a.light() == leds::Status::Off <==> a.rank() == 0,
{
}

} // verus!
