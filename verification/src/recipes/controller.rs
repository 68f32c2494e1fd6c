//! The controller of a station: leads its recipe from stage to stage.
use super::executor;
use super::{steps_clone, Recipe, RecipeView};
use crate::stations::{Station, Status};
use crate::time::Duration;
use vstd::prelude::*;

verus! {

/// What the controller of a station keeps. The recipe of the host comes before the fixed one.
pub struct Context {
    pub station: Station,
    pub station_status: Status,
    pub fixed_recipe: Option<Recipe>,
    pub recipe: Option<Recipe>,
}

/// What a controller is told.
pub enum Event {
    /// The executor is done with the pours of the stage.
    AdvanceRecipe,
    /// The button of the station was pressed.
    ButtonPress,
    /// The button of the station was held.
    CancelRecipe,
    /// The host has a recipe for the station.
    UpdateRecipe(Recipe),
    /// The host sets the recipe that the station falls back on.
    UpdateFixedRecipe(Option<Recipe>),
}

/// What follows on a stage by itself.
#[derive(Clone, Copy, Debug, PartialEq, Eq)]
pub enum FollowUp {
    Nothing,
    /// After this time, if one is given, the recipe is finished.
    Finish(Option<Duration>),
}

/// What a controller does on an event: first it shows the new status, then it sends the request to
/// the executor, then comes what follows by itself.
pub struct Reaction {
    pub signal: Option<Status>,
    pub request: Option<executor::Event>,
    pub follow_up: FollowUp,
}

/// The controller's data with its recipes as sequences of steps.
pub ghost struct ContextView {
    pub station: Station,
    pub status: Status,
    pub fixed_recipe: Option<RecipeView>,
    pub recipe: Option<RecipeView>,
}

/// An event with its recipe as a sequence of steps.
pub ghost enum EventView {
    AdvanceRecipe,
    ButtonPress,
    CancelRecipe,
    UpdateRecipe(RecipeView),
    UpdateFixedRecipe(Option<RecipeView>),
}

/// A reaction with the steps of its request as a sequence.
pub ghost struct ReactionView {
    pub signal: Option<Status>,
    pub request: Option<executor::EventView>,
    pub follow_up: FollowUp,
}

/// An optional recipe with its attacks as a sequence.
pub open spec fn recipe_view(recipe: Option<Recipe>) -> Option<RecipeView> {
    match recipe {
        Some(recipe) => Some(recipe@),
        None => None,
    }
}

impl View for Context {
    type V = ContextView;

    open spec fn view(&self) -> ContextView {
        ContextView {
            station: self.station,
            status: self.station_status,
            fixed_recipe: recipe_view(self.fixed_recipe),
            recipe: recipe_view(self.recipe),
        }
    }
}

impl View for Event {
    type V = EventView;

    open spec fn view(&self) -> EventView {
        match *self {
            Event::AdvanceRecipe => EventView::AdvanceRecipe,
            Event::ButtonPress => EventView::ButtonPress,
            Event::CancelRecipe => EventView::CancelRecipe,
            Event::UpdateRecipe(recipe) => EventView::UpdateRecipe(recipe@),
            Event::UpdateFixedRecipe(recipe) => EventView::UpdateFixedRecipe(recipe_view(recipe)),
        }
    }
}

impl View for Reaction {
    type V = ReactionView;

    open spec fn view(&self) -> ReactionView {
        ReactionView {
            signal: self.signal,
            request: match self.request {
                Some(request) => Some(request@),
                None => None,
            },
            follow_up: self.follow_up,
        }
    }
}

impl ReactionView {
    /// Nothing is done.
    pub open spec fn none() -> ReactionView {
        ReactionView { signal: None, request: None, follow_up: FollowUp::Nothing }
    }

    /// The status is shown, and nothing else is done.
    pub open spec fn shows(status: Status) -> ReactionView {
        ReactionView { signal: Some(status), ..ReactionView::none() }
    }

    /// The status is shown and the request sent.
    pub open spec fn shows_and_asks(
        status: Status,
        request: executor::EventView,
    ) -> ReactionView {
        ReactionView { signal: Some(status), request: Some(request), ..ReactionView::none() }
    }
}

impl ContextView {
    /// The event can be handled: a recipe that is not under way cannot advance.
    pub open spec fn accepts(self, event: EventView) -> bool {
        event is AdvanceRecipe ==> self.status.can_advance()
    }

    /// The station is free and its recipe gone.
    pub open spec fn reset(self) -> ContextView {
        ContextView { status: Status::Free, recipe: None, ..self }
    }

    /// The recipe that the next one is: that of the host, or else the fixed one.
    pub open spec fn next_recipe(self) -> Option<RecipeView> {
        if self.recipe is Some {
            self.recipe
        } else {
            self.fixed_recipe
        }
    }

    /// What the executor is asked for when the station comes to `stage`.
    pub open spec fn stage_request(
        self,
        recipe: RecipeView,
        stage: Status,
    ) -> Option<executor::EventView> {
        match (stage, recipe.scald) {
            (Status::Scalding, Some(scald)) => Some(
                executor::EventView::ScheduleScald(self.station, scald),
            ),
            (Status::Attacking, _) => Some(
                executor::EventView::ScheduleAttacks(self.station, recipe.attacks),
            ),
            _ => None,
        }
    }

    /// A press of the button: it starts a recipe, sets off the stage that waits for it, or clears a
    /// finished recipe away. While the machine is at work it does nothing.
    pub open spec fn on_button(self) -> (ContextView, ReactionView) {
        match self.status {
            Status::Free => match self.next_recipe() {
                Some(recipe) => {
                    let stage = if recipe.scald is Some {
                        Status::WaitingToScald
                    } else {
                        Status::Attacking
                    };
                    (
                        ContextView { status: stage, recipe: Some(recipe), ..self },
                        ReactionView {
                            signal: Some(stage),
                            request: self.stage_request(recipe, stage),
                            follow_up: FollowUp::Nothing,
                        },
                    )
                },
                None => (self, ReactionView::none()),
            },
            Status::WaitingToScald | Status::WaitingToAttack => match self.recipe {
                Some(recipe) => {
                    let stage = self.status.successor();
                    (
                        ContextView { status: stage, ..self },
                        ReactionView {
                            signal: Some(stage),
                            request: self.stage_request(recipe, stage),
                            follow_up: FollowUp::Nothing,
                        },
                    )
                },
                None => (self, ReactionView::none()),
            },
            Status::Finished => (self.reset(), ReactionView::shows(Status::Free)),
            _ => (self, ReactionView::none()),
        }
    }

    /// The end of a stage: the next one begins. Once the attacks are over the coffee drips for the
    /// time that the recipe gives, and then the recipe is finished.
    pub open spec fn on_stage_over(self) -> (ContextView, ReactionView) {
        let stage = self.status.successor();
        let follow_up = match (stage, self.recipe) {
            (Status::Finalizing, Some(recipe)) => FollowUp::Finish(recipe.finalization_time),
            _ => FollowUp::Nothing,
        };
        (
            ContextView { status: stage, ..self },
            ReactionView { signal: Some(stage), request: None, follow_up },
        )
    }

    /// What `event` makes of the controller's data, and what the controller does.
    pub open spec fn on_event(self, event: EventView) -> (ContextView, ReactionView) {
        match event {
            EventView::ButtonPress => self.on_button(),
            EventView::AdvanceRecipe => self.on_stage_over(),
            EventView::CancelRecipe => if self.status == Status::Free {
                (self, ReactionView::none())
            } else {
                (
                    self.reset(),
                    ReactionView::shows_and_asks(
                        Status::Free,
                        executor::EventView::CancelRecipe(self.station),
                    ),
                )
            },
            EventView::UpdateFixedRecipe(fixed_recipe) => (
                ContextView { fixed_recipe, ..self },
                ReactionView::none(),
            ),
            EventView::UpdateRecipe(recipe) => if self.recipe is None {
                (ContextView { recipe: Some(recipe), ..self }, ReactionView::none())
            } else {
                (self, ReactionView::none())
            },
        }
    }

    /// The recipe is finished.
    pub open spec fn finished(self) -> ContextView {
        ContextView { status: Status::Finished, ..self }
    }
}

impl Context {
    /// The controller of a free station.
    pub fn new(station: Station, fixed_recipe: Option<Recipe>, recipe: Option<Recipe>) -> (ctx:
        Context)
        ensures
            ctx@ == (ContextView {
                station,
                status: Status::Free,
                fixed_recipe: recipe_view(fixed_recipe),
                recipe: recipe_view(recipe),
            }),
    {
        Context { station, station_status: Status::Free, fixed_recipe, recipe }
    }
}

impl Reaction {
    fn none() -> (reaction: Reaction)
        ensures
            reaction@ == ReactionView::none(),
    {
        Reaction { signal: None, request: None, follow_up: FollowUp::Nothing }
    }

    fn shows(status: Status) -> (reaction: Reaction)
        ensures
            reaction@ == ReactionView::shows(status),
    {
        Reaction { signal: Some(status), request: None, follow_up: FollowUp::Nothing }
    }

    fn shows_and_asks(status: Status, request: executor::Event) -> (reaction: Reaction)
        ensures
            reaction@ == ReactionView::shows_and_asks(status, request@),
    {
        Reaction { signal: Some(status), request: Some(request), follow_up: FollowUp::Nothing }
    }
}

/// Frees the station and drops its recipe. Gives the status that the station then shows.
pub fn reset_station(ctx: &mut Context) -> (signal: Status)
    ensures
        final(ctx)@ == old(ctx)@.reset(),
        signal == final(ctx)@.status,
{
    ctx.recipe = None;
    ctx.station_status = Status::Free;
    ctx.station_status
}

/// The request for the attacks of `recipe`.
fn attacks_request(station: Station, recipe: &Recipe) -> (request: executor::Event)
    ensures
        request@ == executor::EventView::ScheduleAttacks(station, recipe@.attacks),
{
    executor::Event::ScheduleAttacks(station, steps_clone(&recipe.attacks))
}

/// Handles a press of the button.
fn press_button(ctx: &mut Context) -> (reaction: Reaction)
    ensures
        (final(ctx)@, reaction@) == old(ctx)@.on_button(),
{
    match ctx.station_status {
        Status::Free => {
            if ctx.recipe.is_none() {
                ctx.recipe = match &ctx.fixed_recipe {
                    Some(recipe) => Some(recipe.clone()),
                    None => None,
                };
            }
            let (stage, request) = match &ctx.recipe {
                Some(recipe) => if recipe.has_scald() {
                    (Status::WaitingToScald, None)
                } else {
                    (Status::Attacking, Some(attacks_request(ctx.station, recipe)))
                },
                None => {
                    return Reaction::none();
                },
            };
            ctx.station_status = stage;
            Reaction { signal: Some(stage), request, follow_up: FollowUp::Nothing }
        },
        Status::WaitingToScald | Status::WaitingToAttack => {
            if ctx.recipe.is_none() {
                return Reaction::none();
            }
            ctx.station_status.advance();
            let request = match (ctx.station_status, &ctx.recipe) {
                (Status::Scalding, Some(recipe)) => match recipe.scald {
                    Some(scald) => Some(executor::Event::ScheduleScald(ctx.station, scald)),
                    None => None,
                },
                (_, Some(recipe)) => Some(attacks_request(ctx.station, recipe)),
                _ => None,
            };
            Reaction { signal: Some(ctx.station_status), request, follow_up: FollowUp::Nothing }
        },
        Status::Finished => Reaction::shows(reset_station(ctx)),
        _ => Reaction::none(),
    }
}

/// Handles an event: changes the controller's data and says what is to be done.
pub fn handle_event(ctx: &mut Context, event: Event) -> (reaction: Reaction)
    requires
        old(ctx)@.accepts(event@),
    ensures
        (final(ctx)@, reaction@) == old(ctx)@.on_event(event@),
{
    match event {
        Event::ButtonPress => press_button(ctx),
        Event::AdvanceRecipe => {
            ctx.station_status.advance();
            let follow_up = match (ctx.station_status, &ctx.recipe) {
                (Status::Finalizing, Some(recipe)) => FollowUp::Finish(recipe.finalization_time),
                _ => FollowUp::Nothing,
            };
            Reaction { signal: Some(ctx.station_status), request: None, follow_up }
        },
        Event::CancelRecipe => match ctx.station_status {
            Status::Free => Reaction::none(),
            _ => {
                let signal = reset_station(ctx);
                Reaction::shows_and_asks(signal, executor::Event::CancelRecipe(ctx.station))
            },
        },
        Event::UpdateFixedRecipe(new_fixed_recipe) => {
            ctx.fixed_recipe = new_fixed_recipe;
            Reaction::none()
        },
        Event::UpdateRecipe(new_recipe) => {
            if ctx.recipe.is_none() {
                ctx.recipe = Some(new_recipe);
            }
            Reaction::none()
        },
    }
}

/// Finishes the recipe, once the time that follows on its attacks is over. Gives the status that
/// the station then shows.
pub fn finish_recipe(ctx: &mut Context) -> (signal: Status)
    ensures
        final(ctx)@ == old(ctx)@.finished(),
        signal == final(ctx)@.status,
{
    ctx.station_status = Status::Finished;
    ctx.station_status
}

} // verus!
