//! What holds of a station and its recipe, whatever the controller is told.
use super::controller::{
    Context, ContextView, Event, EventView, FollowUp, Reaction, ReactionView,
};
use super::executor;
use super::schedule_laws::scheduled_station;
use super::{recipe_steps, Recipe};
use crate::leds;
use crate::stations::Status;
use vstd::prelude::*;

verus! {

impl ContextView {
    /// A station that is not free has a recipe, and one that waits to scald or scalds has a scald.
    pub open spec fn is_sound(self) -> bool {
        &&& self.status != Status::Free ==> self.recipe is Some
        &&& self.status == Status::WaitingToScald || self.status == Status::Scalding
            ==> self.recipe->0.scald is Some
    }
}

/// Whatever a controller is told, a station that is not free has a recipe, and one that waits to
/// scald or scalds has a scald.
pub proof fn law_event_keeps_soundness(before: ContextView, event: EventView)
    requires
        before.is_sound(),
        before.accepts(event),
    ensures
        before.on_event(event).0.is_sound(),
{
}

/// The same holds once a recipe is finished.
pub proof fn law_finish_keeps_soundness(before: ContextView)
    requires
        before.is_sound(),
        before.status == Status::Finalizing,
    ensures
        before.finished().is_sound(),
{
}

/// A change of the status is always shown, and nothing but the status of the station is shown.
pub proof fn law_status_is_shown(before: ContextView, event: EventView)
    ensures
        before.on_event(event).0.status != before.status ==> before.on_event(event).1.signal
            == Some(before.on_event(event).0.status),
        before.on_event(event).1.signal matches Some(shown) ==> shown == before.on_event(
            event,
        ).0.status,
{
}

/// A controller speaks for its own station only, and stays with it. The fixed recipe changes only
/// when the host sets it.
pub proof fn law_controller_keeps_to_its_station(before: ContextView, event: EventView)
    ensures
        before.on_event(event).0.station == before.station,
        before.on_event(event).1.request matches Some(request) ==> scheduled_station(request)
            == before.station,
        before.on_event(event).0.fixed_recipe == match event {
            EventView::UpdateFixedRecipe(fixed_recipe) => fixed_recipe,
            _ => before.fixed_recipe,
        },
{
}

/// A station that waits for its user goes on when the button is pressed: the executor is asked for
/// the pours of the stage, whatever the recipe is.
pub proof fn law_waiting_station_goes_on(before: ContextView)
    requires
        before.is_sound(),
    ensures
        before.status == Status::WaitingToScald ==> {
            &&& before.on_event(EventView::ButtonPress).0.status == Status::Scalding
            &&& before.on_event(EventView::ButtonPress).1.request == Some(
                executor::EventView::ScheduleScald(
                    before.station,
                    before.recipe->0.scald->0,
                ),
            )
        },
        before.status == Status::WaitingToAttack ==> {
            &&& before.on_event(EventView::ButtonPress).0.status == Status::Attacking
            &&& before.on_event(EventView::ButtonPress).1.request == Some(
                executor::EventView::ScheduleAttacks(before.station, before.recipe->0.attacks),
            )
        },
{
}

/// While the machine is at work at a station, its button does nothing.
pub proof fn law_busy_station_ignores_button(before: ContextView)
    requires
        before.status == Status::Scalding || before.status == Status::Attacking || before.status
            == Status::Finalizing,
    ensures
        before.on_event(EventView::ButtonPress) == (before, ReactionView::none()),
{
}

/// A recipe that is under way is kept to its end: only cancelling it, or pressing the button once
/// it is finished, takes it away, and nothing replaces it.
pub proof fn law_running_recipe_is_kept(before: ContextView, event: EventView)
    requires
        before.is_sound(),
        before.status != Status::Free,
    ensures
        before.on_event(event).0.recipe == before.recipe || before.on_event(event).0.recipe is None,
        before.on_event(event).0.recipe != before.recipe ==> event is CancelRecipe || (event
            is ButtonPress && before.status == Status::Finished),
{
}

/// Cancelling always leaves the station free. Where a recipe was under way it is dropped, and the
/// executor is told; a free station keeps the recipe that waits for it.
pub proof fn law_cancel_frees_station(before: ContextView)
    ensures
        before.on_event(EventView::CancelRecipe).0.status == Status::Free,
        before.status != Status::Free ==> {
            &&& before.on_event(EventView::CancelRecipe).0.recipe is None
            &&& before.on_event(EventView::CancelRecipe).1.request == Some(
                executor::EventView::CancelRecipe(before.station),
            )
        },
        before.status == Status::Free ==> before.on_event(EventView::CancelRecipe) == (
            before,
            ReactionView::none(),
        ),
{
}

/// The data after all of `events`, one after the other.
pub open spec fn after_events(ctx: ContextView, events: Seq<EventView>) -> ContextView
    decreases events.len(),
{
    if events.len() == 0 {
        ctx
    } else {
        after_events(ctx, events.drop_last()).on_event(events.last()).0
    }
}

/// The course of a recipe with a scald: two presses start the scald, one more the attacks, and after
/// the attacks and the time that follows on them the recipe is finished. One more press frees the
/// station.
pub proof fn law_course_with_scald(ctx: ContextView)
    requires
        ctx.status == Status::Free,
        ctx.next_recipe() matches Some(recipe) && recipe.scald is Some,
    ensures
        ({
            let press = EventView::ButtonPress;
            let over = EventView::AdvanceRecipe;
            let dripping = after_events(ctx, seq![press, press, over, press, over]);
            &&& after_events(ctx, seq![press]).status == Status::WaitingToScald
            &&& after_events(ctx, seq![press, press]).status == Status::Scalding
            &&& after_events(ctx, seq![press, press, over]).status == Status::WaitingToAttack
            &&& after_events(ctx, seq![press, press, over, press]).status == Status::Attacking
            &&& dripping.status == Status::Finalizing
            &&& dripping.recipe == ctx.next_recipe()
            &&& dripping.finished().on_event(press).0 == ctx.reset()
        }),
{
    let press = EventView::ButtonPress;
    let over = EventView::AdvanceRecipe;
    reveal_with_fuel(after_events, 6);
    assert(seq![press].drop_last() =~= seq![]);
    assert(seq![press, press].drop_last() =~= seq![press]);
    assert(seq![press, press, over].drop_last() =~= seq![press, press]);
    assert(seq![press, press, over, press].drop_last() =~= seq![press, press, over]);
    assert(seq![press, press, over, press, over].drop_last() =~= seq![press, press, over, press]);
}

/// The course of a recipe without a scald: one press starts the attacks, and after them and the time
/// that follows on them the recipe is finished. One more press frees the station.
pub proof fn law_course_without_scald(ctx: ContextView)
    requires
        ctx.status == Status::Free,
        ctx.next_recipe() matches Some(recipe) && recipe.scald is None,
    ensures
        ({
            let press = EventView::ButtonPress;
            let over = EventView::AdvanceRecipe;
            let dripping = after_events(ctx, seq![press, over]);
            &&& after_events(ctx, seq![press]).status == Status::Attacking
            &&& dripping.status == Status::Finalizing
            &&& dripping.recipe == ctx.next_recipe()
            &&& dripping.finished().on_event(press).0 == ctx.reset()
        }),
{
    let press = EventView::ButtonPress;
    let over = EventView::AdvanceRecipe;
    reveal_with_fuel(after_events, 3);
    assert(seq![press].drop_last() =~= seq![]);
    assert(seq![press, over].drop_last() =~= seq![press]);
}

/// The end of the attacks brings the recipe's finalization time, and no other stage has one.
pub proof fn law_only_attacks_are_finalized(before: ContextView)
    requires
        before.is_sound(),
    ensures
        before.on_event(EventView::AdvanceRecipe).1.follow_up == if before.status
            == Status::Attacking {
            FollowUp::Finish(before.recipe->0.finalization_time)
        } else {
            FollowUp::Nothing
        },
{
}

/// Only a recipe that is not under way cannot advance; every other event is taken at any time.
pub proof fn law_events_are_accepted(before: ContextView, event: EventView)
    ensures
        before.accepts(event) <==> !(event is AdvanceRecipe && (before.status == Status::Free
            || before.status == Status::Finished)),
{
}

/// The executor is asked for pours only when a press of the button brings the station to the stage
/// that they belong to: for the scald on coming to scald, and for the attacks on coming to attack.
/// It is told to cancel only when a recipe that is under way is cancelled. Nothing else makes the
/// controller ask for anything.
pub proof fn law_pours_are_asked_for_on_a_press(before: ContextView, event: EventView)
    ensures
        ({
            let (after, reaction) = before.on_event(event);
            let comes_to = |stage: Status|
                event is ButtonPress && before.status != stage && after.status == stage;
            &&& reaction.request matches Some(executor::EventView::ScheduleScald(
                station,
                step,
            )) ==> {
                &&& comes_to(Status::Scalding)
                &&& station == before.station
                &&& after.recipe is Some && after.recipe->0.scald == Some(step)
            }
            &&& comes_to(Status::Scalding) && after.recipe->0.scald is Some ==> reaction.request
                == Some(
                executor::EventView::ScheduleScald(before.station, after.recipe->0.scald->0),
            )
            &&& reaction.request matches Some(executor::EventView::ScheduleAttacks(
                station,
                steps,
            )) ==> {
                &&& comes_to(Status::Attacking)
                &&& station == before.station
                &&& after.recipe is Some && after.recipe->0.attacks == steps
            }
            &&& comes_to(Status::Attacking) ==> reaction.request == Some(
                executor::EventView::ScheduleAttacks(before.station, after.recipe->0.attacks),
            )
            &&& reaction.request matches Some(executor::EventView::CancelRecipe(station)) ==> {
                &&& event is CancelRecipe
                &&& before.status != Status::Free
                &&& station == before.station
            }
            &&& event is CancelRecipe && before.status != Status::Free ==> reaction.request == Some(
                executor::EventView::CancelRecipe(before.station),
            )
        }),
{
}

/// The end of a stage asks the executor for nothing: what comes next waits for the user or for the
/// time to pass.
pub proof fn law_end_of_stage_asks_for_nothing(before: ContextView)
    ensures
        before.on_event(EventView::AdvanceRecipe).1.request is None,
{
}

/// The status changes as little as it must. The end of a stage leads to the next one; a press leads
/// from one that waits for it to the next, from the end to the start, and from the start into the
/// recipe; cancelling leads to the start; and new recipes leave it alone.
pub proof fn law_status_follows_the_stages(before: ContextView, event: EventView)
    requires
        before.accepts(event),
        before.is_sound(),
    ensures
        ({
            let after = before.on_event(event).0.status;
            match event {
                EventView::AdvanceRecipe => after.rank() == before.status.rank() + 1,
                EventView::ButtonPress => match before.status {
                    Status::Free => if before.recipe is None && before.fixed_recipe is None {
                        after == Status::Free
                    } else {
                        after == Status::WaitingToScald || after == Status::Attacking
                    },
                    Status::WaitingToScald | Status::WaitingToAttack => after.rank()
                        == before.status.rank() + 1,
                    Status::Finished => after == Status::Free,
                    _ => after == before.status,
                },
                EventView::CancelRecipe => after == Status::Free,
                EventView::UpdateRecipe(_) => after == before.status,
                EventView::UpdateFixedRecipe(_) => after == before.status,
            }
        }),
{
}

/// A press at a free station starts the recipe of the host, or else the fixed one: with its scald,
/// for which the user presses once more, or else with the attacks at once.
pub proof fn law_press_starts_the_next_recipe(before: ContextView)
    requires
        before.status == Status::Free,
    ensures
        ({
            let after = before.on_event(EventView::ButtonPress).0;
            &&& before.recipe is Some ==> after.recipe == before.recipe
            &&& before.recipe is None ==> after.recipe == before.fixed_recipe
            &&& after.recipe is None ==> after.status == Status::Free
            &&& after.recipe is Some && after.recipe->0.scald is Some ==> after.status
                == Status::WaitingToScald
            &&& after.recipe is Some && after.recipe->0.scald is None ==> after.status
                == Status::Attacking
        }),
{
}

/// The recipe of a station is the one that it had, but for four events: a press that starts one, a
/// press that clears a finished one away, a cancellation of one that is under way, and the recipe of
/// a host where there is none.
pub proof fn law_recipe_changes_for_a_reason(before: ContextView, event: EventView)
    ensures
        ({
            let after = before.on_event(event).0.recipe;
            match event {
                EventView::ButtonPress => if before.status == Status::Finished {
                    after is None
                } else if before.status == Status::Free && before.recipe is None {
                    after == before.fixed_recipe
                } else {
                    after == before.recipe
                },
                EventView::CancelRecipe => if before.status == Status::Free {
                    after == before.recipe
                } else {
                    after is None
                },
                EventView::UpdateRecipe(recipe) => if before.recipe is None {
                    after == Some(recipe)
                } else {
                    after == before.recipe
                },
                EventView::AdvanceRecipe => after == before.recipe,
                EventView::UpdateFixedRecipe(_) => after == before.recipe,
            }
        }),
{
}

/// The status is shown where it changes, and only there.
pub proof fn law_only_changes_are_shown(before: ContextView, event: EventView)
    requires
        before.accepts(event),
    ensures
        before.on_event(event).1.signal == if before.on_event(event).0.status == before.status {
            None
        } else {
            Some(before.on_event(event).0.status)
        },
{
}

/// Something follows by itself only where the attacks have ended and there is a recipe: then it is
/// finished, after the time that the recipe gives.
pub proof fn law_follow_up_comes_after_the_attacks(before: ContextView, event: EventView)
    ensures
        before.on_event(event).1.follow_up == if event is AdvanceRecipe && before.status
            == Status::Attacking && before.recipe is Some {
            FollowUp::Finish(before.recipe->0.finalization_time)
        } else {
            FollowUp::Nothing
        },
{
}

/// A station that waits for its user without a recipe keeps waiting, and one that comes to scald
/// without a scald asks for nothing.
pub proof fn law_missing_recipe_is_not_poured(before: ContextView)
    requires
        before.status == Status::WaitingToScald || before.status == Status::WaitingToAttack,
    ensures
        before.recipe is None ==> before.on_event(EventView::ButtonPress) == (
            before,
            ReactionView::none(),
        ),
        before.status == Status::WaitingToScald && before.recipe is Some
            && before.recipe->0.scald is None ==> {
            &&& before.on_event(EventView::ButtonPress).0.status == Status::Scalding
            &&& before.on_event(EventView::ButtonPress).1.request is None
        },
{
}

/// A reaction of nothing shows nothing, asks for nothing and has nothing follow.
pub proof fn law_no_reaction_is_nothing()
    ensures
        ReactionView::none().signal is None,
        ReactionView::none().request is None,
        ReactionView::none().follow_up == FollowUp::Nothing,
{
}

/// Finishing a recipe and freeing a station change the status to what they say. The recipe is kept
/// in the one case and dropped in the other, and all else stays.
pub proof fn law_finish_and_reset_change_what_they_say(before: ContextView)
    ensures
        before.finished() == (ContextView { status: Status::Finished, ..before }),
        before.reset().status == Status::Free,
        before.reset().recipe is None,
        before.reset().station == before.station,
        before.reset().fixed_recipe == before.fixed_recipe,
{
}

/// The light of a station tells its user what to do: it is off where the station is free, and blinks
/// where a recipe is at the station and a press of the button makes it go on.
pub proof fn law_light_blinks_where_a_press_helps(before: ContextView)
    requires
        before.is_sound(),
    ensures
        before.status.light() == leds::Status::Off <==> before.status == Status::Free,
        before.status.light() == leds::Status::Blinking <==> before.status != Status::Free
            && before.on_event(EventView::ButtonPress).0.status != before.status,
{
}

/// The models of a controller's data, of its events and of its reactions leave nothing out.
pub proof fn law_controller_views_show_everything(
    ctx: Context,
    recipe: Recipe,
    reaction: Reaction,
)
    ensures
        recipe@.scald == recipe.scald,
        recipe@.attacks == recipe_steps(recipe.attacks),
        recipe@.finalization_time == recipe.finalization_time,
        ctx@.station == ctx.station,
        ctx@.status == ctx.station_status,
        ctx.recipe is None <==> ctx@.recipe is None,
        ctx.recipe matches Some(recipe) ==> ctx@.recipe == Some(recipe@),
        ctx.fixed_recipe is None <==> ctx@.fixed_recipe is None,
        ctx.fixed_recipe matches Some(recipe) ==> ctx@.fixed_recipe == Some(recipe@),
        Event::AdvanceRecipe@ == EventView::AdvanceRecipe,
        Event::ButtonPress@ == EventView::ButtonPress,
        Event::CancelRecipe@ == EventView::CancelRecipe,
        Event::UpdateRecipe(recipe)@ == EventView::UpdateRecipe(recipe@),
        Event::UpdateFixedRecipe(None)@ == EventView::UpdateFixedRecipe(None),
        Event::UpdateFixedRecipe(Some(recipe))@ == EventView::UpdateFixedRecipe(Some(recipe@)),
        reaction@.signal == reaction.signal,
        reaction.request is None <==> reaction@.request is None,
        reaction.request matches Some(request) ==> reaction@.request == Some(request@),
        reaction@.follow_up == reaction.follow_up,
{
}

} // verus!
