use coffee_stations::recipes::controller::{
    finish_recipe, handle_event, reset_station, Context, Event, FollowUp, Reaction,
};
use coffee_stations::recipes::{default_recipe, executor, Recipe, Step};
use coffee_stations::stations::{Station, Status};
use coffee_stations::time::Duration;

fn secs(secs: u64) -> Duration {
    Duration { ticks: secs * 1_000_000 }
}

fn short_recipe() -> Recipe {
    Recipe {
        scald: None,
        attacks: heapless::Vec::from_slice(&[Step { duration: secs(7), interval: None }]).unwrap(),
        finalization_time: None,
    }
}

fn assert_quiet(reaction: &Reaction) {
    assert_eq!(reaction.signal, None);
    assert!(reaction.request.is_none());
    assert_eq!(reaction.follow_up, FollowUp::Nothing);
}

#[test]
fn default_recipe_has_its_steps() {
    let recipe = default_recipe();
    assert!(recipe.has_scald());
    assert_eq!(recipe.scald, Some(Step { duration: secs(5), interval: None }));
    assert_eq!(
        recipe.attacks.as_slice(),
        &[
            Step { duration: secs(10), interval: Some(secs(5)) },
            Step { duration: secs(5), interval: None },
        ]
    );
    assert_eq!(recipe.finalization_time, Some(secs(15)));
    assert!(!short_recipe().has_scald());
}

#[test]
fn cloned_recipe_is_the_same() {
    let recipe = default_recipe();
    let copy = recipe.clone();
    assert_eq!(copy.scald, recipe.scald);
    assert_eq!(copy.attacks.as_slice(), recipe.attacks.as_slice());
    assert_eq!(copy.finalization_time, recipe.finalization_time);
}

#[test]
fn course_with_scald() {
    let mut ctx = Context::new(Station(0), None, Some(default_recipe()));
    let reaction = handle_event(&mut ctx, Event::ButtonPress);
    assert_eq!(ctx.station_status, Status::WaitingToScald);
    assert_eq!(reaction.signal, Some(Status::WaitingToScald));
    assert!(reaction.request.is_none());

    let reaction = handle_event(&mut ctx, Event::ButtonPress);
    assert_eq!(ctx.station_status, Status::Scalding);
    assert_eq!(reaction.signal, Some(Status::Scalding));
    match reaction.request {
        Some(executor::Event::ScheduleScald(station, step)) => {
            assert_eq!(station, Station(0));
            assert_eq!(step, Step { duration: secs(5), interval: None });
        }
        _ => panic!("no scald was asked for"),
    }

    let reaction = handle_event(&mut ctx, Event::AdvanceRecipe);
    assert_eq!(reaction.signal, Some(Status::WaitingToAttack));
    assert_eq!(reaction.follow_up, FollowUp::Nothing);

    let reaction = handle_event(&mut ctx, Event::ButtonPress);
    assert_eq!(reaction.signal, Some(Status::Attacking));
    match reaction.request {
        Some(executor::Event::ScheduleAttacks(station, steps)) => {
            assert_eq!(station, Station(0));
            assert_eq!(steps.as_slice(), default_recipe().attacks.as_slice());
        }
        _ => panic!("no attacks were asked for"),
    }

    let reaction = handle_event(&mut ctx, Event::AdvanceRecipe);
    assert_eq!(reaction.signal, Some(Status::Finalizing));
    assert!(reaction.request.is_none());
    assert_eq!(reaction.follow_up, FollowUp::Finish(Some(secs(15))));

    assert_eq!(finish_recipe(&mut ctx), Status::Finished);
    assert_eq!(ctx.station_status, Status::Finished);

    let reaction = handle_event(&mut ctx, Event::ButtonPress);
    assert_eq!(reaction.signal, Some(Status::Free));
    assert_eq!(ctx.station_status, Status::Free);
    assert!(ctx.recipe.is_none());
}

#[test]
fn course_without_scald() {
    let mut ctx = Context::new(Station(0), Some(short_recipe()), None);
    let reaction = handle_event(&mut ctx, Event::ButtonPress);
    assert_eq!(reaction.signal, Some(Status::Attacking));
    match reaction.request {
        Some(executor::Event::ScheduleAttacks(_, steps)) => {
            assert_eq!(steps.as_slice(), &[Step { duration: secs(7), interval: None }]);
        }
        _ => panic!("no attacks were asked for"),
    }
    let reaction = handle_event(&mut ctx, Event::AdvanceRecipe);
    assert_eq!(reaction.follow_up, FollowUp::Finish(None));
    assert!(ctx.fixed_recipe.is_some());
}

#[test]
fn button_without_recipe_does_nothing() {
    let mut ctx = Context::new(Station(0), None, None);
    let reaction = handle_event(&mut ctx, Event::ButtonPress);
    assert_quiet(&reaction);
    assert_eq!(ctx.station_status, Status::Free);
}

#[test]
fn recipe_of_the_host_comes_first() {
    let mut ctx = Context::new(Station(0), Some(short_recipe()), Some(default_recipe()));
    handle_event(&mut ctx, Event::ButtonPress);
    assert_eq!(ctx.station_status, Status::WaitingToScald);
}

#[test]
fn busy_station_ignores_button() {
    for status in [Status::Scalding, Status::Attacking, Status::Finalizing] {
        let mut ctx = Context::new(Station(0), None, Some(default_recipe()));
        ctx.station_status = status;
        let reaction = handle_event(&mut ctx, Event::ButtonPress);
        assert_quiet(&reaction);
        assert_eq!(ctx.station_status, status);
        assert!(ctx.recipe.is_some());
    }
}

#[test]
fn waiting_station_without_recipe_stays() {
    let mut ctx = Context::new(Station(0), None, None);
    ctx.station_status = Status::WaitingToAttack;
    let reaction = handle_event(&mut ctx, Event::ButtonPress);
    assert_quiet(&reaction);
    assert_eq!(ctx.station_status, Status::WaitingToAttack);
}

#[test]
fn scald_stage_without_scald_asks_for_nothing() {
    let mut ctx = Context::new(Station(0), None, Some(short_recipe()));
    ctx.station_status = Status::WaitingToScald;
    let reaction = handle_event(&mut ctx, Event::ButtonPress);
    assert_eq!(reaction.signal, Some(Status::Scalding));
    assert!(reaction.request.is_none());
}

#[test]
fn cancel_frees_station_and_tells_executor() {
    let mut ctx = Context::new(Station(0), None, Some(default_recipe()));
    ctx.station_status = Status::Attacking;
    let reaction = handle_event(&mut ctx, Event::CancelRecipe);
    assert_eq!(ctx.station_status, Status::Free);
    assert!(ctx.recipe.is_none());
    assert_eq!(reaction.signal, Some(Status::Free));
    assert!(matches!(reaction.request, Some(executor::Event::CancelRecipe(Station(0)))));
}

#[test]
fn cancel_of_free_station_keeps_its_recipe() {
    let mut ctx = Context::new(Station(0), None, Some(default_recipe()));
    let reaction = handle_event(&mut ctx, Event::CancelRecipe);
    assert_quiet(&reaction);
    assert!(ctx.recipe.is_some());
}

#[test]
fn recipe_under_way_is_not_replaced() {
    let mut ctx = Context::new(Station(0), None, Some(default_recipe()));
    let reaction = handle_event(&mut ctx, Event::UpdateRecipe(short_recipe()));
    assert_quiet(&reaction);
    assert!(ctx.recipe.as_ref().unwrap().has_scald());
    assert_eq!(reset_station(&mut ctx), Status::Free);
    handle_event(&mut ctx, Event::UpdateRecipe(short_recipe()));
    assert!(!ctx.recipe.as_ref().unwrap().has_scald());
}

#[test]
fn fixed_recipe_can_be_set_and_cleared() {
    let mut ctx = Context::new(Station(0), None, None);
    handle_event(&mut ctx, Event::UpdateFixedRecipe(Some(short_recipe())));
    assert!(ctx.fixed_recipe.is_some());
    assert!(ctx.recipe.is_none());
    handle_event(&mut ctx, Event::UpdateFixedRecipe(None));
    assert!(ctx.fixed_recipe.is_none());
}

#[test]
fn last_stage_has_no_follow_up() {
    let mut ctx = Context::new(Station(0), None, Some(default_recipe()));
    ctx.station_status = Status::Finalizing;
    let reaction = handle_event(&mut ctx, Event::AdvanceRecipe);
    assert_eq!(reaction.signal, Some(Status::Finished));
    assert_eq!(reaction.follow_up, FollowUp::Nothing);
}
