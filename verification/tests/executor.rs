use coffee_stations::recipes::executor::{
    begin_step, begin_step_at, cancel_recipe, end_step, interpret_event, interpret_event_at,
    main_task_turn, main_task_turn_at, next_move, step_has_collisions, take_next_step, Action,
    Context, Event, Input, Phase, StepExecutionInfo,
};
use coffee_stations::recipes::{default_recipe, RecipeSteps, Step};
use coffee_stations::stations::Station;
use coffee_stations::time::{Duration, Instant};

const SECOND: u64 = 1_000_000;

fn at(secs: u64) -> Instant {
    Instant { ticks: secs * SECOND }
}

fn step(secs: u64, rest: Option<u64>) -> Step {
    Step {
        duration: Duration { ticks: secs * SECOND },
        interval: rest.map(|rest| Duration { ticks: rest * SECOND }),
    }
}

fn pour(begin: u64, secs: u64, rest: Option<u64>) -> StepExecutionInfo {
    StepExecutionInfo { instant: at(begin), step: step(secs, rest), station: Station(0) }
}

fn steps(steps: &[Step]) -> RecipeSteps {
    RecipeSteps::from_slice(steps).unwrap()
}

/// A context with these pours, the latest first, all of them counted.
fn context(queue: &[StepExecutionInfo]) -> Context {
    let mut ctx = Context::new();
    for info in queue {
        ctx.step_queue.push(*info).unwrap();
    }
    ctx.num_steps_per_station[0] = queue.len();
    ctx
}

#[test]
fn new_context_is_empty() {
    let ctx = Context::new();
    assert!(ctx.step_queue.is_empty());
    assert_eq!(ctx.num_steps_per_station, [0]);
}

#[test]
fn scald_in_empty_queue_begins_after_the_way() {
    let mut ctx = Context::new();
    interpret_event_at(&mut ctx, Event::ScheduleScald(Station(0), step(5, None)), at(10));
    assert_eq!(ctx.step_queue.as_slice(), &[pour(11, 5, None)]);
    assert_eq!(ctx.num_steps_per_station, [1]);
}

#[test]
fn scald_goes_into_a_rest() {
    let mut ctx = context(&[pour(40, 5, None), pour(20, 5, Some(15))]);
    interpret_event_at(&mut ctx, Event::ScheduleScald(Station(0), step(5, None)), at(0));
    assert_eq!(
        ctx.step_queue.as_slice(),
        &[pour(40, 5, None), pour(26, 5, None), pour(20, 5, Some(15))]
    );
    assert_eq!(ctx.num_steps_per_station, [3]);
}

#[test]
fn scald_fills_a_rest_exactly() {
    let mut ctx = context(&[pour(40, 5, None), pour(20, 5, Some(15))]);
    interpret_event_at(&mut ctx, Event::ScheduleScald(Station(0), step(13, None)), at(0));
    assert_eq!(ctx.step_queue[1], pour(26, 13, None));

    let mut ctx = context(&[pour(40, 5, None), pour(20, 5, Some(15))]);
    interpret_event_at(&mut ctx, Event::ScheduleScald(Station(0), step(14, None)), at(0));
    assert_eq!(ctx.step_queue[0], pour(46, 14, None));
}

#[test]
fn scald_takes_the_earliest_rest() {
    let queue = [pour(80, 5, None), pour(50, 5, Some(25)), pour(20, 5, Some(25))];
    let mut ctx = context(&queue);
    interpret_event_at(&mut ctx, Event::ScheduleScald(Station(0), step(5, None)), at(0));
    assert_eq!(
        ctx.step_queue.as_slice(),
        &[queue[0], queue[1], pour(26, 5, None), queue[2]]
    );
}

#[test]
fn scald_does_not_use_time_that_is_no_rest() {
    let queue = [pour(80, 5, None), pour(20, 5, None)];
    let mut ctx = context(&queue);
    interpret_event_at(&mut ctx, Event::ScheduleScald(Station(0), step(5, None)), at(0));
    assert_eq!(ctx.step_queue.as_slice(), &[pour(86, 5, None), queue[0], queue[1]]);
}

#[test]
fn attacks_in_empty_queue_follow_each_other() {
    let mut ctx = Context::new();
    let attacks = default_recipe().attacks;
    interpret_event_at(&mut ctx, Event::ScheduleAttacks(Station(0), attacks), at(0));
    assert_eq!(ctx.step_queue.as_slice(), &[pour(16, 5, None), pour(1, 10, Some(5))]);
    assert_eq!(ctx.num_steps_per_station, [2]);
}

#[test]
fn attacks_go_after_everything_else() {
    let mut ctx = context(&[pour(30, 5, None)]);
    let attacks = steps(&[step(10, Some(5)), step(3, None)]);
    interpret_event_at(&mut ctx, Event::ScheduleAttacks(Station(0), attacks), at(0));
    assert_eq!(
        ctx.step_queue.as_slice(),
        &[pour(51, 3, None), pour(36, 10, Some(5)), pour(30, 5, None)]
    );
    assert_eq!(ctx.num_steps_per_station, [3]);
}

#[test]
fn attacks_that_fit_no_rest_go_after_everything_else() {
    let queue = [pour(30, 10, None), pour(20, 5, Some(5))];
    let mut ctx = context(&queue);
    let attacks = steps(&[step(8, None)]);
    interpret_event_at(&mut ctx, Event::ScheduleAttacks(Station(0), attacks), at(0));
    assert_eq!(ctx.step_queue.len(), 3);
    assert_eq!(ctx.step_queue[0], pour(41, 8, None));
}

#[test]
fn attacks_go_into_a_rest() {
    let mut ctx = context(&[pour(60, 5, None), pour(20, 10, Some(30))]);
    let attacks = steps(&[step(5, Some(2)), step(5, None)]);
    interpret_event_at(&mut ctx, Event::ScheduleAttacks(Station(0), attacks), at(0));
    assert_eq!(
        ctx.step_queue.as_slice(),
        &[pour(60, 5, None), pour(38, 5, None), pour(31, 5, Some(2)), pour(20, 10, Some(30))]
    );
    assert_eq!(ctx.num_steps_per_station, [4]);
}

#[test]
fn attacks_take_the_first_start_that_suits() {
    let mut ctx = context(&[pour(60, 5, None), pour(20, 5, Some(35))]);
    let attacks = steps(&[step(3, Some(30)), step(3, None)]);
    interpret_event_at(&mut ctx, Event::ScheduleAttacks(Station(0), attacks), at(0));
    assert_eq!(
        ctx.step_queue.as_slice(),
        &[pour(66, 3, None), pour(60, 5, None), pour(33, 3, Some(30)), pour(20, 5, Some(35))]
    );
    assert_eq!(ctx.num_steps_per_station, [4]);
}

#[test]
fn attacks_take_the_earliest_rest() {
    let queue = [pour(90, 5, None), pour(60, 5, Some(25)), pour(20, 5, Some(35))];
    let mut ctx = context(&queue);
    let attacks = steps(&[step(3, None)]);
    interpret_event_at(&mut ctx, Event::ScheduleAttacks(Station(0), attacks), at(0));
    assert_eq!(ctx.step_queue.as_slice(), &[queue[0], queue[1], pour(26, 3, None), queue[2]]);
}

#[test]
fn attack_around_a_pour_does_not_go_into_the_rest_before_it() {
    let mut ctx = context(&[pour(60, 5, None), pour(20, 5, Some(35))]);
    let attacks = steps(&[step(50, None)]);
    interpret_event_at(&mut ctx, Event::ScheduleAttacks(Station(0), attacks), at(0));
    assert_eq!(ctx.step_queue[0], pour(66, 50, None));
    assert_eq!(ctx.num_steps_per_station, [3]);
}

#[test]
fn queue_out_of_order_is_sorted_where_attacks_find_a_rest() {
    let mut ctx = context(&[pour(60, 5, None), pour(20, 5, Some(35)), pour(70, 1, None)]);
    let attacks = steps(&[step(3, None)]);
    interpret_event_at(&mut ctx, Event::ScheduleAttacks(Station(0), attacks), at(0));
    assert_eq!(
        ctx.step_queue.as_slice(),
        &[pour(70, 1, None), pour(60, 5, None), pour(26, 3, None), pour(20, 5, Some(35))]
    );
}

#[test]
fn full_queue_refuses_attacks_for_a_rest() {
    let mut queue = vec![];
    for i in 0..9 {
        queue.push(pour(900 - 100 * i, 5, Some(50)));
    }
    let mut ctx = context(&queue);
    let attacks = steps(&[step(1, None), step(1, None)]);
    assert!(!interpret_event(&mut ctx, Event::ScheduleAttacks(Station(0), attacks)));
    assert_eq!(ctx.step_queue.as_slice(), queue.as_slice());
    assert_eq!(ctx.num_steps_per_station, [9]);
    let attacks = steps(&[step(1, None)]);
    assert!(interpret_event(&mut ctx, Event::ScheduleAttacks(Station(0), attacks)));
    assert_eq!(ctx.step_queue.len(), 10);
    assert_eq!(ctx.step_queue[8], pour(106, 1, None));
}

#[test]
fn cancel_undoes_attacks_in_a_rest() {
    let mut first = pour(20, 5, Some(35));
    first.station = Station(1);
    let mut second = pour(60, 5, None);
    second.station = Station(1);
    let mut ctx = context(&[second, first]);
    let attacks = steps(&[step(3, None)]);
    assert!(interpret_event(&mut ctx, Event::ScheduleAttacks(Station(0), attacks)));
    assert_eq!(ctx.step_queue.as_slice(), &[second, pour(26, 3, None), first]);
    assert!(interpret_event(&mut ctx, Event::CancelRecipe(Station(0))));
    assert_eq!(ctx.step_queue.as_slice(), &[second, first]);
}

#[test]
fn no_attacks_change_nothing() {
    let queue = [pour(30, 5, None)];
    let mut ctx = context(&queue);
    interpret_event_at(&mut ctx, Event::ScheduleAttacks(Station(7), steps(&[])), at(0));
    assert_eq!(ctx.step_queue.as_slice(), &queue);
    assert_eq!(ctx.num_steps_per_station, [1]);
}

#[test]
fn cancel_takes_out_one_station() {
    let mut other = pour(25, 3, None);
    other.station = Station(1);
    let mut ctx = context(&[pour(30, 5, None), other, pour(20, 5, None)]);
    cancel_recipe(&mut ctx, Station(0));
    assert_eq!(ctx.step_queue.as_slice(), &[other]);
    assert_eq!(ctx.num_steps_per_station, [0]);
}

#[test]
fn cancel_undoes_schedule() {
    let mut other = pour(20, 5, Some(35));
    other.station = Station(1);
    let mut ctx = context(&[other]);
    interpret_event_at(&mut ctx, Event::ScheduleScald(Station(0), step(5, None)), at(0));
    assert_eq!(ctx.step_queue.len(), 2);
    assert!(interpret_event(&mut ctx, Event::CancelRecipe(Station(0))));
    assert_eq!(ctx.step_queue.as_slice(), &[other]);
    assert_eq!(ctx.num_steps_per_station, [0]);
}

#[test]
fn touching_pours_collide() {
    let existing = [pour(20, 5, None)];
    assert!(step_has_collisions(&pour(25, 3, None), &existing));
    assert!(step_has_collisions(&pour(17, 3, None), &existing));
    assert!(step_has_collisions(&pour(21, 2, None), &existing));
    assert!(step_has_collisions(&pour(22, 9, None), &existing));
    assert!(!step_has_collisions(&pour(26, 3, None), &existing));
    assert!(!step_has_collisions(&pour(16, 3, None), &existing));
    assert!(!step_has_collisions(&pour(16, 3, None), &[]));
}

#[test]
fn pour_around_another_collides() {
    assert!(step_has_collisions(&pour(10, 20, None), &[pour(15, 5, None)]));
    assert!(step_has_collisions(&pour(10, 30, None), &[pour(20, 5, None)]));
}

#[test]
fn collision_check_ends_at_a_later_pour() {
    let new = pour(10, 5, None);
    assert!(step_has_collisions(&new, &[pour(30, 5, None), pour(12, 5, None)]));
    assert!(!step_has_collisions(&new, &[pour(12, 5, None), pour(30, 5, None)]));
}

#[test]
fn event_out_of_range_is_refused() {
    let mut ctx = context(&[pour(30, 5, None)]);
    assert!(!interpret_event(&mut ctx, Event::CancelRecipe(Station(1))));
    assert!(!interpret_event(&mut ctx, Event::ScheduleScald(Station(1), step(5, None))));
    let attacks = steps(&[step(5, None)]);
    assert!(!interpret_event(&mut ctx, Event::ScheduleAttacks(Station(1), attacks)));
    ctx.num_steps_per_station[0] = usize::MAX;
    assert!(!interpret_event(&mut ctx, Event::ScheduleScald(Station(0), step(5, None))));
    assert_eq!(ctx.step_queue.as_slice(), &[pour(30, 5, None)]);
    assert_eq!(ctx.num_steps_per_station, [usize::MAX]);
}

#[test]
fn full_queue_refuses_pours() {
    let mut queue = vec![];
    for i in 0..10 {
        queue.push(pour(100 - 10 * i, 5, None));
    }
    let mut ctx = context(&queue);
    assert!(!interpret_event(&mut ctx, Event::ScheduleScald(Station(0), step(5, None))));
    let attacks = steps(&[step(5, None)]);
    assert!(!interpret_event(&mut ctx, Event::ScheduleAttacks(Station(0), attacks)));
    assert_eq!(ctx.step_queue.as_slice(), queue.as_slice());
    assert_eq!(ctx.num_steps_per_station, [10]);
}

#[test]
fn end_of_the_clock_refuses_pours() {
    let mut last = pour(30, 5, None);
    last.instant = Instant { ticks: u64::MAX - 5 * SECOND };
    let mut ctx = context(&[last]);
    assert!(!interpret_event(&mut ctx, Event::ScheduleScald(Station(0), step(0, None))));
    let attacks = steps(&[step(0, None)]);
    assert!(!interpret_event(&mut ctx, Event::ScheduleAttacks(Station(0), attacks)));
    assert_eq!(ctx.step_queue.as_slice(), &[last]);

    let mut ctx = Context::new();
    let endless = Step { duration: Duration { ticks: u64::MAX }, interval: None };
    let attacks = steps(&[step(1, None), endless]);
    assert!(!interpret_event(&mut ctx, Event::ScheduleAttacks(Station(0), attacks)));
    assert!(ctx.step_queue.is_empty());
    assert_eq!(ctx.num_steps_per_station, [0]);
}

#[test]
fn events_take_the_time_of_the_clock() {
    let mut ctx = Context::new();
    let before = Instant::now();
    assert!(interpret_event(&mut ctx, Event::ScheduleScald(Station(0), step(5, None))));
    let after = Instant::now();
    let begin = ctx.step_queue[0].instant.ticks;
    assert!(before.ticks + SECOND <= begin);
    assert!(begin <= after.ticks + SECOND);
}

#[test]
fn late_pour_moves_the_rest() {
    let mut ctx = context(&[pour(40, 5, None), pour(30, 5, None)]);
    begin_step_at(&mut ctx, &pour(20, 5, None), at(23));
    assert_eq!(ctx.step_queue.as_slice(), &[pour(43, 5, None), pour(33, 5, None)]);
    assert_eq!(ctx.num_steps_per_station, [2]);
}

#[test]
fn pour_in_time_moves_nothing() {
    let queue = [pour(40, 5, None), pour(30, 5, None)];
    let mut ctx = context(&queue);
    begin_step_at(&mut ctx, &pour(20, 5, None), at(20));
    assert_eq!(ctx.step_queue.as_slice(), &queue);
    begin_step_at(&mut ctx, &pour(20, 5, None), at(17));
    assert_eq!(ctx.step_queue.as_slice(), &queue);
}

#[test]
fn pour_that_cannot_move_is_refused() {
    let mut last = pour(30, 5, None);
    last.instant = Instant { ticks: u64::MAX };
    let mut ctx = context(&[last]);
    let mut info = pour(0, 5, None);
    info.instant = Instant { ticks: Instant::now().ticks };
    let mut spent: u64 = 0;
    while Instant::now().ticks <= info.instant.ticks {
        spent += 1;
    }
    assert!(!begin_step(&mut ctx, &info), "moved after {} readings", spent);
    assert_eq!(ctx.step_queue.as_slice(), &[last]);
    assert!(begin_step(&mut ctx, &last));
    assert_eq!(ctx.step_queue.as_slice(), &[last]);
}

#[test]
fn stage_is_over_when_nothing_is_counted() {
    let mut ctx = context(&[pour(30, 5, None)]);
    assert!(!end_step(&ctx, &pour(20, 5, None)));
    assert_eq!(take_next_step(&mut ctx), Some(pour(30, 5, None)));
    assert!(end_step(&ctx, &pour(20, 5, None)));
    assert_eq!(take_next_step(&mut ctx), None);
}

#[test]
fn turns_from_schedule_to_report() {
    let mut ctx = Context::new();
    let (phase, action) = next_move(&mut ctx);
    assert_eq!((phase, action), (Phase::Idle, Action::Receive));

    let attacks = steps(&[step(10, Some(5)), step(5, None)]);
    let event = Event::ScheduleAttacks(Station(0), attacks);
    let (phase, action) =
        main_task_turn_at(&mut ctx, phase, Input::Received(event), at(10)).unwrap();
    assert_eq!(phase, Phase::Waiting(pour(11, 10, Some(5))));
    assert_eq!(action, Action::ReceiveUntil(at(10)));
    assert_eq!(ctx.step_queue.as_slice(), &[pour(26, 5, None)]);
    assert_eq!(ctx.num_steps_per_station, [1]);

    let (phase, action) = main_task_turn_at(&mut ctx, phase, Input::Elapsed, at(10)).unwrap();
    assert_eq!(phase, Phase::Travelling(pour(11, 10, Some(5))));
    assert_eq!(action, Action::SleepUntil(at(11)));

    let (phase, action) = main_task_turn_at(&mut ctx, phase, Input::Elapsed, at(13)).unwrap();
    assert_eq!(phase, Phase::Pouring(pour(11, 10, Some(5))));
    assert_eq!(action, Action::SleepFor(Duration { ticks: 10 * SECOND }));
    assert_eq!(ctx.step_queue.as_slice(), &[pour(28, 5, None)]);

    let (phase, action) = main_task_turn_at(&mut ctx, phase, Input::Elapsed, at(23)).unwrap();
    assert_eq!(phase, Phase::Waiting(pour(28, 5, None)));
    assert_eq!(action, Action::ReceiveUntil(at(27)));
    assert_eq!(ctx.num_steps_per_station, [0]);

    let (phase, _) = main_task_turn_at(&mut ctx, phase, Input::Elapsed, at(27)).unwrap();
    let (phase, _) = main_task_turn_at(&mut ctx, phase, Input::Elapsed, at(28)).unwrap();
    let (phase, action) = main_task_turn_at(&mut ctx, phase, Input::Elapsed, at(33)).unwrap();
    assert_eq!(phase, Phase::Reporting(Station(0)));
    assert_eq!(action, Action::ReportStageOver(Station(0)));

    let (phase, action) = main_task_turn_at(&mut ctx, phase, Input::Delivered, at(33)).unwrap();
    assert_eq!((phase, action), (Phase::Idle, Action::Receive));
}

#[test]
fn turns_from_scald_to_report() {
    let mut ctx = Context::new();
    let (phase, _) = next_move(&mut ctx);
    let event = Event::ScheduleScald(Station(0), step(5, None));
    let (phase, action) =
        main_task_turn_at(&mut ctx, phase, Input::Received(event), at(10)).unwrap();
    assert_eq!(phase, Phase::Waiting(pour(11, 5, None)));
    assert_eq!(action, Action::ReceiveUntil(at(10)));

    let (phase, action) = main_task_turn_at(&mut ctx, phase, Input::Elapsed, at(10)).unwrap();
    assert_eq!(phase, Phase::Travelling(pour(11, 5, None)));
    assert_eq!(action, Action::SleepUntil(at(11)));

    let (phase, action) = main_task_turn_at(&mut ctx, phase, Input::Elapsed, at(14)).unwrap();
    assert_eq!(phase, Phase::Pouring(pour(11, 5, None)));
    assert_eq!(action, Action::SleepFor(Duration { ticks: 5 * SECOND }));

    let (phase, action) = main_task_turn_at(&mut ctx, phase, Input::Elapsed, at(19)).unwrap();
    assert_eq!(phase, Phase::Reporting(Station(0)));
    assert_eq!(action, Action::ReportStageOver(Station(0)));

    let (phase, action) = main_task_turn_at(&mut ctx, phase, Input::Delivered, at(19)).unwrap();
    assert_eq!((phase, action), (Phase::Idle, Action::Receive));
    assert!(ctx.step_queue.is_empty());
    assert_eq!(ctx.num_steps_per_station, [0]);
}

#[test]
fn cancel_while_waiting_drops_the_pour() {
    let mut ctx = context(&[pour(40, 5, None)]);
    let phase = Phase::Waiting(pour(30, 5, None));
    let input = Input::Received(Event::CancelRecipe(Station(0)));
    let turn = main_task_turn(&mut ctx, phase, input);
    assert_eq!(turn, Some((Phase::Idle, Action::Receive)));
    assert!(ctx.step_queue.is_empty());
    assert_eq!(ctx.num_steps_per_station, [0]);
}

#[test]
fn other_events_while_waiting_keep_the_pour() {
    let mut ctx = context(&[pour(40, 5, None)]);
    let phase = Phase::Waiting(pour(30, 5, None));
    let input = Input::Received(Event::ScheduleScald(Station(0), step(2, None)));
    let turn = main_task_turn(&mut ctx, phase, input);
    assert_eq!(turn, Some((phase, Action::ReceiveUntil(at(29)))));
    assert_eq!(ctx.step_queue.as_slice(), &[pour(46, 2, None), pour(40, 5, None)]);
}

#[test]
fn turn_that_cannot_be_taken_changes_nothing() {
    let mut ctx = context(&[pour(40, 5, None)]);
    let input = Input::Received(Event::CancelRecipe(Station(3)));
    assert_eq!(main_task_turn(&mut ctx, Phase::Waiting(pour(30, 5, None)), input), None);
    assert_eq!(ctx.step_queue.as_slice(), &[pour(40, 5, None)]);
}
