use coffee_stations::buttons::{main_task_turn, Input, Phase};
use coffee_stations::recipes::controller::Event;
use coffee_stations::time::Duration;

#[test]
fn released_button_is_a_press() {
    let (phase, event) = main_task_turn(Phase::Up, Input::RisingEdge);
    assert_eq!(phase, Phase::Down);
    assert!(event.is_none());
    let (phase, event) = main_task_turn(phase, Input::FallingEdge);
    assert_eq!(phase, Phase::Settling);
    assert!(matches!(event, Some(Event::ButtonPress)));
    let (phase, event) = main_task_turn(phase, Input::Elapsed);
    assert_eq!(phase, Phase::Up);
    assert!(event.is_none());
}

#[test]
fn held_button_cancels() {
    let (phase, event) = main_task_turn(Phase::Down, Input::Elapsed);
    assert_eq!(phase, Phase::Settling);
    assert!(matches!(event, Some(Event::CancelRecipe)));
}

#[test]
fn times_of_the_phases() {
    assert_eq!(Phase::Up.timeout(), None);
    assert_eq!(Phase::Down.timeout(), Some(Duration { ticks: 3_000_000 }));
    assert_eq!(Phase::Settling.timeout(), Some(Duration { ticks: 100_000 }));
}
