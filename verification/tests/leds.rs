use coffee_stations::leds::{Input, Level, Light, Status};
use coffee_stations::time::Duration;

#[test]
fn levels_of_steady_lights() {
    assert_eq!(Status::On.into(), Level::High);
    assert_eq!(Status::Off.into(), Level::Low);
}

#[test]
fn light_starts_off() {
    let mut light = Light::new();
    assert_eq!(light.drive(), None);
    assert_eq!(light, Light { status: Status::Off, level: Level::Low });
}

#[test]
fn blinking_light_alternates() {
    let mut light = Light::new();
    light.handle(Input::Signal(Status::Blinking));
    assert_eq!(light.drive(), Some(Duration { ticks: 500_000 }));
    assert_eq!(light.level, Level::Low);
    light.handle(Input::Elapsed);
    assert_eq!(light.level, Level::High);
    assert_eq!(light.drive(), Some(Duration { ticks: 500_000 }));
    light.handle(Input::Elapsed);
    assert_eq!(light.level, Level::Low);
}

#[test]
fn signal_ends_blinking() {
    let mut light = Light { status: Status::Blinking, level: Level::High };
    light.handle(Input::Signal(Status::Off));
    assert_eq!(light.level, Level::High);
    assert_eq!(light.drive(), None);
    assert_eq!(light.level, Level::Low);
    light.handle(Input::Signal(Status::On));
    assert_eq!(light.drive(), None);
    assert_eq!(light.level, Level::High);
}
