use coffee_stations::leds;
use coffee_stations::stations::Status;

#[test]
fn stages_follow_in_order() {
    let mut status = Status::WaitingToScald;
    let mut seen = vec![status];
    while status != Status::Finished {
        status.advance();
        seen.push(status);
    }
    assert_eq!(
        seen,
        vec![
            Status::WaitingToScald,
            Status::Scalding,
            Status::WaitingToAttack,
            Status::Attacking,
            Status::Finalizing,
            Status::Finished,
        ]
    );
}

#[test]
fn light_follows_station() {
    assert_eq!(Status::Free.led_status(), leds::Status::Off);
    assert_eq!(Status::WaitingToScald.led_status(), leds::Status::Blinking);
    assert_eq!(Status::Scalding.led_status(), leds::Status::On);
    assert_eq!(Status::WaitingToAttack.led_status(), leds::Status::Blinking);
    assert_eq!(Status::Attacking.led_status(), leds::Status::On);
    assert_eq!(Status::Finalizing.led_status(), leds::Status::On);
    assert_eq!(Status::Finished.led_status(), leds::Status::Blinking);
}
