use std::time::Duration;

use ratelimitly::{ConfigurationError, Error, RequestPolicy, Schedule};

fn reason(error: Error) -> ConfigurationError {
    match error {
        Error::InvalidConfiguration(reason) => reason,
        other => panic!("another error: {other:?}"),
    }
}

#[test]
fn default_horizon_matches_other_clients() {
    assert_eq!(
        RequestPolicy::default().horizon(),
        Duration::from_millis(60)
    );
}

#[test]
fn schedules_cap_and_final_wait_can_be_disabled() {
    assert_eq!(Schedule::linear(1, 2, 6).units(3), Ok(6));
    assert_eq!(Schedule::exponential(1, 2, 8).units(3), Ok(8));
    let policy = RequestPolicy::builder()
        .unit(Duration::from_millis(25))
        .replays(3)
        .replay_gap(Schedule::fixed(1))
        .final_receive_units(0)
        .completion_delivery(false)
        .build()
        .unwrap();
    assert_eq!(policy.horizon(), Duration::from_millis(100));
}

#[test]
fn rounds_grow_as_their_schedule_says() {
    let linear = Schedule::linear(2, 3, 10);
    let exponential = Schedule::exponential(3, 4, 100);
    let units = |schedule: Schedule| -> Vec<u32> {
        (0..5).map(|round| schedule.units(round).unwrap()).collect()
    };
    assert_eq!(units(linear), vec![2, 5, 8, 10, 10]);
    assert_eq!(units(exponential), vec![3, 12, 48, 100, 100]);
    assert_eq!(units(Schedule::fixed(7)), vec![7; 5]);
    assert_eq!(Schedule::linear(1, u32::MAX, u32::MAX).units(u32::MAX), Ok(u32::MAX));
    assert_eq!(Schedule::exponential(1, 2, u32::MAX).units(u32::MAX), Ok(u32::MAX));
}

#[test]
fn malformed_schedules_are_refused() {
    for schedule in [
        Schedule::fixed(0),
        Schedule::linear(0, 1, 2),
        Schedule::linear(3, 1, 2),
        Schedule::linear(1, 0, 2),
        Schedule::exponential(0, 2, 2),
        Schedule::exponential(3, 2, 2),
        Schedule::exponential(1, 1, 2),
    ] {
        assert_eq!(schedule.units(0), Err(ConfigurationError::InvalidRequestPolicy));
        let refused = RequestPolicy::builder().replay_gap(schedule).build().unwrap_err();
        assert_eq!(reason(refused), ConfigurationError::InvalidRequestPolicy);
    }
}

#[test]
fn horizons_add_up_all_rounds_and_the_final_phase() {
    let policy = RequestPolicy::builder()
        .unit(Duration::from_millis(10))
        .replays(2)
        .replay_gap(Schedule::exponential(1, 2, 64))
        .final_receive_units(5)
        .build()
        .unwrap();
    assert_eq!(policy.horizon(), Duration::from_millis(10 * (1 + 2 + 4 + 5)));
    assert_eq!(policy.horizon_ms(120), Ok(120));
    assert_eq!(
        policy.horizon_ms(119),
        Err(ConfigurationError::RequestPolicyExceedsApiKey)
    );
    assert_eq!(policy.horizon_ms(0), Err(ConfigurationError::InvalidRequestPolicy));
    assert_eq!(policy.unit_ms(), 10);
    assert_eq!(policy.replay_count(), 2);
    assert_eq!(policy.final_receive_units(), 5);
    assert!(policy.completion_delivery());
}

#[test]
fn units_must_be_whole_milliseconds() {
    for unit in [
        Duration::ZERO,
        Duration::from_micros(1_500),
        Duration::from_nanos(1),
        Duration::MAX,
    ] {
        let refused = RequestPolicy::builder().unit(unit).build().unwrap_err();
        assert_eq!(
            reason(refused),
            ConfigurationError::InvalidDuration {
                field: "request policy unit"
            }
        );
    }
}

#[test]
fn horizons_beyond_the_wire_are_refused() {
    for builder in [
        RequestPolicy::builder().replays(65_536),
        RequestPolicy::builder().unit(Duration::from_millis(u64::from(u32::MAX))),
        RequestPolicy::builder().unit(Duration::from_secs(1_000_000_000)),
    ] {
        assert_eq!(
            reason(builder.build().unwrap_err()),
            ConfigurationError::InvalidRequestPolicy
        );
    }
    let longest = RequestPolicy::builder()
        .unit(Duration::from_millis(1))
        .replays(0)
        .replay_gap(Schedule::fixed(1))
        .final_receive_units(u32::MAX - 1)
        .build()
        .unwrap();
    assert_eq!(longest.horizon(), Duration::from_millis(u64::from(u32::MAX)));
}
