use wifi_presence::schedule::{
    advance, cancel, plan, start, Action, Config, Phase, Plan, RunError, DEFAULT_SCAN_DURATION,
    DEFAULT_SILENCE_THRESHOLD, SAMPLING_INTERVAL,
};

fn config(instant: bool, after: Option<u64>, duration: Option<u64>, threshold: Option<u64>) -> Config {
    Config {
        instant_scan: instant,
        start_after_duration: after,
        scan_duration: duration,
        silence_threshold: threshold,
    }
}

#[test]
fn constants() {
    assert_eq!(DEFAULT_SCAN_DURATION, 60);
    assert_eq!(DEFAULT_SILENCE_THRESHOLD, 5);
    assert_eq!(SAMPLING_INTERVAL, 5);
}

#[test]
fn instant_plan_needs_nothing_else() {
    assert_eq!(plan(&config(true, None, None, None)), Ok(Plan::Instant));
    assert_eq!(plan(&config(true, Some(3), Some(9), Some(0))), Ok(Plan::Instant));
}

#[test]
fn delayed_plan_takes_defaults() {
    assert_eq!(
        plan(&config(false, None, None, None)),
        Ok(Plan::Delayed { start_after: 0, scan_duration: 60, threshold: 5 })
    );
}

#[test]
fn delayed_plan_takes_settings() {
    assert_eq!(
        plan(&config(false, Some(3), Some(120), Some(9))),
        Ok(Plan::Delayed { start_after: 3, scan_duration: 120, threshold: 9 })
    );
    assert_eq!(
        plan(&config(false, None, Some(0), None)),
        Ok(Plan::Delayed { start_after: 0, scan_duration: 0, threshold: 5 })
    );
}

#[test]
fn zero_threshold_is_an_invalid_configuration() {
    assert_eq!(plan(&config(false, Some(3), Some(120), Some(0))), Err(RunError::ConfigInvalid));
}

#[test]
fn countdown_announces_each_second_then_begins() {
    let mut phase = start(3);
    let mut actions = Vec::new();
    for _ in 0..4 {
        let (next, action) = advance(phase, 0, 60);
        actions.push(action);
        phase = next;
    }
    assert_eq!(
        actions,
        vec![
            Action::Announce { seconds_left: 3 },
            Action::Announce { seconds_left: 2 },
            Action::Announce { seconds_left: 1 },
            Action::Begin,
        ]
    );
    assert_eq!(phase, Phase::Sampling);
}

#[test]
fn no_countdown_begins_at_once() {
    assert_eq!(advance(start(0), 0, 60), (Phase::Sampling, Action::Begin));
}

#[test]
fn run_scans_and_rests_until_the_time_is_up() {
    // The clock of this run moves five seconds with every rest.
    let mut phase = Phase::Sampling;
    let mut elapsed = 0u64;
    let mut actions = Vec::new();
    loop {
        let (next, action) = advance(phase, elapsed, 12);
        phase = next;
        actions.push(action);
        match action {
            Action::Rest { seconds } => elapsed += seconds,
            Action::Halt => break,
            _ => {}
        }
    }
    assert_eq!(
        actions,
        vec![
            Action::Scan,
            Action::Rest { seconds: 5 },
            Action::Scan,
            Action::Rest { seconds: 5 },
            Action::Scan,
            Action::Rest { seconds: 5 },
            Action::Finish,
            Action::Halt,
        ]
    );
}

#[test]
fn scan_is_due_only_before_the_time_is_up() {
    assert_eq!(advance(Phase::Sampling, 59, 60), (Phase::Resting, Action::Scan));
    assert_eq!(advance(Phase::Sampling, 60, 60), (Phase::Finished, Action::Finish));
    assert_eq!(advance(Phase::Sampling, 0, 0), (Phase::Finished, Action::Finish));
}

#[test]
fn finished_run_halts() {
    assert_eq!(advance(Phase::Finished, 0, 60), (Phase::Finished, Action::Halt));
    assert_eq!(advance(Phase::Finished, 100, 60), (Phase::Finished, Action::Halt));
}

#[test]
fn cancelled_run_finishes_once() {
    for phase in [Phase::Countdown { remaining: 4 }, Phase::Sampling, Phase::Resting] {
        assert_eq!(cancel(phase), (Phase::Finished, Action::Finish));
    }
    assert_eq!(cancel(Phase::Finished), (Phase::Finished, Action::Halt));
}
