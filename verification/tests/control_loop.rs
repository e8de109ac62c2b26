use argonfand::config::{Config, ConfigError};
use argonfand::control::{poll_delay, start, step, Action, LoopState, Start, DEFAULT_POLL_DELAY, NOTHING_APPLIED};
use argonfand::table::{Speed, Temp};

fn poll_state(config: &Config) -> LoopState {
    match start(config) {
        Start::Poll(state) => state,
        Start::WriteOnce(_) => panic!("a forced speed was not expected"),
    }
}

#[test]
fn forced_speed_is_written_once_and_nothing_is_sensed() {
    let mut config = Config::generated();
    config.force_speed = Some(42);
    assert_eq!(start(&config), Start::WriteOnce(42));
    config.force_speed = Some(0);
    assert_eq!(start(&config), Start::WriteOnce(0));
}

#[test]
fn without_forced_speed_the_loop_polls_from_the_sentinel() {
    let config = Config::generated();
    assert_eq!(start(&config), Start::Poll(LoopState { last_applied: Speed(255) }));
    assert_eq!(NOTHING_APPLIED, 255);
}

#[test]
fn first_reading_is_always_written() {
    let config = Config::generated();
    let state = poll_state(&config);
    assert_eq!(step(&config, state, Ok(Temp(30))), (LoopState { last_applied: Speed(0) }, Action::Write(Speed(0))));
    assert_eq!(step(&config, state, Ok(Temp(90))), (LoopState { last_applied: Speed(0) }, Action::Write(Speed(0))));
    assert_eq!(step(&config, state, Ok(Temp(60))), (LoopState { last_applied: Speed(80) }, Action::Write(Speed(80))));
}

#[test]
fn first_reading_of_a_table_read_from_text_is_written() {
    let config = Config::from_text("40=100\n60=0\n").unwrap();
    let state = poll_state(&config);
    for t in [0u8, 40, 41, 60, 61, 255] {
        let (_, action) = step(&config, state, Ok(Temp(t)));
        assert_eq!(action, Action::Write(config.temp_speed(Temp(t))));
    }
}

#[test]
fn same_reading_twice_writes_once() {
    let config = Config::generated();
    let state = poll_state(&config);
    let (state, first) = step(&config, state, Ok(Temp(60)));
    assert_eq!(first, Action::Write(Speed(80)));
    let (state, second) = step(&config, state, Ok(Temp(60)));
    assert_eq!(second, Action::Skip);
    assert_eq!(state, LoopState { last_applied: Speed(80) });
}

#[test]
fn readings_of_one_tier_write_once() {
    let config = Config::generated();
    let mut state = poll_state(&config);
    let mut writes = Vec::new();
    for t in [56u8, 60, 65, 57, 66, 80, 70, 54, 54] {
        let (after, action) = step(&config, state, Ok(Temp(t)));
        state = after;
        if let Action::Write(speed) = action {
            writes.push(speed.into_inner());
        }
    }
    assert_eq!(writes, vec![80, 100, 10]);
}

#[test]
fn probe_failure_changes_nothing() {
    let config = Config::generated();
    let state = LoopState { last_applied: Speed(50) };
    assert_eq!(
        step(&config, state, Err(ConfigError::MeasureTempOutput)),
        (state, Action::ProbeFailed(ConfigError::MeasureTempOutput))
    );
    assert_eq!(
        step(&config, state, Err(ConfigError::TempNotNumber)),
        (state, Action::ProbeFailed(ConfigError::TempNotNumber))
    );
    assert_eq!(step(&config, state, Ok(Temp(55))), (state, Action::Skip));
}

#[test]
fn poll_delay_defaults_to_thirty() {
    let mut config = Config::default();
    assert_eq!(poll_delay(&config), 30);
    assert_eq!(DEFAULT_POLL_DELAY, 30);
    config.delay = Some(5);
    assert_eq!(poll_delay(&config), 5);
    assert_eq!(poll_delay(&Config::generated()), 1000);
}
