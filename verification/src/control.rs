//! The decisions of the control loop. The caller reads the probe, hands the
//! reading in, performs the action that comes back, and waits.

use vstd::prelude::*;
use crate::config::{Config, ConfigError};
use crate::table::{decide, speeds_in_range, Speed, SpeedConfig, Temp, FULL_SPEED};

verus! {

/// What counts as applied before anything was written: no duty cycle.
pub const NOTHING_APPLIED: u8 = 255;

/// The seconds between two readings where the configuration names none.
pub const DEFAULT_POLL_DELAY: u64 = 30;

/// What the loop remembers from one cycle to the next.
#[derive(Debug, Clone, Copy, PartialEq, Eq, Structural)]
pub struct LoopState {
    /// The speed last handed to the bus.
    pub last_applied: Speed,
}

/// How a run begins.
#[derive(Debug, Clone, Copy, PartialEq, Eq, Structural)]
pub enum Start {
    /// Write this duty cycle once and return: no reading is taken.
    WriteOnce(u8),
    /// Poll, beginning in this state.
    Poll(LoopState),
}

/// What to do with one probe result before waiting for the next.
#[derive(Debug, Clone, Copy, PartialEq, Eq, Structural)]
pub enum Action {
    /// Write this speed to the bus.
    Write(Speed),
    /// The speed is the one last applied: write nothing.
    Skip,
    /// The probe failed: write nothing and try again after the wait.
    ProbeFailed(ConfigError),
}

/// The state before the first cycle.
pub open spec fn initial_state() -> LoopState {
    LoopState { last_applied: Speed(NOTHING_APPLIED) }
}

/// How a run with these options begins.
pub open spec fn start_of(force_speed: Option<u8>) -> Start {
    match force_speed {
        Some(speed) => Start::WriteOnce(speed),
        None => Start::Poll(initial_state()),
    }
}

/// The state after a probe result, and what to do: a reading whose speed
/// differs from the one last applied is written and becomes the one last
/// applied, whether or not the bus then takes the write; any other result
/// changes nothing.
pub open spec fn next(
    values: Seq<SpeedConfig>,
    state: LoopState,
    probe: Result<Temp, ConfigError>,
) -> (LoopState, Action) {
    match probe {
        Err(e) => (state, Action::ProbeFailed(e)),
        Ok(temp) => {
            let speed = decide(values, temp);
            if speed != state.last_applied {
                (LoopState { last_applied: speed }, Action::Write(speed))
            } else {
                (state, Action::Skip)
            }
        },
    }
}

/// The speeds written, in order, over a run of probe results.
pub open spec fn writes(
    values: Seq<SpeedConfig>,
    state: LoopState,
    probes: Seq<Result<Temp, ConfigError>>,
) -> Seq<Speed>
    decreases probes.len(),
{
    if probes.len() == 0 {
        Seq::empty()
    } else {
        let (after, action) = next(values, state, probes[0]);
        let later = writes(values, after, probes.skip(1));
        match action {
            Action::Write(speed) => seq![speed] + later,
            _ => later,
        }
    }
}

/// No two neighbours in `speeds` are equal.
pub open spec fn no_repeat(speeds: Seq<Speed>) -> bool {
    forall|i: int, j: int| 0 <= i && j == i + 1 && j < speeds.len() ==> speeds[i] != speeds[j]
}

/// The seconds to wait between two readings.
pub fn poll_delay(config: &Config) -> (secs: u64)
    ensures
        secs == match config.delay {
            Some(d) => d,
            None => DEFAULT_POLL_DELAY,
        },
{
    match config.delay {
        Some(d) => d,
        None => DEFAULT_POLL_DELAY,
    }
}

/// How the run begins: with a forced speed, by one write and nothing more;
/// without one, by polling from the initial state.
pub fn start(config: &Config) -> (s: Start)
    ensures
        s == start_of(config.force_speed),
{
    match config.force_speed {
        Some(speed) => Start::WriteOnce(speed),
        None => Start::Poll(LoopState { last_applied: Speed(NOTHING_APPLIED) }),
    }
}

/// One cycle: takes the probe's result, returns the next state and the action.
pub fn step(config: &Config, state: LoopState, probe: Result<Temp, ConfigError>) -> (r: (
    LoopState,
    Action,
))
    ensures
        r == next(config.values@, state, probe),
{
    match probe {
        Err(e) => (state, Action::ProbeFailed(e)),
        Ok(temp) => {
            let speed = config.temp_speed(temp);
            if speed.0 != state.last_applied.0 {
                (LoopState { last_applied: speed }, Action::Write(speed))
            } else {
                (state, Action::Skip)
            }
        },
    }
}

/// The same reading twice in a row is never written twice: whatever the first
/// cycle did, the second one skips.
pub proof fn law_same_reading_writes_once(values: Seq<SpeedConfig>, state: LoopState, temp: Temp)
    ensures
        next(values, next(values, state, Ok(temp)).0, Ok(temp)) == (
            next(values, state, Ok(temp)).0,
            Action::Skip,
        ),
        writes(values, state, seq![Ok(temp), Ok(temp)]).len() <= 1,
{
    let probes: Seq<Result<Temp, ConfigError>> = seq![Ok(temp), Ok(temp)];
    let after = next(values, state, Ok(temp)).0;
    assert(probes.skip(1) =~= seq![Ok(temp)]);
    assert(probes.skip(1).skip(1) =~= Seq::empty());
    assert(writes(values, after, probes.skip(1).skip(1)) =~= Seq::empty());
    assert(writes(values, after, probes.skip(1)) =~= Seq::empty());
}

/// With a table whose speeds are duty cycles, the first reading of a run is
/// always written.
pub proof fn law_first_reading_written(values: Seq<SpeedConfig>, temp: Temp)
    requires
        speeds_in_range(values),
    ensures
        next(values, initial_state(), Ok(temp)) == (
            LoopState { last_applied: decide(values, temp) },
            Action::Write(decide(values, temp)),
        ),
{
    let k = crate::table::tail_start(values, temp.0 as int);
    crate::table::lemma_tail_start(values, temp.0 as int);
    if k < values.len() {
        assert(values[k].speed.0 <= FULL_SPEED);
    }
}

/// A failed probe changes nothing and writes nothing.
pub proof fn law_probe_failure_is_swallowed(
    values: Seq<SpeedConfig>,
    state: LoopState,
    error: ConfigError,
    probes: Seq<Result<Temp, ConfigError>>,
)
    ensures
        next(values, state, Err(error)) == (state, Action::ProbeFailed(error)),
        writes(values, state, seq![Err(error)] + probes) == writes(values, state, probes),
{
    let all = seq![Err::<Temp, ConfigError>(error)] + probes;
    assert(all.skip(1) =~= probes);
    assert(all[0] == Err::<Temp, ConfigError>(error));
}

/// No speed is written twice in a row, and the first speed written differs
/// from the one that the run began with.
pub proof fn law_writes_never_repeat(
    values: Seq<SpeedConfig>,
    state: LoopState,
    probes: Seq<Result<Temp, ConfigError>>,
)
    ensures
        writes(values, state, probes).len() > 0 ==> writes(values, state, probes)[0]
            != state.last_applied,
        no_repeat(writes(values, state, probes)),
    decreases probes.len(),
{
    if probes.len() > 0 {
        let (after, action) = next(values, state, probes[0]);
        let later = writes(values, after, probes.skip(1));
        law_writes_never_repeat(values, after, probes.skip(1));
        let all = writes(values, state, probes);
        match action {
            Action::Write(speed) => {
                assert(all =~= seq![speed] + later);
                assert forall|i: int, j: int| 0 <= i && j == i + 1 && j < all.len() implies all[i]
                    != all[j] by {
                    if i > 0 {
                        assert(all[i] == later[i - 1]);
                        assert(all[j] == later[j - 1]);
                    } else {
                        assert(all[1] == later[0]);
                    }
                }
            },
            _ => {},
        }
    }
}

} // verus!
