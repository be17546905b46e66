//! The schedule of a scan run: what the configuration asks for, and what the
//! driver does next.
//!
//! The driver itself, which sleeps and scans, is not here. It asks `advance`
//! what to do, does it, and asks again, until it is told to halt.

use vstd::prelude::*;

verus! {

/// The scan lasts this many seconds where the configuration does not say.
pub const DEFAULT_SCAN_DURATION: u64 = 60;

/// A device that stays unseen for more than this many seconds has left,
/// where the configuration does not say.
pub const DEFAULT_SILENCE_THRESHOLD: u64 = 5;

/// The driver rests this many seconds between two scans.
pub const SAMPLING_INTERVAL: u64 = 5;

/// What went wrong in a run.
#[derive(Debug, Clone, Copy, PartialEq, Eq)]
pub enum RunError {
    /// The scan could not be made.
    ScanUnavailable,
    /// The configuration could not be read, or asks for what cannot be done.
    ConfigInvalid,
    /// The report could not be written.
    PersistenceFailure,
}

/// The configuration of a run, as it is read.
#[derive(Debug, Clone, Copy, PartialEq, Eq)]
pub struct Config {
    pub instant_scan: bool,
    pub start_after_duration: Option<u64>,
    pub scan_duration: Option<u64>,
    pub silence_threshold: Option<u64>,
}

/// What a run is to do.
#[derive(Debug, Clone, Copy, PartialEq, Eq)]
pub enum Plan {
    /// One scan, reported at once.
    Instant,
    /// After `start_after` seconds, scans over `scan_duration` seconds, with
    /// presence tracked under the silence threshold `threshold`.
    Delayed { start_after: u64, scan_duration: u64, threshold: u64 },
}

/// The value of an optional setting, or its default.
pub open spec fn or_default(setting: Option<u64>, default: u64) -> u64 {
    match setting {
        Some(value) => value,
        None => default,
    }
}

/// The plan that a configuration asks for. An instant scan needs no other
/// setting. A delayed scan starts at once and lasts sixty seconds unless the
/// configuration says otherwise; its silence threshold is five seconds unless
/// the configuration says otherwise, and may not be zero.
pub open spec fn plan_of(config: Config) -> Result<Plan, RunError> {
    if config.instant_scan {
        Ok(Plan::Instant)
    } else if config.silence_threshold == Some(0u64) {
        Err(RunError::ConfigInvalid)
    } else {
        Ok(
            Plan::Delayed {
                start_after: or_default(config.start_after_duration, 0),
                scan_duration: or_default(config.scan_duration, DEFAULT_SCAN_DURATION),
                threshold: or_default(config.silence_threshold, DEFAULT_SILENCE_THRESHOLD),
            },
        )
    }
}

/// Works out the plan of a run from its configuration.
pub fn plan(config: &Config) -> (outcome: Result<Plan, RunError>)
    ensures
        outcome == plan_of(*config),
        outcome matches Ok(Plan::Delayed { threshold, .. }) ==> threshold > 0,
{
    if config.instant_scan {
        return Ok(Plan::Instant);
    }
    let threshold = match config.silence_threshold {
        Some(value) => value,
        None => DEFAULT_SILENCE_THRESHOLD,
    };
    if threshold == 0 {
        return Err(RunError::ConfigInvalid);
    }
    let start_after = match config.start_after_duration {
        Some(value) => value,
        None => 0,
    };
    let scan_duration = match config.scan_duration {
        Some(value) => value,
        None => DEFAULT_SCAN_DURATION,
    };
    Ok(Plan::Delayed { start_after, scan_duration, threshold })
}

/// Where a delayed run stands.
#[derive(Debug, Clone, Copy, PartialEq, Eq)]
pub enum Phase {
    /// Waiting for the start, with this many seconds to go.
    Countdown { remaining: u64 },
    /// About to look at the time and scan, or finish.
    Sampling,
    /// A scan has been made; a rest is due.
    Resting,
    /// The report has been asked for.
    Finished,
}

/// What the driver is to do next.
#[derive(Debug, Clone, Copy, PartialEq, Eq)]
pub enum Action {
    /// Say that the scan starts in `seconds_left` seconds, and wait one.
    Announce { seconds_left: u64 },
    /// Say that the scan starts, and start the clock of the run.
    Begin,
    /// Scan, and hand the snapshot to the tracker.
    Scan,
    /// Wait `seconds` seconds.
    Rest { seconds: u64 },
    /// Close the open spans and write the report.
    Finish,
    /// Nothing is left to do.
    Halt,
}

/// The phase in which a delayed run starts.
pub open spec fn start_of(start_after: u64) -> Phase {
    Phase::Countdown { remaining: start_after }
}

/// The next phase and the action to take, `elapsed` seconds after the clock
/// of the run was started, in a run that scans over `scan_duration` seconds.
///
/// The countdown announces each second that is left, from the most to one,
/// and then begins. From then on the run scans and rests in turn for as long
/// as less than `scan_duration` seconds have gone by when a scan is due; then
/// it finishes, once, and halts.
pub open spec fn step(phase: Phase, elapsed: u64, scan_duration: u64) -> (Phase, Action) {
    match phase {
        Phase::Countdown { remaining } => if remaining > 0 {
            (
                Phase::Countdown { remaining: (remaining - 1) as u64 },
                Action::Announce { seconds_left: remaining },
            )
        } else {
            (Phase::Sampling, Action::Begin)
        },
        Phase::Sampling => if elapsed < scan_duration {
            (Phase::Resting, Action::Scan)
        } else {
            (Phase::Finished, Action::Finish)
        },
        Phase::Resting => (Phase::Sampling, Action::Rest { seconds: SAMPLING_INTERVAL }),
        Phase::Finished => (Phase::Finished, Action::Halt),
    }
}

/// The next phase and the action to take when the run is called off early:
/// a run that has not finished finishes now, so that what was tracked is
/// reported; one that has finished halts.
pub open spec fn stop(phase: Phase) -> (Phase, Action) {
    match phase {
        Phase::Finished => (Phase::Finished, Action::Halt),
        _ => (Phase::Finished, Action::Finish),
    }
}

/// The phase in which a delayed run starts.
pub fn start(start_after: u64) -> (phase: Phase)
    ensures
        phase == start_of(start_after),
{
    Phase::Countdown { remaining: start_after }
}

/// Decides what the driver does next: see `step`.
pub fn advance(phase: Phase, elapsed: u64, scan_duration: u64) -> (next: (Phase, Action))
    ensures
        next == step(phase, elapsed, scan_duration),
{
    match phase {
        Phase::Countdown { remaining } => {
            if remaining > 0 {
                (
                    Phase::Countdown { remaining: remaining - 1 },
                    Action::Announce { seconds_left: remaining },
                )
            } else {
                (Phase::Sampling, Action::Begin)
            }
        },
        Phase::Sampling => {
            if elapsed < scan_duration {
                (Phase::Resting, Action::Scan)
            } else {
                (Phase::Finished, Action::Finish)
            }
        },
        Phase::Resting => (Phase::Sampling, Action::Rest { seconds: SAMPLING_INTERVAL }),
        Phase::Finished => (Phase::Finished, Action::Halt),
    }
}

/// Decides what the driver does when the run is called off: see `stop`.
pub fn cancel(phase: Phase) -> (next: (Phase, Action))
    ensures
        next == stop(phase),
{
    match phase {
        Phase::Finished => (Phase::Finished, Action::Halt),
        _ => (Phase::Finished, Action::Finish),
    }
}

/// The phase after `n` steps from `phase`, all taken `elapsed` seconds into
/// the run.
pub open spec fn after_steps(phase: Phase, elapsed: u64, scan_duration: u64, n: nat) -> Phase
    decreases n,
{
    if n == 0 {
        phase
    } else {
        step(after_steps(phase, elapsed, scan_duration, (n - 1) as nat), elapsed, scan_duration).0
    }
}

/// The countdown takes as many announcements as it has seconds, each naming
/// the seconds that are left, and then begins.
pub proof fn lemma_countdown(start_after: u64, elapsed: u64, scan_duration: u64, n: nat)
    requires
        n <= start_after,
    ensures
        after_steps(start_of(start_after), elapsed, scan_duration, n) == (Phase::Countdown {
            remaining: (start_after - n) as u64,
        }),
        n < start_after ==> step(
            after_steps(start_of(start_after), elapsed, scan_duration, n),
            elapsed,
            scan_duration,
        ).1 == (Action::Announce { seconds_left: (start_after - n) as u64 }),
        n == start_after ==> step(
            after_steps(start_of(start_after), elapsed, scan_duration, n),
            elapsed,
            scan_duration,
        ) == (Phase::Sampling, Action::Begin),
    decreases n,
{
    if n > 0 {
        lemma_countdown(start_after, elapsed, scan_duration, (n - 1) as nat);
    }
}

/// The report is asked for once: a run that is stepped or called off asks
/// for it exactly when it enters its last phase, and from there it only
/// halts.
pub proof fn lemma_finishes_once(phase: Phase, elapsed: u64, scan_duration: u64)
    ensures
        (step(phase, elapsed, scan_duration).1 == Action::Finish) == (phase != Phase::Finished
            && step(phase, elapsed, scan_duration).0 == Phase::Finished),
        (stop(phase).1 == Action::Finish) == (phase != Phase::Finished),
        stop(phase).0 == Phase::Finished,
        step(Phase::Finished, elapsed, scan_duration) == (Phase::Finished, Action::Halt),
        stop(Phase::Finished) == (Phase::Finished, Action::Halt),
{
}

} // verus!
