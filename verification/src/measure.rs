//! One measured benchmark run: a fixed number of log calls, timed, with the
//! process's resident memory read before and after.

use vstd::prelude::*;
use crate::logger::LoggerKind;
use crate::target::OutputTarget;

verus! {

/// How many times a run calls the logger.
pub const ITERATIONS: u32 = 100_000;

#[verifier::external_type_specification]
#[verifier::external_body]
pub struct ExInstant(std::time::Instant);

/// `std::time::Instant::now`: the current reading of a monotonic clock.
/// Nothing is claimed of the value.
#[verifier::external_body]
fn clock_now() -> std::time::Instant {
    std::time::Instant::now()
}

/// `std::time::Instant::elapsed`: the time that has passed since `start`.
/// Nothing is claimed of the value, which depends on the clock.
#[verifier::external_body]
fn time_since(start: &std::time::Instant) -> std::time::Duration {
    start.elapsed()
}

/// `memory_stats::memory_stats`, keeping its `physical_mem` field: the
/// resident memory of this process in bytes, or `None` where the platform
/// does not tell. Nothing is claimed of the value, which the machine decides.
#[verifier::external_body]
fn resident_memory() -> Option<usize> {
    match memory_stats::memory_stats() {
        Some(stats) => Some(stats.physical_mem),
        None => None,
    }
}

/// How much the resident memory grew from `before` to `after`: the difference,
/// or nothing where it shrank.
pub fn memory_growth(before: usize, after: usize) -> (grown: usize)
    ensures
        grown == if after >= before {
            (after - before) as usize
        } else {
            0usize
        },
{
    if after >= before {
        after - before
    } else {
        0
    }
}

/// What one run measured, before any conversion to seconds or MiB.
pub struct Measurement {
    pub logger: LoggerKind,
    pub target: OutputTarget,
    pub elapsed: std::time::Duration,
    pub memory_before: usize,
    pub memory_after: usize,
}

impl Measurement {
    /// The growth of resident memory over the run.
    pub fn memory_growth(&self) -> (grown: usize)
        ensures
            grown == if self.memory_after >= self.memory_before {
                (self.memory_after - self.memory_before) as usize
            } else {
                0usize
            },
    {
        memory_growth(self.memory_before, self.memory_after)
    }
}

/// What a run yields once its time is taken and the memory has been read a
/// second time: a measurement of the run, or `None` where the platform did
/// not report the memory after the run.
pub fn finish_measurement(
    logger: LoggerKind,
    target: OutputTarget,
    elapsed: std::time::Duration,
    memory_before: usize,
    memory_after: Option<usize>,
) -> (m: Option<Measurement>)
    ensures
        match memory_after {
            None => m is None,
            Some(after) => m == Some(
                (Measurement { logger, target, elapsed, memory_before, memory_after: after }),
            ),
        },
{
    match memory_after {
        Some(after) => Some(Measurement { logger, target, elapsed, memory_before, memory_after: after }),
        None => None,
    }
}

/// Calls `bench_fn` `ITERATIONS` times and measures the time this takes and
/// the resident memory before and after. `None` where the platform does not
/// report the memory; when it does not before the run, `bench_fn` is not called.
pub fn run_benchmark<F: Fn()>(logger: LoggerKind, target: OutputTarget, bench_fn: F) -> (m: Option<
    Measurement,
>)
    requires
        bench_fn.requires(()),
    ensures
        m matches Some(x) ==> x.logger == logger && x.target == target,
{
    let before = match resident_memory() {
        Some(b) => b,
        None => return None,
    };
    let start = clock_now();
    let mut i: u32 = 0;
    while i < ITERATIONS
        invariant
            i <= ITERATIONS,
            bench_fn.requires(()),
        decreases ITERATIONS - i,
    {
        bench_fn();
        i = i + 1;
    }
    let elapsed = time_since(&start);
    let after = resident_memory();
    finish_measurement(logger, target, elapsed, before, after)
}

} // verus!
