use logbench::logger::LoggerKind;
use logbench::measure::{finish_measurement, memory_growth, run_benchmark, ITERATIONS};
use logbench::target::OutputTarget;
use std::cell::Cell;

#[test]
fn memory_growth_saturates() {
    assert_eq!(memory_growth(10, 25), 15);
    assert_eq!(memory_growth(25, 10), 0);
    assert_eq!(memory_growth(7, 7), 0);
    assert_eq!(memory_growth(0, usize::MAX), usize::MAX);
}

#[test]
fn run_calls_the_logger_the_fixed_number_of_times() {
    let calls = Cell::new(0u32);
    let m = run_benchmark(LoggerKind::Fern, OutputTarget::Sink, || calls.set(calls.get() + 1))
        .expect("memory statistics are available on this platform");
    assert_eq!(calls.get(), ITERATIONS);
    assert_eq!(ITERATIONS, 100_000);
    assert_eq!(m.logger, LoggerKind::Fern);
    assert_eq!(m.target, OutputTarget::Sink);
    assert!(m.memory_before > 0);
    assert!(m.memory_after > 0);
    assert_eq!(m.memory_growth(), m.memory_after.saturating_sub(m.memory_before));
}

#[test]
fn run_takes_time() {
    let m = run_benchmark(LoggerKind::Winston, OutputTarget::File, || {
        std::hint::black_box(1 + 1);
    })
    .expect("memory statistics are available on this platform");
    assert!(m.elapsed.as_nanos() > 0);
}

#[test]
fn finishing_a_measurement() {
    let d = std::time::Duration::from_millis(3);
    let m = finish_measurement(LoggerKind::Slog, OutputTarget::Stdout, d, 100, Some(160)).unwrap();
    assert_eq!(m.logger, LoggerKind::Slog);
    assert_eq!(m.target, OutputTarget::Stdout);
    assert_eq!(m.elapsed, d);
    assert_eq!(m.memory_before, 100);
    assert_eq!(m.memory_after, 160);
    assert_eq!(m.memory_growth(), 60);
    assert!(finish_measurement(LoggerKind::Slog, OutputTarget::Stdout, d, 100, None).is_none());
}
