use logbench::logger::LoggerKind;
use logbench::schedule::{benchmark_pairs, shuffle_round, Run, Schedule, Step};
use logbench::target::OutputTarget;

fn sorted(mut v: Vec<Run>) -> Vec<(String, String)> {
    let mut out: Vec<(String, String)> =
        v.drain(..).map(|(l, t)| (l.as_str().to_string(), t.as_str().to_string())).collect();
    out.sort();
    out
}

#[test]
fn every_benchmark_on_every_target() {
    let runs = benchmark_pairs(&LoggerKind::all(), &OutputTarget::all());
    assert_eq!(runs.len(), 21);
    assert_eq!(runs[0], (LoggerKind::EnvLogger, OutputTarget::Sink));
    assert_eq!(runs[1], (LoggerKind::EnvLogger, OutputTarget::Stdout));
    assert_eq!(runs[2], (LoggerKind::EnvLogger, OutputTarget::File));
    assert_eq!(runs[3], (LoggerKind::Fern, OutputTarget::Sink));
    assert_eq!(runs[20], (LoggerKind::Winston, OutputTarget::File));
}

#[test]
fn empty_lists_give_no_runs() {
    assert!(benchmark_pairs(&[], &OutputTarget::all()).is_empty());
    assert!(benchmark_pairs(&LoggerKind::all(), &[]).is_empty());
}

#[test]
fn shuffle_keeps_every_run_once() {
    let mut rng = rand::thread_rng();
    let original = benchmark_pairs(&LoggerKind::all(), &OutputTarget::all());
    let mut runs = original.clone();
    for _ in 0..3 {
        shuffle_round(&mut runs, &mut rng);
        assert_eq!(sorted(runs.clone()), sorted(original.clone()));
    }
}

#[test]
fn shuffle_changes_the_order() {
    let mut rng = rand::thread_rng();
    let original = benchmark_pairs(&LoggerKind::all(), &OutputTarget::all());
    let mut changed = false;
    for _ in 0..20 {
        let mut runs = original.clone();
        shuffle_round(&mut runs, &mut rng);
        if runs != original {
            changed = true;
        }
    }
    assert!(changed);
}

#[test]
fn session_hands_out_rounds_in_blocks() {
    let mut rng = rand::thread_rng();
    let benchmarks = LoggerKind::all();
    let targets = OutputTarget::all();
    let grid = benchmark_pairs(&benchmarks, &targets);
    let mut schedule = Schedule::new(&benchmarks, &targets, 3);
    let mut rounds: Vec<Vec<Run>> = Vec::new();
    let mut starts: Vec<usize> = Vec::new();
    loop {
        match schedule.next_step(&mut rng) {
            Step::RoundStart(n) => {
                starts.push(n);
                rounds.push(Vec::new());
            }
            Step::Run(r) => rounds.last_mut().expect("a round has begun").push(r),
            Step::Finished => break,
        }
    }
    assert_eq!(starts, vec![1, 2, 3]);
    assert_eq!(rounds.len(), 3);
    for round in rounds {
        assert_eq!(sorted(round), sorted(grid.clone()));
    }
    assert!(matches!(schedule.next_step(&mut rng), Step::Finished));
}

#[test]
fn session_without_rounds_or_runs() {
    let mut rng = rand::thread_rng();
    let mut none = Schedule::new(&LoggerKind::all(), &OutputTarget::all(), 0);
    assert!(matches!(none.next_step(&mut rng), Step::Finished));
    let mut empty = Schedule::new(&[], &OutputTarget::all(), 2);
    assert!(matches!(empty.next_step(&mut rng), Step::RoundStart(1)));
    assert!(matches!(empty.next_step(&mut rng), Step::RoundStart(2)));
    assert!(matches!(empty.next_step(&mut rng), Step::Finished));
}
