use logbench::invocation::is_child_invocation;
use logbench::logger::LoggerKind;
use logbench::target::OutputTarget;

fn chars(s: &str) -> Vec<char> {
    s.chars().collect()
}

#[test]
fn target_names_are_the_command_line_words() {
    assert_eq!(OutputTarget::Sink.as_str(), "sink");
    assert_eq!(OutputTarget::Stdout.as_str(), "stdout");
    assert_eq!(OutputTarget::File.as_str(), "file");
}

#[test]
fn all_targets_in_order() {
    assert_eq!(
        OutputTarget::all(),
        vec![OutputTarget::Sink, OutputTarget::Stdout, OutputTarget::File]
    );
}

#[test]
fn target_name_round_trip() {
    for t in OutputTarget::all() {
        assert_eq!(OutputTarget::from_name(&chars(t.as_str())), Some(t));
    }
}

#[test]
fn unknown_target_is_refused() {
    assert_eq!(OutputTarget::from_name(&chars("stderr")), None);
    assert_eq!(OutputTarget::from_name(&chars("Sink")), None);
    assert_eq!(OutputTarget::from_name(&chars("")), None);
    assert_eq!(OutputTarget::from_name(&chars("sink ")), None);
}

#[test]
fn benchmark_names() {
    let names: Vec<&str> = LoggerKind::all().iter().map(|k| k.as_str()).collect();
    assert_eq!(
        names,
        vec!["env_logger", "fern", "slog", "tracing", "slog_async", "tracing_async", "winston"]
    );
}

#[test]
fn benchmark_name_round_trip() {
    for k in LoggerKind::all() {
        assert_eq!(LoggerKind::from_name(&chars(k.as_str())), Some(k));
    }
}

#[test]
fn unknown_benchmark_is_refused() {
    assert_eq!(LoggerKind::from_name(&chars("log4rs")), None);
    assert_eq!(LoggerKind::from_name(&chars("slog_")), None);
    assert_eq!(LoggerKind::from_name(&chars("Winston")), None);
}

#[test]
fn log_file_paths() {
    assert_eq!(LoggerKind::EnvLogger.log_file_path(), "logs/env_logger.log");
    assert_eq!(LoggerKind::Fern.log_file_path(), "logs/fern.log");
    assert_eq!(LoggerKind::Slog.log_file_path(), "logs/slog.log");
    assert_eq!(LoggerKind::SlogAsync.log_file_path(), "logs/slog_async.log");
    assert_eq!(LoggerKind::Tracing.log_file_path(), "logs/tracing.log");
    assert_eq!(LoggerKind::TracingAsync.log_file_path(), "logs/tracing_async.log");
    assert_eq!(LoggerKind::Winston.log_file_path(), "logs/winston.log");
}

#[test]
fn child_invocation_needs_flag_and_two_names() {
    let args = |v: &[&str]| -> Vec<Vec<char>> { v.iter().map(|a| chars(a)).collect() };
    assert!(is_child_invocation(&args(&["prog", "--benchmark", "fern", "sink"])));
    assert!(is_child_invocation(&args(&["prog", "--benchmark", "fern", "sink", "extra"])));
    assert!(!is_child_invocation(&args(&["prog", "--benchmark", "fern"])));
    assert!(!is_child_invocation(&args(&["prog", "--bench", "fern", "sink"])));
    assert!(!is_child_invocation(&args(&["prog"])));
    assert!(!is_child_invocation(&args(&[])));
}
