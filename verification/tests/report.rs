use logbench::logger::LoggerKind;
use logbench::report::{parse_report, report_line};
use logbench::target::OutputTarget;

fn chars(s: &str) -> Vec<char> {
    s.chars().collect()
}

fn text(v: &[char]) -> String {
    v.iter().collect()
}

/// The reading of a child's output as a plain Rust program would do it.
fn expected(output: &str) -> Option<(String, String, String, String)> {
    let line = output.lines().find(|l| l.starts_with("LOGMARK: "))?;
    let parts: Vec<&str> = line["LOGMARK: ".len()..].split_whitespace().collect();
    if parts.len() >= 5 {
        Some((
            format!("{}_{}", parts[0], parts[1]),
            parts[2].to_string(),
            parts[3].to_string(),
            parts[4].to_string(),
        ))
    } else {
        None
    }
}

fn parsed(output: &str) -> Option<(String, String, String, String)> {
    parse_report(&chars(output))
        .map(|r| (text(&r.name), text(&r.elapsed), text(&r.ops), text(&r.memory)))
}

#[test]
fn report_line_text() {
    let line = report_line(
        LoggerKind::SlogAsync,
        OutputTarget::Stdout,
        &chars("0.1234"),
        &chars("810372.0001"),
        &chars("0.0039"),
    );
    assert_eq!(text(&line), "LOGMARK: slog_async stdout 0.1234 810372.0001 0.0039");
}

#[test]
fn report_round_trip_after_log_output() {
    let line = report_line(
        LoggerKind::EnvLogger,
        OutputTarget::File,
        &chars("1.5000"),
        &chars("66666.6667"),
        &chars("2.2500"),
    );
    let output = format!(
        "{{\"level\":\"INFO\",\"message\":\"LOGMARK: not at the start\"}}\n{}\nlater line\n",
        text(&line)
    );
    assert_eq!(
        parsed(&output),
        Some((
            "env_logger_file".to_string(),
            "1.5000".to_string(),
            "66666.6667".to_string(),
            "2.2500".to_string()
        ))
    );
}

#[test]
fn no_report_line() {
    assert_eq!(parsed(""), None);
    assert_eq!(parsed("hello\nworld\n"), None);
    assert_eq!(parsed(" LOGMARK: a b 1 2 3\n"), None);
    assert_eq!(parsed("LOGMARK:a b 1 2 3\n"), None);
}

#[test]
fn first_report_line_decides_even_when_short() {
    assert_eq!(parsed("LOGMARK: a b 1 2\nLOGMARK: c d 1 2 3\n"), None);
}

#[test]
fn extra_fields_are_ignored() {
    assert_eq!(
        parsed("LOGMARK: a b 1 2 3 4 5"),
        Some(("a_b".to_string(), "1".to_string(), "2".to_string(), "3".to_string()))
    );
}

#[test]
fn crlf_and_unicode_blanks() {
    assert_eq!(
        parsed("noise\r\nLOGMARK:  fern\tsink\u{a0}1\u{3000}2 3\r\n"),
        Some(("fern_sink".to_string(), "1".to_string(), "2".to_string(), "3".to_string()))
    );
}

#[test]
fn reading_agrees_with_std() {
    let cases = [
        "",
        "\n",
        "LOGMARK: ",
        "LOGMARK: a b c d e",
        "LOGMARK: a b c d e\r",
        "x\r\nLOGMARK: a b c d e\r\n",
        "LOGMARK: a b c d\re\n",
        "x\nLOGMARK:\ta b c d e\n",
        "x\n\nLOGMARK: a\u{2028}b c d e f\nLOGMARK: z y x w v",
        "LOGMARK: a\u{200b}b c d e f",
        "LOGMARK: \u{85}a b\u{1680}c d e",
    ];
    for c in cases.iter() {
        assert_eq!(parsed(c), expected(c), "on {:?}", c);
    }
}
