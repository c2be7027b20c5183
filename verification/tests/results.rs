use logbench::logger::LoggerKind;
use logbench::report::report_line;
use logbench::results::ResultIndex;
use logbench::schedule::{Schedule, Step};
use logbench::target::OutputTarget;
use logbench::text::{
    chars_equal, is_space_char, split_fields, split_run_name_at_last_underscore, text_less,
};

fn chars(s: &str) -> Vec<char> {
    s.chars().collect()
}

fn text(v: &[char]) -> String {
    v.iter().collect()
}

#[test]
fn same_name_same_slot() {
    let mut index = ResultIndex::new();
    assert_eq!(index.slot_for(&chars("fern_sink")), 0);
    assert_eq!(index.slot_for(&chars("slog_file")), 1);
    assert_eq!(index.slot_for(&chars("fern_sink")), 0);
    assert_eq!(index.len(), 2);
    assert_eq!(text(index.name(1)), "slog_file");
    assert_eq!(index.find(&chars("slog_file")), Some(1));
    assert_eq!(index.find(&chars("slog_sink")), None);
}

#[test]
fn names_listed_in_string_order() {
    let mut index = ResultIndex::new();
    let names = ["winston_sink", "env_logger_file", "fern_stdout", "env_logger_sink", "Z", "é"];
    for n in names.iter() {
        index.slot_for(&chars(n));
    }
    let listed: Vec<String> = index.slots_by_name().iter().map(|&s| text(index.name(s))).collect();
    let mut expected: Vec<String> = names.iter().map(|s| s.to_string()).collect();
    expected.sort();
    assert_eq!(listed, expected);
}

#[test]
fn empty_table() {
    let index = ResultIndex::new();
    assert!(index.slots_by_name().is_empty());
    assert!(index.group_by_target().is_empty());
}

#[test]
fn grouping_by_target() {
    let mut index = ResultIndex::new();
    for n in ["fern_sink", "env_logger_file", "plain", "slog_async_sink", "fern_file"].iter() {
        index.slot_for(&chars(n));
    }
    let groups = index.group_by_target();
    assert_eq!(groups.len(), 2);
    assert_eq!(text(&groups[0].target), "sink");
    let sink: Vec<(String, usize)> =
        groups[0].members.iter().map(|m| (text(&m.logger), m.slot)).collect();
    assert_eq!(sink, vec![("fern".to_string(), 0), ("slog_async".to_string(), 3)]);
    assert_eq!(text(&groups[1].target), "file");
    let file: Vec<(String, usize)> =
        groups[1].members.iter().map(|m| (text(&m.logger), m.slot)).collect();
    assert_eq!(file, vec![("env_logger".to_string(), 1), ("fern".to_string(), 4)]);
}

#[test]
fn split_at_last_underscore() {
    let split = |s: &str| {
        split_run_name_at_last_underscore(&chars(s)).map(|(l, t)| (text(&l), text(&t)))
    };
    for s in ["env_logger_sink", "tracing_async_file", "a_", "_b", "_", "none", ""].iter() {
        assert_eq!(
            split(s),
            s.rsplit_once('_').map(|(l, t)| (l.to_string(), t.to_string())),
            "on {:?}",
            s
        );
    }
}

#[test]
fn white_space_is_what_std_says() {
    for u in 0u32..0x3100 {
        if let Some(c) = char::from_u32(u) {
            assert_eq!(is_space_char(c), c.is_whitespace(), "at {:#x}", u);
        }
    }
    assert!(!is_space_char('\u{feff}'));
    assert!(!is_space_char('\u{10ffff}'));
}

#[test]
fn fields_agree_with_std() {
    for s in ["", "  ", "a", " a  b\tc\n", "\u{a0}x\u{205f}y", "ab\u{200b}cd"].iter() {
        let v = chars(s);
        let got: Vec<String> = split_fields(&v, 0, v.len()).iter().map(|f| text(f)).collect();
        let want: Vec<String> = s.split_whitespace().map(|f| f.to_string()).collect();
        assert_eq!(got, want, "on {:?}", s);
    }
    let v = chars("xx a b");
    let got: Vec<String> = split_fields(&v, 2, 4).iter().map(|f| text(f)).collect();
    assert_eq!(got, vec!["a".to_string()]);
}

#[test]
fn text_order_and_equality() {
    assert!(text_less(&chars("abc"), &chars("abd")));
    assert!(text_less(&chars("ab"), &chars("abc")));
    assert!(!text_less(&chars("abc"), &chars("ab")));
    assert!(!text_less(&chars("abc"), &chars("abc")));
    assert!(text_less(&chars("Z"), &chars("a")));
    assert!(chars_equal(&chars("fern"), &chars("fern")));
    assert!(!chars_equal(&chars("fern"), &chars("fer")));
}

#[test]
fn recording_reports_files_them_by_run_name() {
    let mut index = ResultIndex::new();
    let (slot, rep) = index
        .record_report(&chars("noise\nLOGMARK: fern sink 0.5 200000.0 0.1\n"))
        .unwrap();
    assert_eq!(slot, 0);
    assert_eq!(text(&rep.name), "fern_sink");
    assert_eq!(text(&rep.elapsed), "0.5");
    assert_eq!(text(&rep.ops), "200000.0");
    assert_eq!(text(&rep.memory), "0.1");
    let (slot, _) = index.record_report(&chars("LOGMARK: slog file 1 2 3")).unwrap();
    assert_eq!(slot, 1);
    let (slot, _) = index.record_report(&chars("LOGMARK: fern sink 0.6 1 2")).unwrap();
    assert_eq!(slot, 0);
    assert!(index.record_report(&chars("nothing here\n")).is_none());
    assert_eq!(index.len(), 2);
}

#[test]
fn reported_run_appears_in_its_target_summary() {
    let mut index = ResultIndex::new();
    index.record_report(&chars("LOGMARK: tracing_async stdout 1 2 3\n")).unwrap();
    index.record_report(&chars("LOGMARK: env_logger stdout 1 2 3\n")).unwrap();
    let groups = index.group_by_target();
    assert_eq!(groups.len(), 1);
    assert_eq!(text(&groups[0].target), "stdout");
    let loggers: Vec<String> = groups[0].members.iter().map(|m| text(&m.logger)).collect();
    assert_eq!(loggers, vec!["tracing_async".to_string(), "env_logger".to_string()]);
}

#[test]
fn session_fills_every_entry_once_per_round() {
    let mut rng = rand::thread_rng();
    let benchmarks = LoggerKind::all();
    let targets = OutputTarget::all();
    let mut schedule = Schedule::new(&benchmarks, &targets, 2);
    let mut index = ResultIndex::new();
    let mut filed: Vec<Vec<usize>> = Vec::new();
    let mut round = 0usize;
    loop {
        match schedule.next_step(&mut rng) {
            Step::RoundStart(n) => round = n,
            Step::Run((logger, target)) => {
                let line = report_line(logger, target, &chars("1.0"), &chars("2.0"), &chars("3.0"));
                let output = format!("log noise\n{}\n", text(&line));
                let (slot, rep) = index.record_report(&chars(&output)).unwrap();
                assert_eq!(text(&rep.name), format!("{}_{}", logger.as_str(), target.as_str()));
                if slot == filed.len() {
                    filed.push(Vec::new());
                }
                filed[slot].push(round);
            }
            Step::Finished => break,
        }
    }
    assert_eq!(index.len(), 21);
    for rounds in filed {
        assert_eq!(rounds, vec![1, 2]);
    }
    for logger in benchmarks.iter() {
        for target in targets.iter() {
            let name = format!("{}_{}", logger.as_str(), target.as_str());
            assert!(index.find(&chars(&name)).is_some());
        }
    }
}
