//! The logging crates that the harness measures.

use vstd::prelude::*;
use crate::text::{chars_match_str, no_space};

verus! {

/// One benchmarked logger setup. Each is run in a child process of its own.
#[derive(Debug, Clone, Copy, PartialEq, Eq, Hash, Structural)]
pub enum LoggerKind {
    EnvLogger,
    Fern,
    Slog,
    Tracing,
    SlogAsync,
    TracingAsync,
    Winston,
}

impl LoggerKind {
    /// The name of the benchmark, as passed to a child process and shown in reports.
    pub open spec fn name(self) -> Seq<char> {
        match self {
            LoggerKind::EnvLogger => "env_logger"@,
            LoggerKind::Fern => "fern"@,
            LoggerKind::Slog => "slog"@,
            LoggerKind::Tracing => "tracing"@,
            LoggerKind::SlogAsync => "slog_async"@,
            LoggerKind::TracingAsync => "tracing_async"@,
            LoggerKind::Winston => "winston"@,
        }
    }

    /// Different benchmarks have different names, so that a name read back
    /// names the one that wrote it: `from_name` of `as_str` gives back the same one.
    pub proof fn lemma_name_identifies(self, other: LoggerKind)
        ensures
            self.name() == other.name() ==> self == other,
    {
        reveal_strlit("env_logger");
        reveal_strlit("fern");
        reveal_strlit("slog");
        reveal_strlit("tracing");
        reveal_strlit("slog_async");
        reveal_strlit("tracing_async");
        reveal_strlit("winston");
        if self.name() == other.name() && self != other {
            assert(self.name().len() != other.name().len() || self.name()[0] != other.name()[0]);
        }
    }

    pub fn as_str(&self) -> (s: &'static str)
        ensures
            s@ == self.name(),
    {
        match self {
            LoggerKind::EnvLogger => "env_logger",
            LoggerKind::Fern => "fern",
            LoggerKind::Slog => "slog",
            LoggerKind::Tracing => "tracing",
            LoggerKind::SlogAsync => "slog_async",
            LoggerKind::TracingAsync => "tracing_async",
            LoggerKind::Winston => "winston",
        }
    }

    /// Every benchmark: first those that log on the caller's thread, then
    /// those that hand records to a worker thread.
    pub fn all() -> (v: Vec<LoggerKind>)
        ensures
            v@ == seq![
                LoggerKind::EnvLogger,
                LoggerKind::Fern,
                LoggerKind::Slog,
                LoggerKind::Tracing,
                LoggerKind::SlogAsync,
                LoggerKind::TracingAsync,
                LoggerKind::Winston,
            ],
    {
        vec![
            LoggerKind::EnvLogger,
            LoggerKind::Fern,
            LoggerKind::Slog,
            LoggerKind::Tracing,
            LoggerKind::SlogAsync,
            LoggerKind::TracingAsync,
            LoggerKind::Winston,
        ]
    }

    /// The benchmark whose name is `name`, if there is one.
    pub fn from_name(name: &[char]) -> (r: Option<LoggerKind>)
        ensures
            match r {
                Some(k) => name@ == k.name(),
                None => forall|k: LoggerKind| name@ != k.name(),
            },
    {
        if chars_match_str(name, "env_logger") {
            Some(LoggerKind::EnvLogger)
        } else if chars_match_str(name, "fern") {
            Some(LoggerKind::Fern)
        } else if chars_match_str(name, "slog") {
            Some(LoggerKind::Slog)
        } else if chars_match_str(name, "tracing") {
            Some(LoggerKind::Tracing)
        } else if chars_match_str(name, "slog_async") {
            Some(LoggerKind::SlogAsync)
        } else if chars_match_str(name, "tracing_async") {
            Some(LoggerKind::TracingAsync)
        } else if chars_match_str(name, "winston") {
            Some(LoggerKind::Winston)
        } else {
            proof {
                assert forall|k: LoggerKind| name@ != k.name() by {
                    match k {
                        LoggerKind::EnvLogger => {},
                        LoggerKind::Fern => {},
                        LoggerKind::Slog => {},
                        LoggerKind::Tracing => {},
                        LoggerKind::SlogAsync => {},
                        LoggerKind::TracingAsync => {},
                        LoggerKind::Winston => {},
                    }
                }
            }
            None
        }
    }

    /// A benchmark's name is a single non-empty white-space free token.
    pub proof fn lemma_name_is_word(self)
        ensures
            self.name().len() > 0,
            no_space(self.name()),
    {
        reveal_strlit("env_logger");
        reveal_strlit("fern");
        reveal_strlit("slog");
        reveal_strlit("tracing");
        reveal_strlit("slog_async");
        reveal_strlit("tracing_async");
        reveal_strlit("winston");
    }

    /// The file that the benchmark's logger writes to when the target is a file:
    /// `logs/`, the benchmark's name, then `.log`.
    pub fn log_file_path(&self) -> (p: &'static str)
        ensures
            p@ == "logs/"@ + self.name() + ".log"@,
    {
        proof {
            reveal_strlit("logs/");
            reveal_strlit(".log");
        }
        match self {
            LoggerKind::EnvLogger => {
                proof {
                    reveal_strlit("env_logger");
                    reveal_strlit("logs/env_logger.log");
                }
                assert("logs/env_logger.log"@ =~= "logs/"@ + "env_logger"@ + ".log"@);
                "logs/env_logger.log"
            },
            LoggerKind::Fern => {
                proof {
                    reveal_strlit("fern");
                    reveal_strlit("logs/fern.log");
                }
                assert("logs/fern.log"@ =~= "logs/"@ + "fern"@ + ".log"@);
                "logs/fern.log"
            },
            LoggerKind::Slog => {
                proof {
                    reveal_strlit("slog");
                    reveal_strlit("logs/slog.log");
                }
                assert("logs/slog.log"@ =~= "logs/"@ + "slog"@ + ".log"@);
                "logs/slog.log"
            },
            LoggerKind::Tracing => {
                proof {
                    reveal_strlit("tracing");
                    reveal_strlit("logs/tracing.log");
                }
                assert("logs/tracing.log"@ =~= "logs/"@ + "tracing"@ + ".log"@);
                "logs/tracing.log"
            },
            LoggerKind::SlogAsync => {
                proof {
                    reveal_strlit("slog_async");
                    reveal_strlit("logs/slog_async.log");
                }
                assert("logs/slog_async.log"@ =~= "logs/"@ + "slog_async"@ + ".log"@);
                "logs/slog_async.log"
            },
            LoggerKind::TracingAsync => {
                proof {
                    reveal_strlit("tracing_async");
                    reveal_strlit("logs/tracing_async.log");
                }
                assert("logs/tracing_async.log"@ =~= "logs/"@ + "tracing_async"@ + ".log"@);
                "logs/tracing_async.log"
            },
            LoggerKind::Winston => {
                proof {
                    reveal_strlit("winston");
                    reveal_strlit("logs/winston.log");
                }
                assert("logs/winston.log"@ =~= "logs/"@ + "winston"@ + ".log"@);
                "logs/winston.log"
            },
        }
    }
}

} // verus!
