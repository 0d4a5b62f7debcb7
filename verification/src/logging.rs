//! Log settings: the levels and formats the service logs at, read from their
//! names, with the defaults that apply when none is given.

use vstd::prelude::*;

use crate::text::same_text;

verus! {

/// How much to log.
#[derive(Clone, Copy, Debug, PartialEq, Eq, Structural)]
pub enum LogLevel {
    Trace,
    Debug,
    Info,
    Warn,
    Error,
}

/// How log lines are written.
#[derive(Clone, Copy, Debug, PartialEq, Eq, Structural)]
pub enum LogFormat {
    Text,
    Json,
}

/// The level that a name stands for: `trace`, `debug`, `info`, `warn` or
/// `error`.
pub open spec fn log_level_named(s: Seq<char>) -> Option<LogLevel> {
    if s == "trace"@ {
        Some(LogLevel::Trace)
    } else if s == "debug"@ {
        Some(LogLevel::Debug)
    } else if s == "info"@ {
        Some(LogLevel::Info)
    } else if s == "warn"@ {
        Some(LogLevel::Warn)
    } else if s == "error"@ {
        Some(LogLevel::Error)
    } else {
        None
    }
}

/// The format that a name stands for: `text` or `json`.
pub open spec fn log_format_named(s: Seq<char>) -> Option<LogFormat> {
    if s == "text"@ {
        Some(LogFormat::Text)
    } else if s == "json"@ {
        Some(LogFormat::Json)
    } else {
        None
    }
}

pub fn parse_log_level(s: &str) -> (r: Option<LogLevel>)
    ensures
        r == log_level_named(s@),
{
    if same_text(s, "trace") {
        Some(LogLevel::Trace)
    } else if same_text(s, "debug") {
        Some(LogLevel::Debug)
    } else if same_text(s, "info") {
        Some(LogLevel::Info)
    } else if same_text(s, "warn") {
        Some(LogLevel::Warn)
    } else if same_text(s, "error") {
        Some(LogLevel::Error)
    } else {
        None
    }
}

pub fn parse_log_format(s: &str) -> (r: Option<LogFormat>)
    ensures
        r == log_format_named(s@),
{
    if same_text(s, "text") {
        Some(LogFormat::Text)
    } else if same_text(s, "json") {
        Some(LogFormat::Json)
    } else {
        None
    }
}

/// The level to log at when none is configured.
pub open spec fn default_log_level() -> Seq<char> {
    "info"@
}

/// The format to log in when none is configured.
pub open spec fn default_log_format() -> Seq<char> {
    "text"@
}

/// The log settings from the configured level and format names, `info` and
/// `text` standing for those not given.  An unknown level is an error, and
/// then the format is not looked at; an unknown format is an error.
pub fn log_settings(level: Option<&str>, format: Option<&str>) -> (r: Result<
    (LogLevel, LogFormat),
    String,
>)
    ensures
        ({
            let l = match level {
                Some(s) => s@,
                None => default_log_level(),
            };
            let f = match format {
                Some(s) => s@,
                None => default_log_format(),
            };
            match log_level_named(l) {
                None => r matches Err(m) && m@ == "invalid log level: "@ + l,
                Some(lv) => match log_format_named(f) {
                    None => r matches Err(m) && m@ == "invalid log format: "@ + f,
                    Some(fv) => r == Ok::<(LogLevel, LogFormat), String>((lv, fv)),
                },
            }
        }),
{
    let l = match level {
        Some(s) => s,
        None => "info",
    };
    let f = match format {
        Some(s) => s,
        None => "text",
    };
    let lv = match parse_log_level(l) {
        Some(v) => v,
        None => {
            return Err("invalid log level: ".to_owned().concat(l));
        },
    };
    match parse_log_format(f) {
        Some(fv) => Ok((lv, fv)),
        None => Err("invalid log format: ".to_owned().concat(f)),
    }
}

} // verus!
