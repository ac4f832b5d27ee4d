//! Operational log lines: level, time, component, message.
//!
//! A line reads `2026-07-18T09:00:00.123Z WARN [raft-node g3] message`.

use vstd::prelude::*;
use vstd::string::StringExecFns;

use crate::calendar::{civil_from_days, date_of, law_one_date};
use crate::text::{
    at_least, chars_of, is_text, lower, lowered, push_at_least, trim, trimmed,
};

verus! {

/// Severity of a log line.
#[derive(Clone, Copy, Debug, PartialEq, Eq, Structural)]
pub enum Level {
    Error,
    Warn,
    Info,
    Debug,
}

/// The level that a word names.
pub open spec fn level_of(word: Seq<char>) -> Option<Level> {
    if word == "error"@ {
        Some(Level::Error)
    } else if word == "warn"@ || word == "warning"@ {
        Some(Level::Warn)
    } else if word == "info"@ {
        Some(Level::Info)
    } else if word == "debug"@ {
        Some(Level::Debug)
    } else {
        None
    }
}

impl Level {
    /// Position among the levels, the most severe one first.
    pub open spec fn rank(self) -> u8 {
        match self {
            Level::Error => 0,
            Level::Warn => 1,
            Level::Info => 2,
            Level::Debug => 3,
        }
    }

    /// Position among the levels, the most severe one first.
    pub fn ordinal(self) -> (r: u8)
        ensures
            r == self.rank(),
    {
        match self {
            Level::Error => 0,
            Level::Warn => 1,
            Level::Info => 2,
            Level::Debug => 3,
        }
    }

    /// Name in a log line.
    pub open spec fn label(self) -> Seq<char> {
        match self {
            Level::Error => "ERROR"@,
            Level::Warn => "WARN"@,
            Level::Info => "INFO"@,
            Level::Debug => "DEBUG"@,
        }
    }

    /// Name in a log line.
    pub fn as_str(self) -> (r: &'static str)
        ensures
            r@ == self.label(),
    {
        match self {
            Level::Error => "ERROR",
            Level::Warn => "WARN",
            Level::Info => "INFO",
            Level::Debug => "DEBUG",
        }
    }

    /// Reads a level; case and surrounding white space do not matter.
    pub fn parse(s: &str) -> (r: Option<Level>)
        ensures
            r == level_of(lowered(trimmed(s@))),
    {
        let chars = chars_of(s);
        let word = lower(trim(chars.as_slice()));
        let text = word.as_slice();
        if is_text(text, "error") {
            Some(Level::Error)
        } else if is_text(text, "warn") || is_text(text, "warning") {
            Some(Level::Warn)
        } else if is_text(text, "info") {
            Some(Level::Info)
        } else if is_text(text, "debug") {
            Some(Level::Debug)
        } else {
            None
        }
    }
}

/// Which lines are written: those at least as severe as the threshold.
#[derive(Clone, Copy, Debug)]
pub struct LogFilter {
    threshold: Level,
}

impl Default for LogFilter {
    fn default() -> (r: LogFilter)
        ensures
            r.least() == Level::Info,
    {
        LogFilter { threshold: Level::Info }
    }
}

impl LogFilter {
    /// The least severe level that is written.
    pub closed spec fn least(self) -> Level {
        self.threshold
    }

    /// The filter that a setting asks for; without one, or with one that is no
    /// level, from `info` on.
    pub fn from_setting(setting: Option<&str>) -> (r: LogFilter)
        ensures
            r.least() == match setting {
                Some(text) => match level_of(lowered(trimmed(text@))) {
                    Some(level) => level,
                    None => Level::Info,
                },
                None => Level::Info,
            },
    {
        let threshold = match setting {
            Some(text) => match Level::parse(text) {
                Some(level) => level,
                None => Level::Info,
            },
            None => Level::Info,
        };
        LogFilter { threshold }
    }

    /// Sets the threshold.
    pub fn set_level(&mut self, level: Level)
        ensures
            final(self).least() == level,
    {
        self.threshold = level;
    }

    /// The threshold.
    pub fn level(&self) -> (r: Level)
        ensures
            r == self.least(),
    {
        self.threshold
    }

    /// Whether a line of this level is written.
    pub fn enabled(&self, level: Level) -> (r: bool)
        ensures
            r == (level.rank() <= self.least().rank()),
    {
        level.ordinal() <= self.threshold.ordinal()
    }
}

/// A time in UTC, with milliseconds.
pub open spec fn timestamp(secs: u64, millis: u32) -> Seq<char> {
    let date = date_of((secs / 86_400) as int);
    let tod = secs % 86_400;
    at_least(date.0 as nat, 4) + "-"@ + at_least(date.1 as nat, 2) + "-"@ + at_least(
        date.2 as nat,
        2,
    ) + "T"@ + at_least((tod / 3_600) as nat, 2) + ":"@ + at_least(
        (tod % 3_600 / 60) as nat,
        2,
    ) + ":"@ + at_least((tod % 60) as nat, 2) + "."@ + at_least(millis as nat, 3) + "Z"@
}

/// Formats a time as `YYYY-MM-DDTHH:MM:SS.mmmZ`.
pub fn format_timestamp(secs: u64, millis: u32) -> (r: String)
    ensures
        r@ == timestamp(secs, millis),
{
    let day: u64 = secs / 86_400;
    let tod: u64 = secs % 86_400;
    let (year, month, date) = civil_from_days(day as i64);
    proof {
        let t = (year as int, month as int, date as int);
        law_one_date(t, day as int);
        crate::calendar::law_not_before_epoch(t, day as int);
    }
    let mut out = String::new();
    push_at_least(&mut out, year as u64, 4);
    assert(out@ =~= at_least(year as nat, 4));
    out.append("-");
    push_at_least(&mut out, month as u64, 2);
    out.append("-");
    push_at_least(&mut out, date as u64, 2);
    out.append("T");
    push_at_least(&mut out, tod / 3_600, 2);
    out.append(":");
    push_at_least(&mut out, tod % 3_600 / 60, 2);
    out.append(":");
    push_at_least(&mut out, tod % 60, 2);
    out.append(".");
    push_at_least(&mut out, millis as u64, 3);
    out.append("Z");
    out
}

/// A log line.
pub open spec fn log_line(
    secs: u64,
    millis: u32,
    level: Level,
    component: Seq<char>,
    instance: Option<Seq<char>>,
    message: Seq<char>,
) -> Seq<char> {
    timestamp(secs, millis) + " "@ + level.label() + " ["@ + component + (match instance {
        Some(name) => " "@ + name,
        None => Seq::empty(),
    }) + "] "@ + message + "\n"@
}

/// Formats a log line.
pub fn format_line(
    secs: u64,
    millis: u32,
    level: Level,
    component: &str,
    instance: Option<&str>,
    message: &str,
) -> (r: String)
    ensures
        r@ == log_line(
            secs,
            millis,
            level,
            component@,
            match instance {
                Some(name) => Some(name@),
                None => None,
            },
            message@,
        ),
{
    let mut out = format_timestamp(secs, millis);
    out.append(" ");
    out.append(level.as_str());
    out.append(" [");
    out.append(component);
    let ghost head = out@;
    if let Some(name) = instance {
        out.append(" ");
        out.append(name);
        assert(out@ =~= head + (" "@ + name@));
    } else {
        assert(out@ =~= head + Seq::<char>::empty());
    }
    out.append("] ");
    out.append(message);
    out.append("\n");
    out
}

/// Whether an operation that took `elapsed` is worth a warning.
pub fn is_slow(elapsed: u64, threshold: u64, filter: &LogFilter) -> (r: bool)
    ensures
        r == (elapsed >= threshold && Level::Warn.rank() <= filter.least().rank()),
{
    elapsed >= threshold && filter.enabled(Level::Warn)
}

} // verus!
