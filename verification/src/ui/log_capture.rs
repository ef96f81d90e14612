//! The logger that shows log lines in the settings window.
//!
//! Lines at level `Info` and above are kept; the window's buffer holds at
//! most 5000 lines, dropping the oldest 1000 when it grows past that.

use vstd::prelude::*;

verus! {

/// The level of a log record, most severe first.
pub enum LogLevel {
    Error,
    Warn,
    Info,
    Debug,
    Trace,
}

/// How a level is written in a log line.
pub open spec fn level_name(l: LogLevel) -> Seq<char> {
    match l {
        LogLevel::Error => "ERROR"@,
        LogLevel::Warn => "WARN"@,
        LogLevel::Info => "INFO"@,
        LogLevel::Debug => "DEBUG"@,
        LogLevel::Trace => "TRACE"@,
    }
}

/// The line written for a record: time of day, level, message.
pub open spec fn log_line(secs: nat, ms: nat, l: LogLevel, msg: Seq<char>) -> Seq<char> {
    crate::timefmt::time_of_day_spec(secs, ms) + " ["@ + level_name(l) + "] "@ + msg
}

/// The buffer after a line is added.
pub open spec fn buffer_after(buf: Seq<Seq<char>>, line: Seq<char>) -> Seq<Seq<char>> {
    let b = buf.push(line);
    if b.len() > 5000 {
        b.subrange(1000, b.len() as int)
    } else {
        b
    }
}

/// The window's buffer never holds more than 5000 lines: adding a line to a
/// buffer within the bound keeps it within the bound, and keeps the new line last.
pub proof fn lemma_buffer_bounded(buf: Seq<Seq<char>>, line: Seq<char>)
    requires
        buf.len() <= 5000,
    ensures
        buffer_after(buf, line).len() <= 5000,
        buffer_after(buf, line).last() == line,
{
}

/// The logger of the settings window.
pub struct CaptureLogger;

impl CaptureLogger {
    /// Whether records of this level are logged: `Info` and more severe.
    pub fn enabled(&self, level: &LogLevel) -> (r: bool)
        ensures
            r == (*level is Error || *level is Warn || *level is Info),
    {
        match level {
            LogLevel::Error => true,
            LogLevel::Warn => true,
            LogLevel::Info => true,
            LogLevel::Debug => false,
            LogLevel::Trace => false,
        }
    }

    /// The line for a record made `secs` seconds and `ms` milliseconds after
    /// the epoch.
    pub fn format_line(&self, secs: u64, ms: u32, level: &LogLevel, msg: &str) -> (r: String)
        requires
            ms < 1000,
        ensures
            r@ == log_line(secs as nat, ms as nat, *level, msg@),
    {
        proof {
            reveal_strlit(" [");
            reveal_strlit("] ");
            reveal_strlit("ERROR");
            reveal_strlit("WARN");
            reveal_strlit("INFO");
            reveal_strlit("DEBUG");
            reveal_strlit("TRACE");
        }
        let mut r = crate::timefmt::time_of_day(secs, ms);
        r.append(" [");
        match level {
            LogLevel::Error => r.append("ERROR"),
            LogLevel::Warn => r.append("WARN"),
            LogLevel::Info => r.append("INFO"),
            LogLevel::Debug => r.append("DEBUG"),
            LogLevel::Trace => r.append("TRACE"),
        }
        r.append("] ");
        r.append(msg);
        r
    }
}

/// Adds a line to the window's buffer, dropping the oldest 1000 lines when
/// it holds more than 5000.
pub fn push_line(buf: &mut Vec<String>, line: String)
    ensures
        crate::engine::correction::strings_view(final(buf)@)
            == buffer_after(crate::engine::correction::strings_view(old(buf)@), line@),
{
    let ghost before = crate::engine::correction::strings_view(buf@);
    buf.push(line);
    proof {
        assert(crate::engine::correction::strings_view(buf@) =~= before.push(line@));
    }
    if buf.len() > 5000 {
        let mut kept: Vec<String> = Vec::new();
        let mut i: usize = 1000;
        let ghost pushed = crate::engine::correction::strings_view(buf@);
        while i < buf.len()
            invariant
                1000 <= i <= buf@.len(),
                pushed == crate::engine::correction::strings_view(buf@),
                crate::engine::correction::strings_view(kept@) == pushed.subrange(1000, i as int),
            decreases buf@.len() - i,
        {
            let ghost kv = kept@;
            kept.push(buf[i].clone());
            proof {
                crate::engine::correction::lemma_strings_view_push(kv, buf@[i as int]);
                assert(pushed[i as int] == buf@[i as int]@);
                assert(pushed.subrange(1000, i + 1) =~= pushed.subrange(1000, i as int).push(pushed[i as int]));
            }
            i = i + 1;
        }
        *buf = kept;
    }
}

} // verus!
