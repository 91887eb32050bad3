//! The minimal log line format: one letter for the level, coloured, then the
//! message; messages at the default level are printed bare.

use owo_colors::OwoColorize;
use vstd::prelude::*;

verus! {

/// The level of a log message.
#[derive(Clone, Copy, Debug, PartialEq, Eq, Structural)]
pub enum LogLevel {
    /// Errors.
    Error,
    /// Warnings.
    Warn,
    /// Informational messages.
    Info,
    /// Debugging messages.
    Debug,
    /// Tracing messages.
    Trace,
}

/// The most verbose level that is printed, or `Off`.
#[derive(Clone, Copy, Debug, PartialEq, Eq, Structural)]
pub enum LevelFilter {
    /// Nothing is printed.
    Off,
    /// Errors only.
    Error,
    /// Warnings and errors.
    Warn,
    /// Informational messages and above.
    Info,
    /// Debugging messages and above.
    Debug,
    /// Everything.
    Trace,
}

/// The letter that stands for a level.
pub open spec fn spec_level_char(level: LogLevel) -> char {
    match level {
        LogLevel::Trace => 'T',
        LogLevel::Debug => 'D',
        LogLevel::Info => 'I',
        LogLevel::Warn => 'W',
        LogLevel::Error => 'E',
    }
}

/// The letter that stands for a level.
pub fn level_char(level: LogLevel) -> (c: char)
    ensures
        c == spec_level_char(level),
{
    match level {
        LogLevel::Trace => 'T',
        LogLevel::Debug => 'D',
        LogLevel::Info => 'I',
        LogLevel::Warn => 'W',
        LogLevel::Error => 'E',
    }
}

/// `c` between the ANSI escape that sets the foreground colour `code` and the
/// one that restores the default foreground colour.
pub open spec fn ansi_fg(code: Seq<char>, c: char) -> Seq<char> {
    "\x1b["@ + code + "m"@ + seq![c] + "\x1b[39m"@
}

/// The coloured letter of a level: white for trace, cyan for debug, green for
/// info, yellow for warnings and red for errors.
pub open spec fn colored_level(level: LogLevel) -> Seq<char> {
    let c = spec_level_char(level);
    match level {
        LogLevel::Trace => ansi_fg("37"@, c),
        LogLevel::Debug => ansi_fg("36"@, c),
        LogLevel::Info => ansi_fg("32"@, c),
        LogLevel::Warn => ansi_fg("33"@, c),
        LogLevel::Error => ansi_fg("31"@, c),
    }
}

/// `owo_colors::OwoColorize::white` on a `char`, displayed: the character in
/// the ANSI foreground colour 37 followed by the reset to the default
/// foreground colour, as the crate's `FgColorDisplay` writes it.
#[verifier::external_body]
fn paint_white(c: char) -> (s: String)
    ensures
        s@ == ansi_fg("37"@, c),
{
    c.white().to_string()
}

/// `owo_colors::OwoColorize::cyan` on a `char`, displayed: the character in the
/// ANSI foreground colour 36 followed by the reset to the default foreground
/// colour.
#[verifier::external_body]
fn paint_cyan(c: char) -> (s: String)
    ensures
        s@ == ansi_fg("36"@, c),
{
    c.cyan().to_string()
}

/// `owo_colors::OwoColorize::green` on a `char`, displayed: the character in
/// the ANSI foreground colour 32 followed by the reset to the default
/// foreground colour.
#[verifier::external_body]
fn paint_green(c: char) -> (s: String)
    ensures
        s@ == ansi_fg("32"@, c),
{
    c.green().to_string()
}

/// `owo_colors::OwoColorize::yellow` on a `char`, displayed: the character in
/// the ANSI foreground colour 33 followed by the reset to the default
/// foreground colour.
#[verifier::external_body]
fn paint_yellow(c: char) -> (s: String)
    ensures
        s@ == ansi_fg("33"@, c),
{
    c.yellow().to_string()
}

/// `owo_colors::OwoColorize::red` on a `char`, displayed: the character in the
/// ANSI foreground colour 31 followed by the reset to the default foreground
/// colour.
#[verifier::external_body]
fn paint_red(c: char) -> (s: String)
    ensures
        s@ == ansi_fg("31"@, c),
{
    c.red().to_string()
}

/// The coloured letter of a level.
pub fn level_label(level: LogLevel) -> (s: String)
    ensures
        s@ == colored_level(level),
{
    let c = level_char(level);
    match level {
        LogLevel::Trace => paint_white(c),
        LogLevel::Debug => paint_cyan(c),
        LogLevel::Info => paint_green(c),
        LogLevel::Warn => paint_yellow(c),
        LogLevel::Error => paint_red(c),
    }
}

/// The printed line of a message: at the default verbosity (filter `Info`),
/// informational messages are printed bare; every other message is prefixed
/// with its coloured level letter and `: `.
pub open spec fn log_line(level: LogLevel, filter: LevelFilter, message: Seq<char>) -> Seq<char> {
    if level == LogLevel::Info && filter == LevelFilter::Info {
        message + "\n"@
    } else {
        colored_level(level) + ": "@ + message + "\n"@
    }
}

/// Only an informational message at the default verbosity (filter `Info`)
/// is printed bare; at any other filter, and for any other level, the line is
/// the coloured level letter, `: `, the message and a newline.
pub proof fn law_prefix_except_info_at_default(level: LogLevel, filter: LevelFilter, message: Seq<char>)
    ensures
        level == LogLevel::Info && filter == LevelFilter::Info ==> log_line(level, filter, message) == message
            + "\n"@,
        level != LogLevel::Info || filter != LevelFilter::Info ==> log_line(level, filter, message)
            == colored_level(level) + ": "@ + message + "\n"@,
{
}

/// Formats the log messages in a minimalistic way, since there is not a lot
/// of output.
pub fn format_log_line(level: LogLevel, filter: LevelFilter, message: &str) -> (s: String)
    ensures
        s@ == log_line(level, filter, message@),
        level == LogLevel::Info && filter == LevelFilter::Info ==> s@ == message@ + "\n"@,
        level != LogLevel::Info || filter != LevelFilter::Info ==> s@ == colored_level(level) + ": "@ + message@
            + "\n"@,
{
    proof {
        law_prefix_except_info_at_default(level, filter, message@);
    }
    if level == LogLevel::Info && filter == LevelFilter::Info {
        let mut s = String::from_str(message);
        s.append("\n");
        s
    } else {
        let mut s = level_label(level);
        s.append(": ");
        s.append(message);
        s.append("\n");
        s
    }
}

} // verus!
