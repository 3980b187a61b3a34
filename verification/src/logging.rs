//! The switch and level of the application's log.
use vstd::prelude::*;

verus! {

/// Whether log output is on.
#[derive(Clone, Copy, Debug, PartialEq, Eq, Structural)]
pub struct LogSwitch {
    pub enabled: bool,
}

impl LogSwitch {
    /// A switch that starts on, as logging does at start-up.
    pub fn new() -> (s: LogSwitch)
        ensures
            s.enabled,
    {
        LogSwitch { enabled: true }
    }
}

/// Turns all log output on or off.
pub fn set_enabled(switch: &mut LogSwitch, enabled: bool)
    ensures
        final(switch).enabled == enabled,
{
    switch.enabled = enabled;
}

/// Whether log output is on.
pub fn is_enabled(switch: &LogSwitch) -> (r: bool)
    ensures
        r == switch.enabled,
{
    switch.enabled
}

/// What the switch is set to is what it reads back, until it is set again.
pub proof fn lemma_switch_reads_back(switch: LogSwitch, enabled: bool)
    ensures
        (LogSwitch { enabled, ..switch }).enabled == enabled,
{
}

/// The most detailed level of messages that is written.
#[derive(Clone, Copy, Debug, PartialEq, Eq, Structural)]
pub enum LogLevel {
    Debug,
    Info,
}

/// `log::set_max_level`: from now on the `log` macros emit messages up to
/// `level`. A global effect; nothing is promised of it here.
#[verifier::external_body]
fn set_max_level(level: LogLevel) {
    log::set_max_level(
        match level {
            LogLevel::Debug => log::LevelFilter::Debug,
            LogLevel::Info => log::LevelFilter::Info,
        },
    );
}

/// Sets the level of the log at start-up: debug builds write debug messages,
/// release builds informational ones and above. Returns the level set.
pub fn init(debug_build: bool) -> (level: LogLevel)
    ensures
        level == (if debug_build {
            LogLevel::Debug
        } else {
            LogLevel::Info
        }),
{
    let level = if debug_build {
        LogLevel::Debug
    } else {
        LogLevel::Info
    };
    set_max_level(level);
    level
}

/// The level of one log message.
#[derive(Clone, Copy, Debug, PartialEq, Eq, Structural)]
pub enum MessageLevel {
    Error,
    Warn,
    Info,
    Debug,
    Trace,
}

/// The Android log priority a message is written with.
pub open spec fn priority_of(level: MessageLevel) -> i32 {
    match level {
        MessageLevel::Error => 6,
        MessageLevel::Warn => 5,
        MessageLevel::Info => 4,
        MessageLevel::Debug => 3,
        MessageLevel::Trace => 3,
    }
}

/// The Android log priority a message is written with, as [`priority_of`]
/// says: errors 6, warnings 5, information 4, debugging and tracing 3.
pub fn android_priority(level: MessageLevel) -> (p: i32)
    ensures
        p == priority_of(level),
{
    match level {
        MessageLevel::Error => 6,
        MessageLevel::Warn => 5,
        MessageLevel::Info => 4,
        MessageLevel::Debug => 3,
        MessageLevel::Trace => 3,
    }
}

} // verus!
