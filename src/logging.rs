//! Log levels and the rule that decides which messages are written.

use vstd::prelude::*;

verus! {

/// The available log levels, `Off` writing nothing; a logger at one level writes the messages of
/// that level and of every level before it.
#[derive(Debug, Clone, Copy, PartialEq, Eq, Structural)]
pub enum LogLevel {
    Off,
    Error,
    Warn,
    Debug,
    Info,
    Trace,
}

/// The rank of level `l`, from 0 (off) to 5 (trace).
pub open spec fn level_rank(l: LogLevel) -> u8 {
    match l {
        LogLevel::Off => 0,
        LogLevel::Error => 1,
        LogLevel::Warn => 2,
        LogLevel::Debug => 3,
        LogLevel::Info => 4,
        LogLevel::Trace => 5,
    }
}

impl LogLevel {
    /// The level's rank, from 0 (none) to 5 (trace).
    pub fn rank(self) -> (r: u8)
        ensures
            r == level_rank(self),
    {
        match self {
            LogLevel::Off => 0,
            LogLevel::Error => 1,
            LogLevel::Warn => 2,
            LogLevel::Debug => 3,
            LogLevel::Info => 4,
            LogLevel::Trace => 5,
        }
    }

    /// The level with rank `r`; ranks above 5 are trace.
    pub fn from_rank(r: u8) -> (l: LogLevel)
        ensures
            r <= 5 ==> level_rank(l) == r,
            r > 5 ==> l == LogLevel::Trace,
    {
        if r == 0 {
            LogLevel::Off
        } else if r == 1 {
            LogLevel::Error
        } else if r == 2 {
            LogLevel::Warn
        } else if r == 3 {
            LogLevel::Debug
        } else if r == 4 {
            LogLevel::Info
        } else {
            LogLevel::Trace
        }
    }

    /// The level's name.
    pub fn name(self) -> (r: &'static str)
        ensures
            self == LogLevel::Off ==> r@ == "Off"@,
            self == LogLevel::Error ==> r@ == "Error"@,
            self == LogLevel::Warn ==> r@ == "Warn"@,
            self == LogLevel::Debug ==> r@ == "Debug"@,
            self == LogLevel::Info ==> r@ == "Info"@,
            self == LogLevel::Trace ==> r@ == "Trace"@,
    {
        match self {
            LogLevel::Off => "Off",
            LogLevel::Error => "Error",
            LogLevel::Warn => "Warn",
            LogLevel::Debug => "Debug",
            LogLevel::Info => "Info",
            LogLevel::Trace => "Trace",
        }
    }

    /// Whether a logger at level `threshold` writes a message of this level.
    pub fn enabled(self, threshold: LogLevel) -> (r: bool)
        ensures
            r == (level_rank(self) <= level_rank(threshold)),
    {
        self.rank() <= threshold.rank()
    }
}

} // verus!
