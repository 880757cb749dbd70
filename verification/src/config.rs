//! Configuration shapes shared with the surrounding tooling.

use vstd::prelude::*;

verus! {

/// How much the surrounding tooling logs.
#[derive(Debug, PartialEq, Clone, Copy)]
pub enum LogLevel {
    Trace,
    Debug,
    Info,
    Warn,
    Error,
    Off,
}

/// Logging configuration.
#[derive(Debug, PartialEq, Clone, Copy)]
pub struct LoggingConfig {
    pub log_level: LogLevel,
}

impl Default for LoggingConfig {
    /// Logging defaults to the `Info` level.
    fn default() -> (c: Self)
        ensures
            c.log_level == LogLevel::Info,
    {
        LoggingConfig { log_level: LogLevel::Info }
    }
}

/// An error met while handling configuration.
#[derive(Debug, PartialEq)]
pub enum ConfigError {
    /// The configuration provided is ill-formed; the payload says how.
    IllFormed(String),
}

} // verus!
