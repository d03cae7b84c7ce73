use vstd::prelude::*;

verus! {

/// Severity of a log message.
#[derive(Debug, Clone, Copy, PartialEq, Eq, Structural)]
pub enum LogLevel {
    Info,
    Warn,
    Error,
    Critical,
}

impl LogLevel {
    /// Whether the level marks an error.
    pub fn is_error(self) -> (r: bool)
        ensures
            r == (self is Error || self is Critical),
    {
        match self {
            LogLevel::Error | LogLevel::Critical => true,
            _ => false,
        }
    }
}

} // verus!
