//! Verbosity levels. The current level is one byte of process-wide state
//! that the caller owns; these functions say how a level is stored and how
//! the stored byte is read.

use vstd::prelude::*;

verus! {

/// How much the tool prints.
#[derive(Clone, Copy, Debug, PartialEq, Eq, Structural)]
pub enum LogLevel {
    /// Errors only.
    Quiet,
    /// Progress messages too.
    Normal,
    /// Every step.
    Verbose,
}

/// The byte that stands for a level; levels are ordered by it.
pub open spec fn level_code(level: LogLevel) -> u8 {
    match level {
        LogLevel::Quiet => 0,
        LogLevel::Normal => 1,
        LogLevel::Verbose => 2,
    }
}

/// Progress messages are shown at the stored level.
pub open spec fn spec_is_normal(stored: u8) -> bool {
    stored >= level_code(LogLevel::Normal)
}

/// Every step is shown at the stored level.
pub open spec fn spec_is_verbose(stored: u8) -> bool {
    stored >= level_code(LogLevel::Verbose)
}

impl LogLevel {
    /// The byte that stands for this level.
    pub fn code(&self) -> (c: u8)
        ensures
            c == level_code(*self),
    {
        match self {
            LogLevel::Quiet => 0,
            LogLevel::Normal => 1,
            LogLevel::Verbose => 2,
        }
    }
}

/// Stores `level` in the level byte `stored`.
pub fn set(stored: &mut u8, level: LogLevel)
    ensures
        *final(stored) == level_code(level),
{
    *stored = level.code();
}

/// Whether progress messages are shown at the stored level.
pub fn is_normal(stored: u8) -> (r: bool)
    ensures
        r == spec_is_normal(stored),
{
    stored >= LogLevel::Normal.code()
}

/// Whether every step is shown at the stored level.
pub fn is_verbose(stored: u8) -> (r: bool)
    ensures
        r == spec_is_verbose(stored),
{
    stored >= LogLevel::Verbose.code()
}

/// A level that shows every step also shows progress messages.
pub proof fn verbose_implies_normal(stored: u8)
    ensures
        spec_is_verbose(stored) ==> spec_is_normal(stored),
{
}

/// After a level is stored, progress messages are shown exactly when it is
/// not `Quiet`, and every step exactly when it is `Verbose`.
pub proof fn stored_level_reads_back(level: LogLevel)
    ensures
        spec_is_normal(level_code(level)) <==> level != LogLevel::Quiet,
        spec_is_verbose(level_code(level)) <==> level == LogLevel::Verbose,
{
}

} // verus!
