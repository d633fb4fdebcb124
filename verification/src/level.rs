use vstd::prelude::*;

verus! {

/// Severity of a log record, ordered from least to most severe:
/// Trace < Debug < Info < Warn < Error.
#[derive(Clone, Copy, Debug, PartialEq, Eq, Structural)]
pub enum Level {
    Trace,
    Debug,
    Info,
    Warn,
    Error,
}

impl Level {
    /// Numeric rank of a severity; larger means more severe.
    pub open spec fn rank_spec(self) -> int {
        match self {
            Level::Trace => 0,
            Level::Debug => 1,
            Level::Info => 2,
            Level::Warn => 3,
            Level::Error => 4,
        }
    }

    /// Numeric rank of a severity; larger means more severe.
    pub fn rank(self) -> (r: u8)
        ensures
            r as int == self.rank_spec(),
    {
        match self {
            Level::Trace => 0,
            Level::Debug => 1,
            Level::Info => 2,
            Level::Warn => 3,
            Level::Error => 4,
        }
    }

    /// True when `self` is at least as severe as `other`.
    pub open spec fn at_least_spec(self, other: Level) -> bool {
        self.rank_spec() >= other.rank_spec()
    }

    /// True when `self` is at least as severe as `other`.
    pub fn at_least(self, other: Level) -> (r: bool)
        ensures
            r == self.at_least_spec(other),
    {
        self.rank() >= other.rank()
    }
}

} // verus!
