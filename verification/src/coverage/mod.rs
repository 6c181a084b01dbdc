use vstd::prelude::*;

use crate::error::SvaError;
use crate::types::Timestamp;

pub mod assignments;
pub mod elaboration;
pub mod statements;

verus! {

/// What a slicer asks of a simulation's coverage: whether a source line ran
/// at a time, the clock period, and which parts of the design were
/// elaborated. Implementations read a waveform or other simulator output.
/// Each question has a spec function, its answer: an implementation answers
/// the same question the same way. The spec functions that have no natural
/// default are left unspecified until an implementation defines them.
pub trait CoverageTracker {
    /// Whether `line` of `file` ran at `time`.
    open spec fn line_covered(&self, file: Seq<char>, line: usize, time: Timestamp) -> Result<bool, SvaError> {
        arbitrary()
    }

    /// How many times `line` of `file` ran up to `time`.
    open spec fn hit_count(&self, file: Seq<char>, line: usize, time: Timestamp) -> Result<u64, SvaError> {
        arbitrary()
    }

    /// How many times `line` of `file` ran at `time`.
    open spec fn delta_hit_count(&self, file: Seq<char>, line: usize, time: Timestamp) -> Result<u64, SvaError> {
        arbitrary()
    }

    /// The clock period, when known.
    open spec fn period_of_clock(&self) -> Option<i64> {
        arbitrary()
    }

    /// Whether `time` is a rising clock edge.
    open spec fn posedge(&self, time: i64) -> bool {
        arbitrary()
    }

    /// Whether the lines `line_start..=line_end` of `file` were elaborated;
    /// by default every block is.
    open spec fn block_elaborated(&self, file: Seq<char>, line_start: usize, line_end: usize) -> bool {
        true
    }

    /// Whether `line` of `file` ran at `time` inside the instance `scope`; by
    /// default the scope is not told apart.
    open spec fn scoped_line_covered(&self, scope: Seq<char>, file: Seq<char>, line: usize, time: Timestamp) -> Result<bool, SvaError> {
        self.line_covered(file, line, time)
    }

    /// Whether the instance `scope` was elaborated; by default every one is.
    open spec fn scope_elaborated(&self, scope: Seq<char>) -> bool {
        true
    }

    fn is_line_covered_at(&self, file: &str, line: usize, time: Timestamp) -> (r: Result<bool, SvaError>)
        ensures
            r == self.line_covered(file@, line, time),
    ;

    fn hit_count_at(&self, file: &str, line: usize, time: Timestamp) -> (r: Result<u64, SvaError>)
        ensures
            r == self.hit_count(file@, line, time),
    ;

    fn delta_hits(&self, file: &str, line: usize, time: Timestamp) -> (r: Result<u64, SvaError>)
        ensures
            r == self.delta_hit_count(file@, line, time),
    ;

    fn clock_period(&self) -> (r: Option<i64>)
        ensures
            r == self.period_of_clock(),
    ;

    fn is_posedge_time(&self, time: i64) -> (r: bool)
        ensures
            r == self.posedge(time),
    ;

    fn is_block_elaborated(&self, file: &str, line_start: usize, line_end: usize) -> (r: bool)
        ensures
            r == self.block_elaborated(file@, line_start, line_end),
    ;

    fn is_scoped_line_covered_at(&self, scope: &str, file: &str, line: usize, time: Timestamp) -> (r: Result<
        bool,
        SvaError,
    >)
        ensures
            r == self.scoped_line_covered(scope@, file@, line, time),
    ;

    fn is_scope_elaborated(&self, scope: &str) -> (r: bool)
        ensures
            r == self.scope_elaborated(scope@),
    ;
}

} // verus!
