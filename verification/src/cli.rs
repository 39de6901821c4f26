//! The command-line surface of the run operation, and the resolution of its
//! parallelism bound.

use vstd::prelude::*;

verus! {

/// Arguments of the run operation.
///
/// The shell command is handed to the jobs verbatim; this engine never parses
/// it. The revision expression is evaluated by an external revision-set
/// evaluator, which hands the engine the resolved commits.
pub struct RunArgs {
    /// The command to run across all selected revisions.
    pub shell_command: String,
    /// The revision-set expression selecting the revisions to change.
    pub revisions: String,
    /// A no-op option kept only for command-line compatibility with another
    /// tool's rebase option; never read.
    pub unused_command: bool,
    /// How many processes should run in parallel; absent means all cores.
    pub jobs: Option<usize>,
}

/// Arguments of the script command. The script itself is evaluated by an
/// embedded scripting runtime that lives outside this engine.
pub struct ScriptArgs {
    /// Read all script input from stdin and only commit the transaction at
    /// the end of input.
    pub repl: bool,
}

/// In which direction a movement command walks the commit graph.
pub enum Direction {
    /// Move to ancestors, so parents and their ancestors.
    Ancestors,
    /// Move to children and their descendants.
    Descendants,
}

/// An invalid command-line request: reported to the user before anything is
/// materialized or executed.
#[derive(Debug)]
pub enum UsageError {
    /// A parallelism bound of zero was requested.
    ZeroJobs,
}

impl UsageError {
    /// The message shown to the user.
    pub fn message(&self) -> (r: &'static str)
        ensures
            r@ == "must pass at least one job"@,
    {
        match self {
            UsageError::ZeroJobs => "must pass at least one job",
        }
    }
}

/// Resolves the parallelism bound for one invocation.
///
/// The precedence is: an explicit user-supplied value, rejected with a usage
/// error when zero; else the host's available parallelism; else a fallback of
/// one job. The error comes before any directory or process is created: this
/// function is the first step of every run.
pub fn resolve_jobs(requested: Option<usize>, host_parallelism: Option<usize>) -> (r: Result<
    usize,
    UsageError,
>)
    requires
        host_parallelism matches Some(h) ==> h >= 1,
    ensures
        match requested {
            Some(j) => if j == 0 {
                r is Err
            } else {
                r == Ok::<usize, UsageError>(j)
            },
            None => match host_parallelism {
                Some(h) => r == Ok::<usize, UsageError>(h),
                None => r == Ok::<usize, UsageError>(1usize),
            },
        },
        r matches Ok(jobs) ==> jobs >= 1,
{
    match requested {
        Some(0) => Err(UsageError::ZeroJobs),
        Some(jobs) => Ok(jobs),
        None => match host_parallelism {
            Some(h) => Ok(h),
            None => Ok(1),
        },
    }
}

} // verus!
