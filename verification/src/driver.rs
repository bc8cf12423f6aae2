//! What a run decides before it searches: whether the root it was given
//! can be searched, and what it says and returns where it cannot.

use vstd::prelude::*;
use vstd::string::StringExecFns;

verus! {

/// Why a root cannot be searched.
#[derive(Clone, Copy, Debug, PartialEq, Eq, Structural)]
pub enum RootProblem {
    /// Nothing exists at the path.
    Missing,
    /// The path exists and is no directory.
    NotADirectory,
}

/// The exit code of a run that was given a root it cannot search.
pub const EXIT_INVALID_ROOT: i32 = 1;

/// The exit code of a run that went through, whether or not it found a
/// manifest.
pub const EXIT_DONE: i32 = 0;

/// The message of a root problem, for the path as the user gave it.
pub open spec fn problem_message(problem: RootProblem, path: Seq<char>) -> Seq<char> {
    match problem {
        RootProblem::Missing => "Error: The path '"@ + path + "' does not exist."@,
        RootProblem::NotADirectory => "Error: The path '"@ + path + "' is not a directory."@,
    }
}

/// Judges a root by what the file system says of it: it must exist, and be
/// a directory.
pub fn check_root(exists: bool, is_directory: bool) -> (checked: Result<(), RootProblem>)
    ensures
        !exists ==> checked == Err::<(), RootProblem>(RootProblem::Missing),
        exists && !is_directory ==> checked == Err::<(), RootProblem>(RootProblem::NotADirectory),
        exists && is_directory ==> checked == Ok::<(), RootProblem>(()),
{
    if !exists {
        Err(RootProblem::Missing)
    } else if !is_directory {
        Err(RootProblem::NotADirectory)
    } else {
        Ok(())
    }
}

impl RootProblem {
    /// The line that tells the user of the problem.
    pub fn message(&self, path: &str) -> (text: String)
        ensures
            text@ == problem_message(*self, path@),
    {
        let mut text = String::from_str("Error: The path '");
        text.append(path);
        match self {
            RootProblem::Missing => text.append("' does not exist."),
            RootProblem::NotADirectory => text.append("' is not a directory."),
        }
        text
    }
}

/// The line that a run ends with once every manifest it found is rewritten.
pub fn completion_message() -> (text: &'static str)
    ensures
        text@ == "Dependencies sorted successfully."@,
{
    "Dependencies sorted successfully."
}

/// The exit code of a run, by what the check of its root gave.
pub fn exit_code(checked: Result<(), RootProblem>) -> (code: i32)
    ensures
        code == if checked is Ok { EXIT_DONE } else { EXIT_INVALID_ROOT },
{
    match checked {
        Ok(_) => EXIT_DONE,
        Err(_) => EXIT_INVALID_ROOT,
    }
}

} // verus!
