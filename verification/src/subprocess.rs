//! The result value a finished subprocess leaves behind.  Spawning and
//! waiting are the embedding program's work; the value and its
//! construction rules are verified here.

use vstd::prelude::*;

verus! {

/// What a finished subprocess reported: its exit status, its captured
/// output when capture was asked for, and the command that ran.
#[derive(Debug, Clone)]
pub struct CompletedProcess {
    pub returncode: i32,
    pub stdout: Option<String>,
    pub stderr: Option<String>,
    pub args: Vec<String>,
}

impl CompletedProcess {
    /// A result with no captured output.
    pub fn new(args: Vec<String>, returncode: i32) -> (r: CompletedProcess)
        ensures
            r.returncode == returncode,
            r.stdout is None,
            r.stderr is None,
            r.args == args,
    {
        CompletedProcess { returncode, stdout: None, stderr: None, args }
    }

    /// A result with both output streams captured.
    pub fn with_output(args: Vec<String>, returncode: i32, stdout: String, stderr: String) -> (r:
        CompletedProcess)
        ensures
            r.returncode == returncode,
            r.stdout == Some(stdout),
            r.stderr == Some(stderr),
            r.args == args,
    {
        CompletedProcess { returncode, stdout: Some(stdout), stderr: Some(stderr), args }
    }

    /// Whether the process reported success.
    pub fn success(&self) -> (r: bool)
        ensures
            r == (self.returncode == 0),
    {
        self.returncode == 0
    }
}

} // verus!
