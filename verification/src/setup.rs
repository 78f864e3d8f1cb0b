//! What a run needs before it can start.

use vstd::prelude::*;

verus! {

/// The exit status of a run that could not start.
pub const EXIT_SETUP: i32 = 2;

/// The exit status of a run whose output could not be written.
pub const EXIT_WRITE: i32 = 1;

/// Why a run cannot start.
#[derive(Clone, Copy, Debug, PartialEq, Eq, Structural)]
pub enum SetupError {
    /// No pattern says which files to read.
    NoGlobs,
    /// The output is binary, and standard output is a terminal.
    StdoutIsTty,
    /// The patterns match no file.
    NoFiles,
}

impl SetupError {
    /// What is reported of the error.
    pub fn message(&self) -> (message: &'static str)
        ensures
            message@ == (match *self {
                SetupError::NoGlobs => "error: no globs specified"@,
                SetupError::StdoutIsTty =>
                    "error: stdout is a tty, refusing to write binary data"@,
                SetupError::NoFiles =>
                    "error: no files found - check your globs and try again"@,
            }),
    {
        match self {
            SetupError::NoGlobs => "error: no globs specified",
            SetupError::StdoutIsTty => "error: stdout is a tty, refusing to write binary data",
            SetupError::NoFiles => "error: no files found - check your globs and try again",
        }
    }
}

/// Where the output goes.
#[derive(Debug)]
pub enum OutputTarget {
    Stdout,
    File(String),
}

/// A run needs at least one pattern.
pub fn check_globs(globs: &Vec<String>) -> (result: Result<(), SetupError>)
    ensures
        result == (if globs@.len() == 0 {
            Err(SetupError::NoGlobs)
        } else {
            Ok(())
        }),
{
    if globs.len() == 0 {
        return Err(SetupError::NoGlobs);
    }
    Ok(())
}

/// A run needs at least one file.
pub fn check_files<P>(files: &Vec<P>) -> (result: Result<(), SetupError>)
    ensures
        result == (if files@.len() == 0 {
            Err(SetupError::NoFiles)
        } else {
            Ok(())
        }),
{
    if files.len() == 0 {
        return Err(SetupError::NoFiles);
    }
    Ok(())
}

/// The output goes to the file named, or for `-` to standard output, unless that is a terminal.
pub fn plan_output(output: String, stdout_is_tty: bool) -> (result: Result<
    OutputTarget,
    SetupError,
>)
    ensures
        match result {
            Ok(OutputTarget::Stdout) => output@ == "-"@ && !stdout_is_tty,
            Ok(OutputTarget::File(name)) => output@ != "-"@ && name == output,
            Err(error) => output@ == "-"@ && stdout_is_tty && error == SetupError::StdoutIsTty,
        },
{
    let dash = "-".to_owned();
    if output == dash {
        if stdout_is_tty {
            Err(SetupError::StdoutIsTty)
        } else {
            Ok(OutputTarget::Stdout)
        }
    } else {
        Ok(OutputTarget::File(output))
    }
}

} // verus!
