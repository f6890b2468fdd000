//! What can stop a run.

use vstd::prelude::*;
use vstd::string::*;

verus! {

/// What stopped a run, with the path of the file it is about.
#[derive(Debug)]
pub enum Error {
    /// A file could not be read or written, for the reason given.
    Io { path: String, reason: String },
    Bgcode { path: String, reason: String },
    AlreadyProcessed { path: String },
}

/// The words an error is told in.
pub open spec fn told(error: Error) -> Seq<char> {
    match error {
        Error::Io { path, reason } => path@ + ": "@ + reason@,
        Error::Bgcode { path, reason } => path@ + " is not valid binary G-code: "@ + reason@,
        Error::AlreadyProcessed { path } => path@
            + " has already been bricked; running again would stack a second shift on the first. Re-slice, or pass --force if that is what you want"@,
    }
}

impl Error {
    /// The words the error is told in.
    pub fn message(&self) -> (said: String)
        ensures
            said@ == told(*self),
    {
        match self {
            Error::Io { path, reason } => {
                let mut said = path.clone();
                said.append(": ");
                said.append(reason.as_str());
                said
            },
            Error::Bgcode { path, reason } => {
                let mut said = path.clone();
                said.append(" is not valid binary G-code: ");
                said.append(reason.as_str());
                said
            },
            Error::AlreadyProcessed { path } => {
                let mut said = path.clone();
                said.append(
                    " has already been bricked; running again would stack a second shift on the first. Re-slice, or pass --force if that is what you want",
                );
                said
            },
        }
    }
}

} // verus!
