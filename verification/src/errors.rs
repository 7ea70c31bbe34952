//! The two outcomes a command loop distinguishes: a source that could not be
//! read, and an explicit request to stop the loop.

use vstd::prelude::*;

verus! {

/// Why a command did not complete: the word-list source could not be read, or
/// the command asked the loop around the dictionary to stop.
pub enum CommandError {
    IoError(std::io::Error),
    ExitCommand,
}

#[verifier::external_type_specification]
#[verifier::external_body]
pub struct ExIoError(std::io::Error);

impl From<std::io::Error> for CommandError {
    fn from(e: std::io::Error) -> (r: CommandError) {
        CommandError::IoError(e)
    }
}

impl vstd::std_specs::convert::FromSpecImpl<std::io::Error> for CommandError {
    open spec fn obeys_from_spec() -> bool {
        true
    }

    open spec fn from_spec(e: std::io::Error) -> CommandError {
        CommandError::IoError(e)
    }
}

} // verus!
