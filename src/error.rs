//! The errors that a translation run can end with.
use vstd::prelude::*;

verus! {

/// Why a translation run could not go on.
#[derive(Debug)]
pub enum Error {
    /// The text to split into fragments was empty.
    EmptyInput,
    /// The configuration cannot be used: the credential is empty, or the service
    /// client refused the request parameters.
    Config(String),
    /// The given name selects no known model.
    UnknownModel(String),
    /// The exchange with the chat-completion service failed for one fragment.
    Translation(String),
}

} // verus!
