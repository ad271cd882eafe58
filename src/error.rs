//! Why a workflow definition was refused or a node failed.
use vstd::prelude::*;

verus! {

/// An error of the engine.
#[derive(Debug)]
pub enum Error {
    /// A link leads to a node the definition does not hold.
    DanglingLink { to: u128 },
    /// A rendered URL does not parse.
    InvalidUrl { url: String },
    /// The outside work a node asked for failed.
    Effect { message: String },
    /// No live workflow instance owns the work being resumed.
    UnknownInstance { pid: u64 },
    /// The node a work item names is not part of its workflow.
    UnknownNode { node: u128 },
    /// An instance has as many works in flight as its counter can hold.
    TooManyWorks { pid: u64 },
    /// Any other failure, described in words.
    Message { message: String },
}

impl Error {
    /// An error described in words.
    pub fn new(message: String) -> (r: Error)
        ensures
            r == (Error::Message { message }),
    {
        Error::Message { message }
    }
}

} // verus!
