//! The error the tree's operations report.
use vstd::prelude::*;

verus! {

/// An error with a message.
pub struct NodeError {
    pub msg: String,
}

impl NodeError {
    /// An error holding `msg`.
    pub fn new(msg: String) -> (r: NodeError)
        ensures
            r.msg == msg,
    {
        NodeError { msg }
    }

    /// An error holding a copy of `msg`.
    pub fn from(msg: &str) -> (r: NodeError)
        ensures
            r.msg@ == msg@,
    {
        NodeError { msg: msg.to_string() }
    }
}

} // verus!
