//! Failures that the library reports.

use vstd::prelude::*;

verus! {

/// Why an operation on a node, a session or a ticket failed.
#[derive(Debug, Clone, Copy, PartialEq, Eq, Structural)]
pub enum StreamError {
    /// The text is not a well-formed ticket.
    InvalidTicket,
    /// The node has been shut down.
    NodeClosed,
    /// An internal inconsistency, such as a node identity that does not parse.
    InvariantViolation,
}

} // verus!
