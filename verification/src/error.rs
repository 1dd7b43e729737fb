use vstd::prelude::*;

verus! {

/// Errors of the limiter library.
#[derive(Debug, Clone, PartialEq, Eq)]
pub enum DecLimiterError {
    /// A datarate string does not follow the datarate grammar.
    ParseDatarateError(String),
    /// A call into the packet driver failed with the given error code.
    WindowsError(i32),
    /// The packet driver reports no network adapter to intercept.
    NoAdapterFound,
}

} // verus!
