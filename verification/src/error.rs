//! Errors of the dispatcher.

use vstd::prelude::*;

verus! {

/// Why the dispatcher could not serve a call.
#[derive(Debug, Clone, Copy, PartialEq, Eq, Structural)]
pub enum ClientError {
    /// Every endpoint of the pool is reserved or disabled.
    NoNodesAvailable,
    /// The initialization broadcast stopped at an endpoint that failed.
    InitializationError,
    /// The request failed at its endpoint, or was not answered in time.
    PredictionFailed,
}

} // verus!
