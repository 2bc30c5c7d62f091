//! Admission control, endpoint pooling and request correlation for a client
//! that spreads signed transactions over a pool of interchangeable RPC
//! endpoints.
//!
//! - [`rate_limiter`]: the token bucket of an endpoint, and the adaptive
//!   limiter that backs off while errors are on record;
//! - [`node_pool`]: which endpoints are assignable, reserved, or cooling down;
//! - [`rpc_queue`]: the bounded request queue and the correlation of
//!   responses with their waiters;
//! - [`client`]: the dispatcher that ties the three together;
//! - [`config`] and [`error`]: settings and errors.
//!
//! Every component is a plain state machine: it never sleeps, awaits or reads
//! a clock. Time enters as an argument (`now`, nanoseconds on a monotonic
//! clock whose origin the caller fixes), and whatever has to be awaited is
//! returned to the caller as a step to perform. Each component comes with a
//! model (its view) over which its contracts and its laws are stated.

pub mod client;
pub mod config;
pub mod error;
pub mod node_pool;
pub mod rate_limiter;
pub mod rpc_queue;
