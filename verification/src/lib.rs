//! A minimal topic-based publish/subscribe broker core.
//!
//! The broker keeps, per topic path, the list of connections subscribed to
//! it, and answers each decoded request with a response plus the set of
//! fan-out deliveries that a publish triggers. Requests and responses travel
//! as self-describing binary documents; the codec and the framing decision
//! live here too, so that everything from raw message bytes to the deliveries
//! a request causes is covered by contracts. Socket handling stays with the
//! caller.

pub mod codec;
pub mod dispatch;
pub mod framing;
pub mod logging;
pub mod registry;
pub mod types;

use vstd::prelude::*;

verus! {

/// Upper bound on every length field of a wire document, so that all
/// arithmetic on lengths stays far below `i32::MAX`.
pub const MAX_DOCUMENT_LEN: usize = 0x1000_0000;

} // verus!
