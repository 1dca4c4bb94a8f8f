//! Durable order ingestion: validated order commands, a lossless byte codec,
//! and the consumer-group delivery protocol over an append-only log.

pub mod codec;
pub mod order;
pub mod store;

use vstd::prelude::*;

verus! {

/// The error body of a failed request, as the transport edge returns it to
/// the submitter.
#[derive(Debug, Clone)]
pub struct ErrorResponse {
    pub error: String,
}

impl ErrorResponse {
    pub fn new(error: String) -> (r: ErrorResponse)
        ensures
            r.error@ == error@,
    {
        ErrorResponse { error }
    }
}

} // verus!
