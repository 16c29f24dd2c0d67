//! Client handle for the optional semantic-embedding service.
//!
//! The engine only stores the endpoint; embedding, similarity scoring and
//! the liveness probe are floating-point and network work that lives with
//! the embedding host application, not in the verified core. No codec
//! consults the service today.

use vstd::prelude::*;

verus! {

/// Handle on the semantic-embedding service endpoint.
pub struct RyzansteinCompressClient {
    pub base_url: String,
}

impl RyzansteinCompressClient {
    /// Remember the service endpoint.
    pub fn new(base_url: &str) -> (r: Self)
        ensures
            r.base_url@ == base_url@,
    {
        RyzansteinCompressClient { base_url: base_url.to_string() }
    }
}

} // verus!
