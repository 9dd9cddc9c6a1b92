//! A compressor that may hand admitted content to an outside compression server.

use vstd::prelude::*;

verus! {

/// A compressor around another one. Without an endpoint it hands everything to the inner one.
pub struct HeadroomCompressor<C> {
    inner: C,
    endpoint: Option<String>,
}

impl<C> HeadroomCompressor<C> {
    /// The inner compressor.
    pub closed spec fn inner_spec(self) -> C {
        self.inner
    }

    /// The endpoint of the compression server.
    pub closed spec fn endpoint_spec(self) -> Option<String> {
        self.endpoint
    }

    /// A compressor around `inner` with an optional endpoint.
    pub fn new(inner: C, endpoint: Option<String>) -> (r: Self)
        ensures
            r.inner_spec() == inner,
            r.endpoint_spec() == endpoint,
    {
        HeadroomCompressor { inner, endpoint }
    }

    /// A compressor that hands everything to `inner`.
    pub fn passthrough(inner: C) -> (r: Self)
        ensures
            r.inner_spec() == inner,
            r.endpoint_spec() is None,
    {
        HeadroomCompressor { inner, endpoint: None }
    }

    /// The inner compressor, which does the work and is the fallback.
    pub fn inner(&self) -> (r: &C)
        ensures
            *r == self.inner_spec(),
    {
        &self.inner
    }

    /// The endpoint of the compression server.
    pub fn endpoint(&self) -> (r: &Option<String>)
        ensures
            *r == self.endpoint_spec(),
    {
        &self.endpoint
    }
}

} // verus!
