use vstd::prelude::*;
use crate::client::ClientId;

verus! {

/// The identity of an undirected edge: two endpoints stored in canonical
/// order (smaller first), so equality ignores direction.
#[derive(Debug, Clone, Copy, PartialEq, Eq, Structural, Hash)]
pub struct UnorderedPair {
    pub first: ClientId,
    pub second: ClientId,
}

impl UnorderedPair {
    /// The pair holds the endpoints in canonical order.
    pub open spec fn canonical(self) -> bool {
        self.first <= self.second
    }

    /// The pair joins the two given endpoints, in either order.
    pub open spec fn connects(self, a: ClientId, b: ClientId) -> bool {
        (self.first == a && self.second == b) || (self.first == b && self.second == a)
    }

    /// One of the endpoints is `v`.
    pub open spec fn touches(self, v: ClientId) -> bool {
        self.first == v || self.second == v
    }

    pub fn new(first: ClientId, second: ClientId) -> (p: UnorderedPair)
        ensures
            p.canonical(),
            p.connects(first, second),
    {
        if first < second {
            UnorderedPair { first, second }
        } else {
            UnorderedPair { first: second, second: first }
        }
    }
}

} // verus!
