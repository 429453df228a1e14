use vstd::prelude::*;

verus! {

/// Identifier of a client; the depot is always client 0.
pub type ClientId = usize;

/// Largest admitted magnitude of a fixed-point coordinate
/// (one unit of distance is one hundredth of a coordinate unit).
pub const COORD_LIMIT: i64 = 100_000_000;

/// A depot or customer: an id, fixed-point plane coordinates, and a demand.
/// The depot has id 0 and, by convention, demand 0.
#[derive(Debug, Clone, Copy, PartialEq, Eq, Structural, Hash)]
pub struct Client {
    pub id: ClientId,
    pub x: i64,
    pub y: i64,
    pub demand: u32,
}

impl Client {
    /// Both coordinates lie within the admitted range.
    pub open spec fn coords_in_range(self) -> bool {
        -COORD_LIMIT <= self.x <= COORD_LIMIT && -COORD_LIMIT <= self.y <= COORD_LIMIT
    }

    pub fn new(id: ClientId, x: i64, y: i64, demand: u32) -> (c: Client)
        ensures
            c == (Client { id, x, y, demand }),
    {
        Client { id, x, y, demand }
    }
}

} // verus!
