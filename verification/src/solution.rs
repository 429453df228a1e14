use vstd::prelude::*;
use crate::client::ClientId;

verus! {

/// The final result record of one solve: the instance, the elapsed whole
/// seconds, whether the result is provably optimal (never, for this
/// engine), the total travel distance, and the routes.
#[derive(Debug)]
pub struct VehicleRoutingSolution {
    pub instance_name: String,
    pub compute_time_seconds: u64,
    pub is_optimal: bool,
    pub cost: u64,
    pub routes: Vec<Vec<ClientId>>,
}

} // verus!
