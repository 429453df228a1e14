use vstd::prelude::*;
use crate::clock::{monotonic_now, seconds_since};
use crate::problem::VehicleRoutingProblem;
use crate::rng::RandomSource;
use crate::routing_plan::{count_in_plan, spec_plan_cost, total_len, RoutingPlan};

verus! {

/// Cap on search iterations; in practice the wall-clock deadline is
/// reached long before it.
pub const MAX_SEARCH_ITERATIONS: u64 = 0xffff_ffff_ffff_ffff;

/// Reserved marker for a future two-phase search policy; the engine runs
/// a single phase and gives the phases no distinct behaviour.
#[derive(Debug, Clone, Copy, PartialEq, Eq, Structural)]
pub enum AILSPhase {
    PhaseOne,
    PhaseTwo,
}

/// The iterated local-search driver: a reference plan takes one random
/// neighborhood move per iteration (an unconditional random walk), and
/// the best-cost plan seen is kept as the incumbent.
#[derive(Debug)]
pub struct AILS {}

impl AILS {
    pub fn new() -> (a: AILS) {
        AILS {}
    }

    /// Runs the search from the initial plan until the caller-supplied
    /// deadline (in whole seconds) passes, and returns the incumbent:
    /// never costlier than the initial plan, over the same routes count
    /// and the same customers.
    pub fn run(&mut self, instance: &VehicleRoutingProblem, initial_solution: RoutingPlan, timeout_seconds: u64, rng: &mut RandomSource) -> (best: RoutingPlan)
        requires
            instance.wf(),
            initial_solution.in_bounds(*instance),
            total_len(initial_solution.rts()) >= 1,
        ensures
            spec_plan_cost(instance.graph, best.rts())
                <= spec_plan_cost(instance.graph, initial_solution.rts()),
            forall|c: crate::client::ClientId| #[trigger] count_in_plan(best.rts(), c)
                == count_in_plan(initial_solution.rts(), c),
            best.rts().len() == initial_solution.rts().len(),
            total_len(best.rts()) == total_len(initial_solution.rts()),
            best.in_bounds(*instance),
    {
        let ghost init = initial_solution.rts();
        let mut reference_solution = initial_solution.clone_plan();
        let mut optimal_solution = initial_solution;

        let start = monotonic_now();
        let mut iterations: u64 = 0;
        while iterations < MAX_SEARCH_ITERATIONS
            invariant
                instance.wf(),
                reference_solution.in_bounds(*instance),
                reference_solution.rts().len() == init.len(),
                total_len(reference_solution.rts()) == total_len(init),
                total_len(init) >= 1,
                forall|c: crate::client::ClientId| #[trigger] count_in_plan(reference_solution.rts(), c)
                    == count_in_plan(init, c),
                optimal_solution.in_bounds(*instance),
                optimal_solution.rts().len() == init.len(),
                total_len(optimal_solution.rts()) == total_len(init),
                forall|c: crate::client::ClientId| #[trigger] count_in_plan(optimal_solution.rts(), c)
                    == count_in_plan(init, c),
                spec_plan_cost(instance.graph, optimal_solution.rts())
                    <= spec_plan_cost(instance.graph, init),
            ensures
                spec_plan_cost(instance.graph, optimal_solution.rts())
                    <= spec_plan_cost(instance.graph, init),
                forall|c: crate::client::ClientId| #[trigger] count_in_plan(optimal_solution.rts(), c)
                    == count_in_plan(init, c),
                optimal_solution.rts().len() == init.len(),
                total_len(optimal_solution.rts()) == total_len(init),
                optimal_solution.in_bounds(*instance),
            decreases MAX_SEARCH_ITERATIONS - iterations,
        {
            if seconds_since(&start) >= timeout_seconds {
                break;
            }
            let new_value = reference_solution.local_search(instance, rng);
            let optimal_value = optimal_solution.value(instance);
            if new_value < optimal_value {
                optimal_solution = reference_solution.clone_plan();
            }
            iterations += 1;
        }
        optimal_solution
    }
}

} // verus!
