use vstd::prelude::*;
use crate::client::{Client, ClientId};
use crate::graph::{VehicleRoutingGraph, MAX_CLIENTS};
use crate::routing_plan::{RoutingPlan, spec_route_demand, spec_coverage_ok, spec_capacity_ok, spec_plan_cost, total_len, lemma_total_len_nonneg, lemma_total_len_take_le, lemma_count_plan_contains, view_routes, count_in_plan, plan_has};
use crate::ails::AILS;
use crate::clock::{monotonic_now, seconds_since};
use crate::errors::SolveError;
use crate::rng::RandomSource;
use crate::solution::VehicleRoutingSolution;

verus! {

/// Largest admitted fleet size.
pub const MAX_VEHICLES: usize = 1_000_000;

/// Search budget used when the caller names no deadline.
pub const DEFAULT_TIMEOUT_SECONDS: u64 = 200;

/// One instance of the capacitated vehicle routing problem: the customers
/// (with the depot as client 0), the fleet, the capacity, and the geometry.
#[derive(Debug)]
pub struct VehicleRoutingProblem {
    pub instance_name: String,
    pub number_of_customers: usize,
    pub number_of_vehicles: usize,
    pub vehicle_capacity: u32,
    pub graph: VehicleRoutingGraph,
}

impl VehicleRoutingProblem {
    /// Number of clients, depot included.
    pub open spec fn n(self) -> int {
        self.graph.n()
    }

    /// Demand of a client.
    pub open spec fn spec_demand(self, c: int) -> u32 {
        self.graph.clients@[c].demand
    }

    pub open spec fn wf(self) -> bool {
        &&& self.graph.wf()
        &&& self.number_of_customers + 1 == self.graph.n()
        &&& 1 <= self.number_of_vehicles <= MAX_VEHICLES
    }

    /// Whether a client list is admissible for an instance: the depot plus
    /// customers, ids in order, coordinates within range.
    pub open spec fn clients_admissible(clients: Seq<Client>, number_of_vehicles: usize) -> bool {
        &&& 1 <= clients.len() <= MAX_CLIENTS
        &&& 1 <= number_of_vehicles <= MAX_VEHICLES
        &&& forall|i: int| 0 <= i < clients.len() ==> (#[trigger] clients[i]).id == i
        &&& forall|i: int| 0 <= i < clients.len() ==> (#[trigger] clients[i]).coords_in_range()
    }

    /// Builds an instance from plain values, validating them; `None` exactly
    /// when the client list or the fleet size is not admissible.
    pub fn new(
        instance_name: String,
        number_of_vehicles: usize,
        vehicle_capacity: u32,
        clients: Vec<Client>,
    ) -> (r: Option<VehicleRoutingProblem>)
        ensures
            match r {
                Some(p) => {
                    &&& p.wf()
                    &&& Self::clients_admissible(clients@, number_of_vehicles)
                    &&& p.number_of_customers + 1 == clients@.len()
                    &&& p.number_of_vehicles == number_of_vehicles
                    &&& p.vehicle_capacity == vehicle_capacity
                    &&& p.graph.clients@ == clients@
                    &&& p.instance_name@ == instance_name@
                },
                None => !Self::clients_admissible(clients@, number_of_vehicles),
            },
    {
        if clients.len() < 1 || clients.len() > MAX_CLIENTS {
            return None;
        }
        if number_of_vehicles < 1 || number_of_vehicles > MAX_VEHICLES {
            return None;
        }
        let mut i: usize = 0;
        while i < clients.len()
            invariant
                i <= clients@.len(),
                forall|k: int| 0 <= k < i ==> (#[trigger] clients@[k]).id == k,
                forall|k: int| 0 <= k < i ==> (#[trigger] clients@[k]).coords_in_range(),
            decreases clients@.len() - i,
        {
            let c = clients[i];
            if c.id != i {
                return None;
            }
            if c.x < -crate::client::COORD_LIMIT || c.x > crate::client::COORD_LIMIT
                || c.y < -crate::client::COORD_LIMIT || c.y > crate::client::COORD_LIMIT {
                return None;
            }
            i += 1;
        }
        let graph = VehicleRoutingGraph::new(&clients);
        Some(VehicleRoutingProblem {
            instance_name,
            number_of_customers: clients.len() - 1,
            number_of_vehicles,
            vehicle_capacity,
            graph,
        })
    }

    /// Demand of a client.
    pub fn demand(&self, client: ClientId) -> (d: u32)
        requires
            self.wf(),
            client < self.n(),
        ensures
            d == self.spec_demand(client as int),
    {
        self.graph.clients[client].demand
    }

    /// Splits a depot-closed tour into capacity-feasible routes: every
    /// rotation of the customer order is split greedily in tour order, and
    /// the cheapest feasible split is kept (the first on ties). `None`
    /// exactly when no rotation splits feasibly.
    #[verifier::rlimit(100)]
    pub fn partition_tour(&self, tour: &Vec<ClientId>) -> (res: Option<RoutingPlan>)
        requires
            self.wf(),
            2 <= tour@.len() <= MAX_CLIENTS + 1,
            forall|i: int| 0 <= i < tour@.len() ==> #[trigger] tour@[i] < self.n(),
        ensures
            match res {
                Some(p) => {
                    &&& p.spec_feasible(*self)
                    &&& p.in_bounds(*self)
                    &&& exists|rot: int| #[trigger] rotation_feasible(*self, tour@, rot)
                        && 0 <= rot < mid_of(tour@).len()
                        && p.rts() == rotation_routes(*self, tour@, rot)
                        && (forall|rot2: int| 0 <= rot2 < mid_of(tour@).len()
                                && #[trigger] rotation_feasible(*self, tour@, rot2)
                            ==> spec_plan_cost(self.graph, rotation_routes(*self, tour@, rot2))
                                >= spec_plan_cost(self.graph, p.rts()))
                        && (forall|rot2: int| 0 <= rot2 < rot
                                && #[trigger] rotation_feasible(*self, tour@, rot2)
                            ==> spec_plan_cost(self.graph, rotation_routes(*self, tour@, rot2))
                                > spec_plan_cost(self.graph, p.rts()))
                },
                None => forall|rot: int| 0 <= rot < mid_of(tour@).len()
                    ==> !(#[trigger] rotation_feasible(*self, tour@, rot)),
            },
    {
        let m = tour.len() - 2;
        let mut mid: Vec<ClientId> = Vec::new();
        let mut j: usize = 0;
        while j < m
            invariant
                j <= m,
                m == tour@.len() - 2,
                mid@.len() == j,
                forall|i: int| 0 <= i < j ==> #[trigger] mid@[i] == tour@[i + 1],
            decreases m - j,
        {
            mid.push(tour[j + 1]);
            j += 1;
        }
        proof {
            assert(mid@ =~= mid_of(tour@));
        }

        let k = self.number_of_vehicles;
        let cap = self.vehicle_capacity as u64;
        let mut best: Option<RoutingPlan> = None;
        let mut best_cost: u64 = 0;
        let ghost mut best_rot: int = 0;

        let mut rot: usize = 0;
        while rot < m
            invariant
                rot <= m,
                m == mid@.len(),
                mid@ == mid_of(tour@),
                self.wf(),
                k == self.number_of_vehicles,
                cap == self.vehicle_capacity,
                2 <= tour@.len() <= MAX_CLIENTS + 1,
                forall|i: int| 0 <= i < tour@.len() ==> #[trigger] tour@[i] < self.n(),
                match best {
                    None => forall|r2: int| 0 <= r2 < rot
                        ==> !(#[trigger] rotation_feasible(*self, tour@, r2)),
                    Some(b) => {
                        &&& 0 <= best_rot < rot
                        &&& rotation_feasible(*self, tour@, best_rot)
                        &&& b.rts() == rotation_routes(*self, tour@, best_rot)
                        &&& b.spec_feasible(*self)
                        &&& b.in_bounds(*self)
                        &&& best_cost as int == spec_plan_cost(self.graph, b.rts())
                        &&& forall|r2: int| 0 <= r2 < rot
                                && #[trigger] rotation_feasible(*self, tour@, r2)
                            ==> spec_plan_cost(self.graph, rotation_routes(*self, tour@, r2))
                                >= best_cost
                        &&& forall|r2: int| 0 <= r2 < best_rot
                                && #[trigger] rotation_feasible(*self, tour@, r2)
                            ==> spec_plan_cost(self.graph, rotation_routes(*self, tour@, r2))
                                > best_cost
                    },
                },
            decreases m - rot,
        {
            let ghost rotseq = spec_rotation(mid@, rot as int);
            proof {
                assert(rotseq.len() == m);
            }
            let mut routes: Vec<Vec<ClientId>> = Vec::new();
            let mut loads: Vec<u64> = Vec::new();
            let mut r: usize = 0;
            while r < k
                invariant
                    r <= k,
                    routes@.len() == r,
                    loads@.len() == r,
                    forall|a: int| 0 <= a < r ==> (#[trigger] routes@[a])@.len() == 0,
                    forall|a: int| 0 <= a < r ==> (#[trigger] loads@[a]) == 0,
                decreases k - r,
            {
                routes.push(Vec::new());
                loads.push(0);
                r += 1;
            }
            proof {
                assert(crate::routing_plan::view_routes(routes@) =~~= empty_routes(k as int));
                assert forall|a: int| 0 <= a < k
                    implies (#[trigger] loads@[a]) as int
                        == spec_route_demand(*self, crate::routing_plan::view_routes(routes@)[a])
                by {
                }
                assert(rotseq.take(0) =~= Seq::<ClientId>::empty());
            }

            let mut j: usize = 0;
            while j < m
                invariant
                    j <= m,
                    m == mid@.len(),
                    mid@ == mid_of(tour@),
                    rotseq == spec_rotation(mid@, rot as int),
                    rotseq.len() == m,
                    rot < m,
                    self.wf(),
                    k == self.number_of_vehicles,
                    cap == self.vehicle_capacity,
                    m <= MAX_CLIENTS,
                    forall|i: int| 0 <= i < m ==> #[trigger] mid@[i] < self.n(),
                    routes@.len() == k,
                    loads@.len() == k,
                    crate::routing_plan::view_routes(routes@)
                        == spec_greedy(*self, k as int, rotseq.take(j as int)),
                    forall|a: int| 0 <= a < k
                        ==> (#[trigger] loads@[a]) as int
                            == spec_route_demand(*self, routes@[a]@),
                    forall|a: int| 0 <= a < k ==> (#[trigger] loads@[a]) <= cap,
                decreases m - j,
            {
                let idx = if rot + j < m {
                    rot + j
                } else {
                    rot + j - m
                };
                let c = mid[idx];
                proof {
                    assert(rotseq[j as int] == mid@[idx as int]);
                }
                let d = self.demand(c);

                let ghost prev = crate::routing_plan::view_routes(routes@);
                let mut fit: usize = k;
                let mut r: usize = 0;
                while r < k
                    invariant
                        r <= k,
                        fit <= k,
                        prev.len() == k,
                        loads@.len() == k,
                        routes@.len() == k,
                        self.wf(),
                        c < self.n(),
                        d == self.spec_demand(c as int),
                        cap == self.vehicle_capacity,
                        prev == crate::routing_plan::view_routes(routes@),
                        forall|a: int| 0 <= a < k
                            ==> (#[trigger] loads@[a]) as int == spec_route_demand(*self, routes@[a]@),
                        forall|a: int| 0 <= a < k ==> (#[trigger] loads@[a]) <= cap,
                        fit == k ==> forall|a: int| 0 <= a < r
                            ==> spec_route_demand(*self, #[trigger] prev[a]) + d > cap,
                        fit < k ==> fit < r
                            && spec_route_demand(*self, prev[fit as int]) + d <= cap
                            && forall|a: int| 0 <= a < fit
                                ==> spec_route_demand(*self, #[trigger] prev[a]) + d > cap,
                    decreases k - r,
                {
                    if fit == k && loads[r] + d as u64 <= cap {
                        fit = r;
                    }
                    r += 1;
                }
                proof {
                    assert(rotseq.take(j + 1).drop_last() =~= rotseq.take(j as int));
                    assert(rotseq.take(j + 1).last() == rotseq[j as int]);
                    if fit < k {
                        lemma_first_fit_found(*self, prev, c, 0, fit as int);
                    } else {
                        lemma_first_fit_absent(*self, prev, c, 0);
                    }
                }
                if fit < k {
                    let lf = loads[fit];
                    routes[fit].push(c);
                    loads.set(fit, lf + d as u64);
                    proof {
                        assert(crate::routing_plan::view_routes(routes@)
                            =~= prev.update(fit as int, prev[fit as int].push(c)));
                        assert(prev[fit as int].push(c).drop_last() =~= prev[fit as int]);
                    }
                }
                j += 1;
            }
            proof {
                assert(rotseq.take(m as int) =~= rotseq);
            }

            let plan = RoutingPlan::new(routes);
            let ghost greedy_routes = rotation_routes(*self, tour@, rot as int);
            proof {
                assert(plan.rts() == greedy_routes);
            }
            match plan.feasible(self) {
                Ok(()) => {
                    proof {
                        lemma_greedy_shape(*self, k as int, rotseq);
                        assert(total_len(plan.rts()) <= m);
                        assert(plan.in_bounds(*self)) by {
                            assert forall|a: int, i: int|
                                0 <= a < plan.rts().len() && 0 <= i < plan.rts()[a].len()
                                implies 0 < #[trigger] plan.rts()[a][i] < self.n()
                            by {
                                assert(1 <= plan.rts()[a][i] <= self.number_of_customers);
                            }
                        }
                        assert(rotation_feasible(*self, tour@, rot as int));
                    }
                    let cost = plan.value(self);
                    let replace = match best {
                        None => true,
                        Some(_) => cost < best_cost,
                    };
                    if replace {
                        best = Some(plan);
                        best_cost = cost;
                        proof {
                            best_rot = rot as int;
                        }
                    }
                },
                Err(_) => {
                    proof {
                        assert(!rotation_feasible(*self, tour@, rot as int));
                    }
                },
            }
            rot += 1;
        }
        best
    }

    /// Solves the instance: Christofides tour construction, partition into
    /// a feasible initial plan, then iterated local search until the
    /// deadline. The result covers every customer exactly once within the
    /// fleet, with its exact cost; the random walk does not re-check
    /// capacity, so only the initial plan is capacity-feasible by
    /// construction.
    pub fn solve(&self, timeout_seconds: Option<u64>, rng: &mut RandomSource) -> (res: Result<VehicleRoutingSolution, SolveError>)
        requires
            self.wf(),
            self.n() >= 2,
        ensures
            match res {
                Ok(s) => {
                    &&& s.is_optimal == false
                    &&& s.instance_name@ == self.instance_name@
                    &&& view_routes(s.routes@).len() <= self.number_of_vehicles
                    &&& spec_coverage_ok(view_routes(s.routes@), self.number_of_customers as int)
                    &&& s.cost as int == spec_plan_cost(self.graph, view_routes(s.routes@))
                },
                Err(e) => e == SolveError::MatchingFailed || e == SolveError::EulerianFailed
                    || e == SolveError::NoFeasiblePartition,
            },
    {
        let start = monotonic_now();
        let tour = match self.graph.chirstofides() {
            Ok(tour) => tour,
            Err(e) => {
                return Err(e);
            },
        };
        let initial = match self.partition_tour(&tour) {
            Some(initial) => initial,
            None => {
                return Err(SolveError::NoFeasiblePartition);
            },
        };
        proof {
            let c1: int = 1;
            assert(self.number_of_customers >= 1);
            assert(count_in_plan(initial.rts(), c1 as usize) == 1);
            lemma_count_plan_contains(initial.rts(), 1usize);
            let w = choose|w: int| 0 <= w < initial.rts().len()
                && (#[trigger] initial.rts()[w]).contains(1usize);
            lemma_total_len_take_le(initial.rts(), w);
            lemma_total_len_nonneg(initial.rts().take(w));
            assert(total_len(initial.rts()) >= 1);
        }
        let ghost init = initial.rts();
        let budget = match timeout_seconds {
            Some(seconds) => seconds,
            None => DEFAULT_TIMEOUT_SECONDS,
        };
        let mut engine = AILS::new();
        let plan = engine.run(self, initial, budget, rng);
        let cost = plan.value(self);
        let elapsed = seconds_since(&start);
        proof {
            assert forall|c: int| 1 <= c <= self.number_of_customers
                implies #[trigger] count_in_plan(plan.rts(), c as usize) == 1
            by {
                assert(count_in_plan(plan.rts(), c as usize) == count_in_plan(init, c as usize));
            }
            assert forall|r: int, i: int|
                0 <= r < plan.rts().len() && 0 <= i < plan.rts()[r].len()
                implies 1 <= #[trigger] plan.rts()[r][i] <= self.number_of_customers
            by {
                assert(0 < plan.rts()[r][i] < self.n());
            }
        }
        Ok(VehicleRoutingSolution {
            instance_name: self.instance_name.clone(),
            compute_time_seconds: elapsed,
            is_optimal: false,
            cost,
            routes: plan.routes,
        })
    }
}




/// The first route at or after `r` whose demand still admits `c`, or the
/// route count when none does.
pub open spec fn spec_first_fit(inst: VehicleRoutingProblem, routes: Seq<Seq<ClientId>>, c: ClientId, r: int) -> int
    decreases routes.len() - r,
{
    if r < 0 || r >= routes.len() {
        routes.len() as int
    } else if spec_route_demand(inst, routes[r]) + inst.spec_demand(c as int) <= inst.vehicle_capacity {
        r
    } else {
        spec_first_fit(inst, routes, c, r + 1)
    }
}

/// `k` empty routes.
pub open spec fn empty_routes(k: int) -> Seq<Seq<ClientId>> {
    Seq::new(k as nat, |i: int| Seq::<ClientId>::empty())
}

/// The greedy split of a customer order over `k` vehicles: each customer,
/// in order, joins the first route that still has capacity for it; one
/// that fits nowhere is dropped (the feasibility check catches that).
pub open spec fn spec_greedy(inst: VehicleRoutingProblem, k: int, tour: Seq<ClientId>) -> Seq<Seq<ClientId>>
    decreases tour.len(),
{
    if tour.len() == 0 {
        empty_routes(k)
    } else {
        let prev = spec_greedy(inst, k, tour.drop_last());
        let c = tour.last();
        let f = spec_first_fit(inst, prev, c, 0);
        if f < prev.len() {
            prev.update(f, prev[f].push(c))
        } else {
            prev
        }
    }
}

/// The customers of a depot-closed tour: everything but the two ends.
pub open spec fn mid_of(tour: Seq<ClientId>) -> Seq<ClientId> {
    tour.subrange(1, tour.len() - 1)
}

/// A sequence rotated left by `r`.
pub open spec fn spec_rotation(s: Seq<ClientId>, r: int) -> Seq<ClientId> {
    s.subrange(r, s.len() as int) + s.take(r)
}

/// The greedy split of rotation `rot` of the tour's customers.
pub open spec fn rotation_routes(inst: VehicleRoutingProblem, tour: Seq<ClientId>, rot: int) -> Seq<Seq<ClientId>> {
    spec_greedy(inst, inst.number_of_vehicles as int, spec_rotation(mid_of(tour), rot))
}

/// Whether rotation `rot` yields a feasible plan.
pub open spec fn rotation_feasible(inst: VehicleRoutingProblem, tour: Seq<ClientId>, rot: int) -> bool {
    let routes = rotation_routes(inst, tour, rot);
    &&& routes.len() <= inst.number_of_vehicles
    &&& spec_coverage_ok(routes, inst.number_of_customers as int)
    &&& spec_capacity_ok(inst, routes)
}

/// The first-fit index lies between the start of the scan and the route
/// count.
proof fn lemma_first_fit_range(inst: VehicleRoutingProblem, routes: Seq<Seq<ClientId>>, c: ClientId, lo: int)
    requires
        0 <= lo <= routes.len(),
    ensures
        lo <= spec_first_fit(inst, routes, c, lo) <= routes.len(),
    decreases routes.len() - lo,
{
    if lo < routes.len() {
        lemma_first_fit_range(inst, routes, c, lo + 1);
    }
}

/// A scan that stops at the first fitting route computes `spec_first_fit`.
proof fn lemma_first_fit_found(inst: VehicleRoutingProblem, routes: Seq<Seq<ClientId>>, c: ClientId, lo: int, r: int)
    requires
        0 <= lo <= r < routes.len(),
        spec_route_demand(inst, routes[r]) + inst.spec_demand(c as int) <= inst.vehicle_capacity,
        forall|k: int| lo <= k < r
            ==> spec_route_demand(inst, #[trigger] routes[k]) + inst.spec_demand(c as int)
                > inst.vehicle_capacity,
    ensures
        spec_first_fit(inst, routes, c, lo) == r,
    decreases r - lo,
{
    if lo < r {
        lemma_first_fit_found(inst, routes, c, lo + 1, r);
    }
}

proof fn lemma_first_fit_absent(inst: VehicleRoutingProblem, routes: Seq<Seq<ClientId>>, c: ClientId, lo: int)
    requires
        0 <= lo <= routes.len(),
        forall|k: int| lo <= k < routes.len()
            ==> spec_route_demand(inst, #[trigger] routes[k]) + inst.spec_demand(c as int)
                > inst.vehicle_capacity,
    ensures
        spec_first_fit(inst, routes, c, lo) == routes.len(),
    decreases routes.len() - lo,
{
    if lo < routes.len() {
        lemma_first_fit_absent(inst, routes, c, lo + 1);
    }
}

/// The greedy split always has `k` routes, stores at most one entry per
/// processed customer, and stores only the given customers.
proof fn lemma_greedy_shape(inst: VehicleRoutingProblem, k: int, tour: Seq<ClientId>)
    requires
        k >= 0,
    ensures
        spec_greedy(inst, k, tour).len() == k,
        total_len(spec_greedy(inst, k, tour)) <= tour.len(),
        forall|r: int, i: int| 0 <= r < k && 0 <= i < spec_greedy(inst, k, tour)[r].len()
            ==> tour.contains(#[trigger] spec_greedy(inst, k, tour)[r][i]),
    decreases tour.len(),
{
    if tour.len() == 0 {
        lemma_empty_routes_total(k);
    } else {
        lemma_greedy_shape(inst, k, tour.drop_last());
        let prev = spec_greedy(inst, k, tour.drop_last());
        let c = tour.last();
        let f = spec_first_fit(inst, prev, c, 0);
        let cur = spec_greedy(inst, k, tour);
        lemma_first_fit_range(inst, prev, c, 0);
        if f < k {
            crate::routing_plan::lemma_plan_update(prev, f, prev[f].push(c), c);
            assert forall|r: int, i: int| 0 <= r < k && 0 <= i < cur[r].len()
                implies tour.contains(#[trigger] cur[r][i])
            by {
                if r == f && i == cur[r].len() - 1 {
                    assert(cur[r][i] == c);
                    assert(tour[tour.len() - 1] == c);
                } else {
                    assert(cur[r][i] == prev[r][i]);
                    assert(tour.drop_last().contains(prev[r][i]));
                    let w = choose|w: int| 0 <= w < tour.drop_last().len() && tour.drop_last()[w] == prev[r][i];
                    assert(tour[w] == prev[r][i]);
                }
            }
        } else {
            assert forall|r: int, i: int| 0 <= r < k && 0 <= i < cur[r].len()
                implies tour.contains(#[trigger] cur[r][i])
            by {
                assert(tour.drop_last().contains(prev[r][i]));
                let w = choose|w: int| 0 <= w < tour.drop_last().len() && tour.drop_last()[w] == prev[r][i];
                assert(tour[w] == prev[r][i]);
            }
        }
    }
}

proof fn lemma_empty_routes_total(k: int)
    requires
        k >= 0,
    ensures
        total_len(empty_routes(k)) == 0,
    decreases k,
{
    if k > 0 {
        assert(empty_routes(k).drop_last() =~= empty_routes(k - 1));
        lemma_empty_routes_total(k - 1);
    }
}

} // verus!
