use vstd::prelude::*;
use crate::client::ClientId;
use crate::graph::VehicleRoutingGraph;
use crate::problem::VehicleRoutingProblem;
use crate::rng::RandomSource;
use crate::graph::{first_index_of, lemma_first_index_found, lemma_first_index_absent, lemma_first_index_props, rank_sum};

verus! {

/// Why a plan is not feasible.
#[derive(Debug, Clone, Copy, PartialEq, Eq, Structural)]
pub enum InfeasibleError {
    TooManyVehicles,
    ExceedsVehicleCapacity,
    InvalidTour,
}

/// Why a local-search move could not be applied.
#[derive(Debug, Clone, Copy, PartialEq, Eq, Structural)]
pub enum LocalSearchError {
    NoImprovement,
    InvalidArguments,
    InvalidTour,
}

/// How customers are removed from a plan.
#[derive(Debug, Clone, Copy, PartialEq, Eq, Structural)]
pub enum RemovalHeuristic {
    Concentric,
    Sequential,
}

/// How a customer is inserted into a plan.
#[derive(Debug, Clone, Copy, PartialEq, Eq, Structural)]
pub enum InsertionHeuristic {
    Cost,
    Distance,
}

/// The four neighborhood moves of the local search.
#[derive(Debug, Clone, Copy, PartialEq, Eq, Structural)]
pub enum SearchStrategy {
    InterShift,
    InterSwap,
    IntraShift,
    IntraSwap,
}

/// A candidate solution: one customer sequence per vehicle. The depot is
/// implicitly the first and last stop of every route and is never stored.
#[derive(Debug)]
pub struct RoutingPlan {
    pub routes: Vec<Vec<ClientId>>,
}

/// The mathematical view of a list of routes.
pub open spec fn view_routes(routes: Seq<Vec<ClientId>>) -> Seq<Seq<ClientId>> {
    Seq::new(routes.len(), |i: int| routes[i]@)
}

/// Occurrences of customer `c` in one route.
pub open spec fn count_in_route(route: Seq<ClientId>, c: ClientId) -> int
    decreases route.len(),
{
    if route.len() == 0 {
        0
    } else {
        count_in_route(route.drop_last(), c) + if route.last() == c {
            1int
        } else {
            0int
        }
    }
}

/// Occurrences of customer `c` over all routes.
pub open spec fn count_in_plan(routes: Seq<Seq<ClientId>>, c: ClientId) -> int
    decreases routes.len(),
{
    if routes.len() == 0 {
        0
    } else {
        count_in_plan(routes.drop_last(), c) + count_in_route(routes.last(), c)
    }
}

/// Number of stored customer entries over all routes.
pub open spec fn total_len(routes: Seq<Seq<ClientId>>) -> int
    decreases routes.len(),
{
    if routes.len() == 0 {
        0
    } else {
        total_len(routes.drop_last()) + routes.last().len()
    }
}

/// Sum of the demands of one route's customers.
pub open spec fn spec_route_demand(inst: VehicleRoutingProblem, route: Seq<ClientId>) -> int
    decreases route.len(),
{
    if route.len() == 0 {
        0
    } else {
        spec_route_demand(inst, route.drop_last()) + inst.spec_demand(route.last() as int)
    }
}

/// Cost of the first `k` legs of a route: the leg into `route[j]` comes
/// from its predecessor, the depot for the first stop.
pub open spec fn leg_cost_to(g: VehicleRoutingGraph, route: Seq<ClientId>, k: int) -> int
    decreases k,
{
    if k <= 0 {
        0
    } else {
        let prev: ClientId = if k == 1 {
            0
        } else {
            route[k - 2]
        };
        leg_cost_to(g, route, k - 1) + g.dist(route[k - 1] as int, prev as int)
    }
}

/// Cost of one route: depot to first stop, consecutive legs, and the leg
/// back to the depot. An empty route costs nothing.
pub open spec fn spec_route_cost(g: VehicleRoutingGraph, route: Seq<ClientId>) -> int {
    if route.len() == 0 {
        0
    } else {
        leg_cost_to(g, route, route.len() as int) + g.dist(route.last() as int, 0)
    }
}

/// Cost of the first `k` routes.
pub open spec fn plan_cost_to(g: VehicleRoutingGraph, routes: Seq<Seq<ClientId>>, k: int) -> int
    decreases k,
{
    if k <= 0 {
        0
    } else {
        plan_cost_to(g, routes, k - 1) + spec_route_cost(g, routes[k - 1])
    }
}

/// Total travel distance of a plan.
pub open spec fn spec_plan_cost(g: VehicleRoutingGraph, routes: Seq<Seq<ClientId>>) -> int {
    plan_cost_to(g, routes, routes.len() as int)
}

/// Every stored id is a customer id of the instance and every customer is
/// stored exactly once.
pub open spec fn spec_coverage_ok(routes: Seq<Seq<ClientId>>, ncust: int) -> bool {
    &&& forall|r: int, i: int| 0 <= r < routes.len() && 0 <= i < routes[r].len()
            ==> 1 <= #[trigger] routes[r][i] <= ncust
    &&& forall|c: int| 1 <= c <= ncust ==> #[trigger] count_in_plan(routes, c as usize) == 1
}

/// No route demands more than the vehicle capacity.
pub open spec fn spec_capacity_ok(inst: VehicleRoutingProblem, routes: Seq<Seq<ClientId>>) -> bool {
    forall|r: int| 0 <= r < routes.len()
        ==> spec_route_demand(inst, #[trigger] routes[r]) <= inst.vehicle_capacity
}


/// Change of a route's cost if `client` were inserted before position `i`
/// (with the depot as virtual neighbour at both ends).
pub open spec fn insertion_cost(g: VehicleRoutingGraph, route: Seq<ClientId>, client: ClientId, i: int) -> int {
    let prev: ClientId = if i == 0 {
        0
    } else {
        route[i - 1]
    };
    let next: ClientId = if i == route.len() {
        0
    } else {
        route[i]
    };
    g.dist(client as int, prev as int) + g.dist(client as int, next as int) - g.dist(prev as int, next as int)
}

/// Position `p` is the first position of `route` with minimal insertion
/// cost for `client`.
pub open spec fn best_first_position(g: VehicleRoutingGraph, route: Seq<ClientId>, client: ClientId, p: int) -> bool {
    &&& 0 <= p <= route.len()
    &&& forall|j: int| 0 <= j <= route.len()
            ==> #[trigger] insertion_cost(g, route, client, j) >= insertion_cost(g, route, client, p)
    &&& forall|j: int| 0 <= j < p
            ==> #[trigger] insertion_cost(g, route, client, j) > insertion_cost(g, route, client, p)
}

/// The new routes come from the old ones by inserting `client` into route
/// `rb` at its first position of minimal insertion cost.
pub open spec fn is_best_position_insert(
    g: VehicleRoutingGraph,
    old_routes: Seq<Seq<ClientId>>,
    new_routes: Seq<Seq<ClientId>>,
    client: ClientId,
    rb: int,
    pb: int,
) -> bool {
    &&& 0 <= rb < old_routes.len()
    &&& best_first_position(g, old_routes[rb], client, pb)
    &&& new_routes == old_routes.update(rb, old_routes[rb].insert(pb, client))
}

/// As `is_best_position_insert`, and moreover no position of any route is
/// cheaper, nor is any position of an earlier route as cheap, nor any
/// earlier position of the chosen route.
pub open spec fn is_cheapest_insert(
    g: VehicleRoutingGraph,
    old_routes: Seq<Seq<ClientId>>,
    new_routes: Seq<Seq<ClientId>>,
    client: ClientId,
    rb: int,
    pb: int,
) -> bool {
    &&& is_best_position_insert(g, old_routes, new_routes, client, rb, pb)
    &&& forall|r2: int, j: int| 0 <= r2 < old_routes.len() && 0 <= j <= old_routes[r2].len()
            ==> #[trigger] insertion_cost(g, old_routes[r2], client, j)
                >= insertion_cost(g, old_routes[rb], client, pb)
    &&& forall|r2: int, j: int| 0 <= r2 < rb && 0 <= j <= old_routes[r2].len()
            ==> #[trigger] insertion_cost(g, old_routes[r2], client, j)
                > insertion_cost(g, old_routes[rb], client, pb)
}

/// Index of the first route that contains `c`, or `routes.len()`.
pub open spec fn first_route_idx(routes: Seq<Seq<ClientId>>, c: ClientId) -> int
    decreases routes.len(),
{
    if routes.len() == 0 {
        0
    } else if routes[0].contains(c) {
        0
    } else {
        1 + first_route_idx(routes.drop_first(), c)
    }
}

/// Index of the last route that contains `c`; meaningful only when some
/// route does.
pub open spec fn last_route_idx(routes: Seq<Seq<ClientId>>, c: ClientId) -> int
    decreases routes.len(),
{
    if routes.len() == 0 {
        0
    } else if routes.last().contains(c) {
        routes.len() - 1
    } else {
        last_route_idx(routes.drop_last(), c)
    }
}

/// Some route of the plan holds `c`.
pub open spec fn plan_has(routes: Seq<Seq<ClientId>>, c: ClientId) -> bool {
    exists|r: int| 0 <= r < routes.len() && (#[trigger] routes[r]).contains(c)
}

/// A scan that stops at the first containing route computes
/// `first_route_idx`.
pub proof fn lemma_first_route_found(routes: Seq<Seq<ClientId>>, c: ClientId, r: int)
    requires
        0 <= r < routes.len(),
        routes[r].contains(c),
        forall|k: int| 0 <= k < r ==> !(#[trigger] routes[k]).contains(c),
    ensures
        first_route_idx(routes, c) == r,
    decreases r,
{
    if r > 0 {
        assert(routes.drop_first()[r - 1] == routes[r]);
        assert forall|k: int| 0 <= k < r - 1 implies !(#[trigger] routes.drop_first()[k]).contains(c) by {
            assert(routes.drop_first()[k] == routes[k + 1]);
        }
        lemma_first_route_found(routes.drop_first(), c, r - 1);
    }
}

/// A full scan that remembers the latest containing route computes
/// `last_route_idx`.
pub proof fn lemma_last_route_found(routes: Seq<Seq<ClientId>>, c: ClientId, r: int)
    requires
        0 <= r < routes.len(),
        routes[r].contains(c),
        forall|k: int| r < k < routes.len() ==> !(#[trigger] routes[k]).contains(c),
    ensures
        last_route_idx(routes, c) == r,
    decreases routes.len(),
{
    if r == routes.len() - 1 {
    } else {
        assert(!routes.last().contains(c));
        assert(routes.drop_last()[r] == routes[r]);
        assert forall|k: int| r < k < routes.len() - 1
            implies !(#[trigger] routes.drop_last()[k]).contains(c)
        by {
            assert(routes.drop_last()[k] == routes[k]);
        }
        lemma_last_route_found(routes.drop_last(), c, r);
    }
}


/// Both clients sit in the same (latest containing) route, at different
/// first positions: the condition for an intra-route exchange.
pub open spec fn intra_swap_ok(routes: Seq<Seq<ClientId>>, c1: ClientId, c2: ClientId) -> bool {
    &&& plan_has(routes, c1)
    &&& plan_has(routes, c2)
    &&& last_route_idx(routes, c1) == last_route_idx(routes, c2)
    &&& first_index_of(routes[last_route_idx(routes, c1)], c1)
        != first_index_of(routes[last_route_idx(routes, c1)], c2)
}

/// The routes after exchanging the first positions of the two clients in
/// their shared route.
pub open spec fn intra_swap_result(routes: Seq<Seq<ClientId>>, c1: ClientId, c2: ClientId) -> Seq<Seq<ClientId>> {
    let r = last_route_idx(routes, c1);
    let i1 = first_index_of(routes[r], c1);
    let i2 = first_index_of(routes[r], c2);
    routes.update(r, routes[r].update(i1, routes[r][i2]).update(i2, routes[r][i1]))
}

/// A customer counted once sits at exactly one position.
pub proof fn lemma_count_one_unique(route: Seq<ClientId>, c: ClientId, i: int)
    requires
        0 <= i < route.len(),
        route[i] == c,
        count_in_route(route, c) == 1,
    ensures
        forall|k: int| 0 <= k < route.len() && k != i ==> route[k] != c,
{
    lemma_count_route_remove(route, i, c);
    lemma_count_route_contains(route.remove(i), c);
    assert forall|k: int| 0 <= k < route.len() && k != i implies route[k] != c by {
        let dst: int = if k < i {
            k
        } else {
            k - 1
        };
        assert(route.remove(i)[dst] == route[k]);
        if route[k] == c {
            assert(route.remove(i).contains(c));
        }
    }
}

/// A customer counted once over the plan sits in exactly one route.
pub proof fn lemma_plan_count_one_unique(routes: Seq<Seq<ClientId>>, c: ClientId, r: int)
    requires
        0 <= r < routes.len(),
        routes[r].contains(c),
        count_in_plan(routes, c) == 1,
    ensures
        forall|k: int| 0 <= k < routes.len() && k != r ==> !(#[trigger] routes[k]).contains(c),
        count_in_route(routes[r], c) == 1,
{
    lemma_count_route_contains(routes[r], c);
    lemma_count_plan_take_step(routes, r, c);
    lemma_count_plan_take_le(routes, r + 1, c);
    lemma_count_plan_nonneg(routes.take(r), c);
    assert forall|k: int| 0 <= k < routes.len() && k != r
        implies !(#[trigger] routes[k]).contains(c)
    by {
        if routes[k].contains(c) {
            lemma_count_route_contains(routes[k], c);
            if k < r {
                lemma_count_route_nonneg(routes[r], c);
                lemma_count_plan_nonneg(routes.take(k), c);
                lemma_count_plan_take_step(routes, k, c);
                lemma_count_plan_prefix_monotone(routes, k + 1, r, c);
                assert(count_in_plan(routes.take(r), c) >= 1);
            } else {
                lemma_count_plan_take_step(routes, k, c);
                lemma_count_plan_take_le(routes, k + 1, c);
                lemma_count_plan_nonneg(routes.take(k), c);
                assert(count_in_plan(routes.take(k), c) >= count_in_plan(routes.take(r + 1), c)) by {
                    lemma_count_plan_prefix_monotone(routes, r + 1, k, c);
                }
            }
        }
    }
}

/// Prefix counts only grow with the prefix.
pub proof fn lemma_count_plan_prefix_monotone(routes: Seq<Seq<ClientId>>, a: int, b: int, c: ClientId)
    requires
        0 <= a <= b <= routes.len(),
    ensures
        count_in_plan(routes.take(a), c) <= count_in_plan(routes.take(b), c),
    decreases b - a,
{
    if a < b {
        lemma_count_plan_take_step(routes, a, c);
        lemma_count_route_nonneg(routes[a], c);
        lemma_count_plan_prefix_monotone(routes, a + 1, b, c);
    }
}

/// The intra-route exchange of two clients that each occur once in the
/// plan is its own inverse: applying it twice restores the routes, so
/// the plan's cost is unchanged.
pub proof fn lemma_intra_swap_twice_restores(g: VehicleRoutingGraph, routes: Seq<Seq<ClientId>>, c1: ClientId, c2: ClientId)
    requires
        intra_swap_ok(routes, c1, c2),
        count_in_plan(routes, c1) == 1,
        count_in_plan(routes, c2) == 1,
    ensures
        intra_swap_ok(intra_swap_result(routes, c1, c2), c1, c2),
        intra_swap_result(intra_swap_result(routes, c1, c2), c1, c2) == routes,
        spec_plan_cost(g, intra_swap_result(intra_swap_result(routes, c1, c2), c1, c2))
            == spec_plan_cost(g, routes),
{
    let r = last_route_idx(routes, c1);
    lemma_last_route_props(routes, c1);
    lemma_last_route_props(routes, c2);
    let route = routes[r];
    lemma_first_index_props(route, c1);
    lemma_first_index_props(route, c2);
    let i1 = first_index_of(route, c1);
    let i2 = first_index_of(route, c2);
    lemma_plan_count_one_unique(routes, c1, r);
    lemma_plan_count_one_unique(routes, c2, r);
    lemma_count_one_unique(route, c1, i1);
    lemma_count_one_unique(route, c2, i2);

    let once = intra_swap_result(routes, c1, c2);
    let swapped = route.update(i1, route[i2]).update(i2, route[i1]);
    assert(once == routes.update(r, swapped));
    assert(swapped[i2] == c1 && swapped[i1] == c2);

    // the swapped route still holds both clients, all other routes are
    // unchanged, so the latest containing route is unchanged
    assert(once[r].contains(c1)) by {
        assert(once[r][i2] == c1);
    }
    assert(once[r].contains(c2)) by {
        assert(once[r][i1] == c2);
    }
    assert forall|k: int| 0 <= k < once.len() && k != r
        implies !(#[trigger] once[k]).contains(c1) && !once[k].contains(c2)
    by {
        assert(once[k] == routes[k]);
    }
    lemma_last_route_found(once, c1, r);
    lemma_last_route_found(once, c2, r);

    // inside the swapped route, the first positions are the swapped ones
    assert forall|k: int| 0 <= k < swapped.len() && k != i2 implies swapped[k] != c1 by {
        if k == i1 {
            assert(swapped[k] == c2);
        } else {
            assert(swapped[k] == route[k]);
        }
    }
    lemma_first_index_found(swapped, c1, i2);
    assert forall|k: int| 0 <= k < swapped.len() && k != i1 implies swapped[k] != c2 by {
        if k == i2 {
            assert(swapped[k] == c1);
        } else {
            assert(swapped[k] == route[k]);
        }
    }
    lemma_first_index_found(swapped, c2, i1);

    let back = intra_swap_result(once, c1, c2);
    assert(back == once.update(r, swapped.update(i2, swapped[i1]).update(i1, swapped[i2])));
    assert(swapped.update(i2, swapped[i1]).update(i1, swapped[i2]) =~= route);
    assert(back =~= routes);
}

/// The latest containing route of a present customer really contains it,
/// and no later route does.
pub proof fn lemma_last_route_props(routes: Seq<Seq<ClientId>>, c: ClientId)
    requires
        plan_has(routes, c),
    ensures
        0 <= last_route_idx(routes, c) < routes.len(),
        routes[last_route_idx(routes, c)].contains(c),
        forall|k: int| last_route_idx(routes, c) < k < routes.len()
            ==> !(#[trigger] routes[k]).contains(c),
    decreases routes.len(),
{
    if routes.last().contains(c) {
    } else {
        let w = choose|w: int| 0 <= w < routes.len() && (#[trigger] routes[w]).contains(c);
        assert(routes.drop_last()[w] == routes[w]);
        assert(plan_has(routes.drop_last(), c));
        lemma_last_route_props(routes.drop_last(), c);
        assert(routes[last_route_idx(routes, c)]
            == routes.drop_last()[last_route_idx(routes.drop_last(), c)]);
        assert forall|k: int| last_route_idx(routes, c) < k < routes.len()
            implies !(#[trigger] routes[k]).contains(c)
        by {
            if k < routes.len() - 1 {
                assert(routes.drop_last()[k] == routes[k]);
            }
        }
    }
}


/// The routes after relocating `client` within its first containing route
/// to first-minimal insertion cost `p` (computed before the removal; a
/// best position past the shortened route's end is clamped to the end).
pub open spec fn intra_shift_spec(
    g: VehicleRoutingGraph,
    old_routes: Seq<Seq<ClientId>>,
    new_routes: Seq<Seq<ClientId>>,
    client: ClientId,
    p: int,
) -> bool {
    let fr = first_route_idx(old_routes, client);
    let fi = first_index_of(old_routes[fr], client);
    let q: int = if p <= old_routes[fr].len() - 1 {
        p
    } else {
        old_routes[fr].len() - 1
    };
    &&& best_first_position(g, old_routes[fr], client, p)
    &&& new_routes == old_routes.update(fr, old_routes[fr].remove(fi).insert(q, client))
}

/// The routes after exchanging two clients across their two (distinct,
/// latest containing) routes: each is removed at its first position and
/// reinserted into the other's route at first-minimal insertion cost.
pub open spec fn inter_swap_spec(
    g: VehicleRoutingGraph,
    old_routes: Seq<Seq<ClientId>>,
    new_routes: Seq<Seq<ClientId>>,
    c1: ClientId,
    c2: ClientId,
    p1: int,
    p2: int,
) -> bool {
    let r1 = last_route_idx(old_routes, c1);
    let r2 = last_route_idx(old_routes, c2);
    let i1 = first_index_of(old_routes[r1], c1);
    let i2 = first_index_of(old_routes[r2], c2);
    &&& best_first_position(g, old_routes[r2].remove(i2), c1, p1)
    &&& best_first_position(g, old_routes[r1].remove(i1), c2, p2)
    &&& new_routes == old_routes
        .update(r2, old_routes[r2].remove(i2).insert(p1, c1))
        .update(r1, old_routes[r1].remove(i1).insert(p2, c2))
}

/// The routes after trying to relocate `client` into route `tr`: a no-op
/// when the move would breach the capacity, otherwise removal at the first
/// position and reinsertion at first-minimal insertion cost.
pub open spec fn inter_shift_spec(
    inst: VehicleRoutingProblem,
    old_routes: Seq<Seq<ClientId>>,
    new_routes: Seq<Seq<ClientId>>,
    client: ClientId,
    tr: int,
) -> bool {
    let fr = first_route_idx(old_routes, client);
    let fi = first_index_of(old_routes[fr], client);
    &&& 0 <= tr < old_routes.len()
    &&& tr != fr
    &&& if spec_route_demand(inst, old_routes[tr]) + inst.spec_demand(client as int)
            > inst.vehicle_capacity {
        new_routes == old_routes
    } else {
        exists|p: int| best_first_position(inst.graph, old_routes[tr], client, p)
            && new_routes == old_routes
                .update(fr, old_routes[fr].remove(fi))
                .update(tr, old_routes[tr].insert(p, client))
    }
}

/// A customer held by an in-range plan is a valid customer id.
pub proof fn lemma_has_in_bounds(routes: Seq<Seq<ClientId>>, c: ClientId, n: int)
    requires
        plan_has(routes, c),
        forall|r: int, i: int| 0 <= r < routes.len() && 0 <= i < routes[r].len()
            ==> 0 < #[trigger] routes[r][i] < n,
    ensures
        0 < c < n,
{
    let w = choose|w: int| 0 <= w < routes.len() && (#[trigger] routes[w]).contains(c);
    let y = choose|y: int| 0 <= y < routes[w].len() && routes[w][y] == c;
    assert(0 < routes[w][y] < n);
}

/// If every count is preserved and the old plan kept its ids within the
/// instance, so does the new plan.
pub proof fn lemma_ids_preserved(old_routes: Seq<Seq<ClientId>>, new_routes: Seq<Seq<ClientId>>, n: int)
    requires
        forall|c2: ClientId| #[trigger] count_in_plan(new_routes, c2) == count_in_plan(old_routes, c2),
        forall|r: int, i: int| 0 <= r < old_routes.len() && 0 <= i < old_routes[r].len()
            ==> 0 < #[trigger] old_routes[r][i] < n,
    ensures
        forall|r: int, i: int| 0 <= r < new_routes.len() && 0 <= i < new_routes[r].len()
            ==> 0 < #[trigger] new_routes[r][i] < n,
{
    assert forall|r: int, i: int| 0 <= r < new_routes.len() && 0 <= i < new_routes[r].len()
        implies 0 < #[trigger] new_routes[r][i] < n
    by {
        let x = new_routes[r][i];
        assert(new_routes[r].contains(x));
        assert(plan_has(new_routes, x));
        lemma_count_plan_contains(new_routes, x);
        lemma_count_plan_contains(old_routes, x);
        assert(plan_has(old_routes, x));
        let w = choose|w: int| 0 <= w < old_routes.len() && (#[trigger] old_routes[w]).contains(x);
        let y = choose|y: int| 0 <= y < old_routes[w].len() && old_routes[w][y] == x;
        assert(0 < old_routes[w][y] < n);
    }
}


/// A score the proximity estimate can hand back for this route, with the
/// fleet size `k` bounding the sampling draw.
pub open spec fn proximity_score_consistent(
    g: VehicleRoutingGraph,
    client: ClientId,
    route: Seq<ClientId>,
    k: int,
    sc: Option<(u64, u64)>,
) -> bool {
    match sc {
        None => route.len() <= 2,
        Some(s) => {
            &&& route.len() > 2
            &&& 1 <= s.1 <= 1_000_000
            &&& s.1 <= route.len() - 2
            &&& s.1 <= g.n() / k
            &&& s.0 == rank_sum(g.ranked(client as int), route, s.1 as int)
            &&& s.0 <= 1_000_000_000_000
        },
    }
}

/// Strictly smaller average rank, under the exact fraction order; a route
/// without a score is never preferred.
pub open spec fn score_better(a: Option<(u64, u64)>, b: Option<(u64, u64)>) -> bool {
    match (a, b) {
        (Some(x), Some(y)) => (x.0 as int) * (y.1 as int) < (y.0 as int) * (x.1 as int),
        (Some(x), None) => true,
        (None, _) => false,
    }
}

/// Route `rb` is the first minimizer of the scores (route 0 when no route
/// has a score at all).
pub open spec fn chosen_by_proximity(scores: Seq<Option<(u64, u64)>>, rb: int) -> bool {
    &&& 0 <= rb < scores.len()
    &&& if scores[rb] is Some {
        &&& forall|r: int| 0 <= r < scores.len() ==> !score_better(#[trigger] scores[r], scores[rb])
        &&& forall|r: int| 0 <= r < rb ==> score_better(scores[rb], #[trigger] scores[r])
    } else {
        rb == 0 && forall|r: int| 0 <= r < scores.len() ==> (#[trigger] scores[r]) is None
    }
}

/// The fraction order is transitive across a non-worse middle score.
proof fn lemma_score_better_trans(a: Option<(u64, u64)>, b: Option<(u64, u64)>, c: Option<(u64, u64)>)
    requires
        score_better(a, b),
        !score_better(c, b),
        (match a {
            Some(x) => x.1 >= 1,
            None => true,
        }),
        (match b {
            Some(y) => y.1 >= 1,
            None => true,
        }),
        (match c {
            Some(z) => z.1 >= 1,
            None => true,
        }),
    ensures
        score_better(a, c),
{
    match (a, b, c) {
        (Some(x), Some(y), Some(z)) => {
            assert((x.0 as int) * (z.1 as int) < (z.0 as int) * (x.1 as int)) by (nonlinear_arith)
                requires
                    (x.0 as int) * (y.1 as int) < (y.0 as int) * (x.1 as int),
                    (y.0 as int) * (z.1 as int) <= (z.0 as int) * (y.1 as int),
                    x.1 >= 1,
                    y.1 >= 1,
                    z.1 >= 1,
            ;
        },
        _ => {
        },
    }
}

/// The distance insertion in one statement: some family of per-route
/// scores the proximity estimate could produce picks route `rb` as first
/// minimizer, and `client` lands there at its first cheapest position.
pub open spec fn is_proximity_insert(
    g: VehicleRoutingGraph,
    old_routes: Seq<Seq<ClientId>>,
    new_routes: Seq<Seq<ClientId>>,
    client: ClientId,
    rb: int,
    pb: int,
    scores: Seq<Option<(u64, u64)>>,
) -> bool {
    &&& scores.len() == old_routes.len()
    &&& forall|r: int| 0 <= r < old_routes.len()
            ==> proximity_score_consistent(g, client, old_routes[r], old_routes.len() as int, #[trigger] scores[r])
    &&& chosen_by_proximity(scores, rb)
    &&& is_best_position_insert(g, old_routes, new_routes, client, rb, pb)
}


/// One search iteration's effect: the plan is unchanged (a move that did
/// not apply), or it is the result of one of the four neighborhood moves
/// on clients the plan held.
pub open spec fn is_search_step(
    inst: VehicleRoutingProblem,
    old_routes: Seq<Seq<ClientId>>,
    new_routes: Seq<Seq<ClientId>>,
) -> bool {
    ||| new_routes == old_routes
    ||| exists|c: ClientId, tr: int| plan_has(old_routes, c)
            && #[trigger] inter_shift_spec(inst, old_routes, new_routes, c, tr)
    ||| exists|c1: ClientId, c2: ClientId, p1: int, p2: int|
            plan_has(old_routes, c1) && plan_has(old_routes, c2)
            && #[trigger] inter_swap_spec(inst.graph, old_routes, new_routes, c1, c2, p1, p2)
    ||| exists|c: ClientId, p: int| plan_has(old_routes, c)
            && #[trigger] intra_shift_spec(inst.graph, old_routes, new_routes, c, p)
    ||| exists|c1: ClientId, c2: ClientId| intra_swap_ok(old_routes, c1, c2)
            && new_routes == #[trigger] intra_swap_result(old_routes, c1, c2)
}

impl RoutingPlan {
    /// The routes as a sequence of customer sequences.
    pub open spec fn rts(self) -> Seq<Seq<ClientId>> {
        view_routes(self.routes@)
    }

    /// The three structural invariants of a feasible plan: route count
    /// within the fleet, exact coverage of the customers, and capacity.
    pub open spec fn spec_feasible(self, inst: VehicleRoutingProblem) -> bool {
        &&& self.rts().len() <= inst.number_of_vehicles
        &&& spec_coverage_ok(self.rts(), inst.number_of_customers as int)
        &&& spec_capacity_ok(inst, self.rts())
    }

    /// Machine bounds under which costs cannot overflow: ids in range, and
    /// route count and stored entries within generous fixed limits.
    pub open spec fn in_bounds(self, inst: VehicleRoutingProblem) -> bool {
        &&& self.rts().len() <= 1_000_000
        &&& total_len(self.rts()) <= 1_000_000_000
        &&& forall|r: int, i: int| 0 <= r < self.rts().len() && 0 <= i < self.rts()[r].len()
                ==> 0 < #[trigger] self.rts()[r][i] < inst.n()
    }

    pub fn new(routes: Vec<Vec<ClientId>>) -> (p: RoutingPlan)
        ensures
            p.routes@ == routes@,
    {
        RoutingPlan { routes }
    }

    /// Checks the three structural invariants and names the first one that
    /// fails: fleet size, then exact customer coverage, then capacity.
    pub fn feasible(&self, problem: &VehicleRoutingProblem) -> (r: Result<(), InfeasibleError>)
        requires
            problem.wf(),
        ensures
            match r {
                Ok(()) => self.spec_feasible(*problem),
                Err(InfeasibleError::TooManyVehicles) => self.rts().len() > problem.number_of_vehicles,
                Err(InfeasibleError::InvalidTour) => {
                    &&& self.rts().len() <= problem.number_of_vehicles
                    &&& !spec_coverage_ok(self.rts(), problem.number_of_customers as int)
                },
                Err(InfeasibleError::ExceedsVehicleCapacity) => {
                    &&& self.rts().len() <= problem.number_of_vehicles
                    &&& spec_coverage_ok(self.rts(), problem.number_of_customers as int)
                    &&& !spec_capacity_ok(*problem, self.rts())
                },
            },
    {
        let ncust = problem.number_of_customers;
        proof {
            assert(ncust < 1_000_000);
        }
        if self.routes.len() > problem.number_of_vehicles {
            return Err(InfeasibleError::TooManyVehicles);
        }

        let mut seen: Vec<bool> = Vec::new();
        let mut v: usize = 0;
        while v <= ncust
            invariant
                ncust < 1_000_000,
                v <= ncust + 1,
                seen@.len() == v,
                forall|k: int| 0 <= k < v ==> !(#[trigger] seen@[k]),
            decreases ncust - v + 1,
        {
            seen.push(false);
            v += 1;
        }

        let ghost rts = self.rts();
        let mut r: usize = 0;
        while r < self.routes.len()
            invariant
                r <= rts.len(),
                rts == self.rts(),
                rts.len() == self.routes@.len(),
                rts.len() <= problem.number_of_vehicles,
                ncust == problem.number_of_customers,
                seen@.len() == ncust + 1,
                forall|a: int, i: int| 0 <= a < r && 0 <= i < rts[a].len()
                    ==> 1 <= #[trigger] rts[a][i] <= ncust,
                forall|c2: ClientId| 1 <= c2 <= ncust
                    ==> (#[trigger] count_in_plan(rts.take(r as int), c2))
                        == if seen@[c2 as int] { 1int } else { 0int },
            decreases rts.len() - r,
        {
            let route = &self.routes[r];
            let ghost rseq = rts[r as int];
            let mut i: usize = 0;
            while i < route.len()
                invariant
                    i <= rseq.len(),
                    rseq == rts[r as int],
                    r < rts.len(),
                    rts == self.rts(),
                    rts.len() == self.routes@.len(),
                    rts.len() <= problem.number_of_vehicles,
                    route@ == rseq,
                    ncust == problem.number_of_customers,
                    seen@.len() == ncust + 1,
                    forall|k: int| 0 <= k < i ==> 1 <= #[trigger] rseq[k] <= ncust,
                    forall|c2: ClientId| 1 <= c2 <= ncust
                        ==> (#[trigger] count_in_plan(rts.take(r as int), c2))
                                + count_in_route(rseq.take(i as int), c2)
                            == if seen@[c2 as int] { 1int } else { 0int },
                decreases rseq.len() - i,
            {
                let c = route[i];
                if c == 0 || c > ncust {
                    proof {
                        assert(rts[r as int][i as int] == c);
                    }
                    return Err(InfeasibleError::InvalidTour);
                }
                proof {
                    lemma_count_route_take_step(rseq, i as int, c);
                    lemma_count_route_take_le(rseq, i + 1, c);
                    lemma_count_plan_take_step(rts, r as int, c);
                    lemma_count_plan_take_le(rts, r + 1, c);
                }
                if seen[c] {
                    // a second occurrence: the whole plan counts it at least twice
                    proof {
                        assert(count_in_plan(rts, c) >= 2);
                        assert(!spec_coverage_ok(rts, ncust as int)) by {
                            assert(count_in_plan(rts, (c as int) as usize) != 1);
                        }
                    }
                    return Err(InfeasibleError::InvalidTour);
                }
                let ghost seen0 = seen@;
                seen.set(c, true);
                proof {
                    assert forall|c2: ClientId| 1 <= c2 <= ncust
                        implies (#[trigger] count_in_plan(rts.take(r as int), c2))
                                + count_in_route(rseq.take(i + 1), c2)
                            == if seen@[c2 as int] { 1int } else { 0int }
                    by {
                        lemma_count_route_take_step(rseq, i as int, c2);
                    }
                }
                i += 1;
            }
            proof {
                assert(rseq.take(rseq.len() as int) =~= rseq);
                assert forall|c2: ClientId| 1 <= c2 <= ncust
                    implies (#[trigger] count_in_plan(rts.take(r + 1), c2))
                        == if seen@[c2 as int] { 1int } else { 0int }
                by {
                    lemma_count_plan_take_step(rts, r as int, c2);
                }
            }
            r += 1;
        }
        proof {
            assert(rts.take(rts.len() as int) =~= rts);
        }

        let mut c: usize = 1;
        while c <= ncust
            invariant
                ncust < 1_000_000,
                1 <= c <= ncust + 1,
                rts == self.rts(),
                rts.len() <= problem.number_of_vehicles,
                ncust == problem.number_of_customers,
                seen@.len() == ncust + 1,
                forall|c2: ClientId| 1 <= c2 <= ncust
                    ==> (#[trigger] count_in_plan(rts, c2)) == if seen@[c2 as int] { 1int } else { 0int },
                forall|k: int| 1 <= k < c ==> #[trigger] seen@[k],
            decreases ncust - c + 1,
        {
            if !seen[c] {
                proof {
                    assert(count_in_plan(rts, c) == 0);
                    assert(!spec_coverage_ok(rts, ncust as int)) by {
                        assert(count_in_plan(rts, (c as int) as usize) != 1);
                    }
                }
                return Err(InfeasibleError::InvalidTour);
            }
            c += 1;
        }
        proof {
            assert forall|c2: int| 1 <= c2 <= ncust
                implies #[trigger] count_in_plan(rts, c2 as usize) == 1
            by {
                let cu: ClientId = c2 as usize;
                assert(seen@[cu as int]);
                assert(count_in_plan(rts, cu) == 1);
            }
            assert(spec_coverage_ok(rts, ncust as int));
        }

        let cap = problem.vehicle_capacity as u64;
        let mut r: usize = 0;
        while r < self.routes.len()
            invariant
                r <= rts.len(),
                rts == self.rts(),
                rts.len() == self.routes@.len(),
                rts.len() <= problem.number_of_vehicles,
                ncust == problem.number_of_customers,
                problem.wf(),
                cap == problem.vehicle_capacity,
                spec_coverage_ok(rts, ncust as int),
                forall|a: int, i: int| 0 <= a < rts.len() && 0 <= i < rts[a].len()
                    ==> 1 <= #[trigger] rts[a][i] <= ncust,
                forall|a: int| 0 <= a < r
                    ==> spec_route_demand(*problem, #[trigger] rts[a]) <= problem.vehicle_capacity,
            decreases rts.len() - r,
        {
            let route = &self.routes[r];
            let ghost rseq = rts[r as int];
            let mut acc: u64 = 0;
            let mut i: usize = 0;
            while i < route.len()
                invariant
                    i <= rseq.len(),
                    rseq == rts[r as int],
                    r < rts.len(),
                    rts == self.rts(),
                    rts.len() <= problem.number_of_vehicles,
                    route@ == rseq,
                    problem.wf(),
                    ncust == problem.number_of_customers,
                    cap == problem.vehicle_capacity,
                    spec_coverage_ok(rts, ncust as int),
                    forall|k: int| 0 <= k < rseq.len() ==> 1 <= #[trigger] rseq[k] <= ncust,
                    acc as int == spec_route_demand(*problem, rseq.take(i as int)),
                    acc <= cap,
                decreases rseq.len() - i,
            {
                let d = problem.demand(route[i]);
                proof {
                    assert(rseq.take(i + 1).drop_last() =~= rseq.take(i as int));
                    assert(rseq.take(i + 1).last() == rseq[i as int]);
                }
                acc = acc + d as u64;
                if acc > cap {
                    proof {
                        lemma_route_demand_take_le(*problem, rseq, i + 1);
                        assert(spec_route_demand(*problem, rts[r as int]) > problem.vehicle_capacity);
                    }
                    return Err(InfeasibleError::ExceedsVehicleCapacity);
                }
                i += 1;
            }
            proof {
                assert(rseq.take(rseq.len() as int) =~= rseq);
            }
            r += 1;
        }
        Ok(())
    }

    /// Total travel distance: per route, the depot leg in, the consecutive
    /// legs, and the depot leg out; an empty route contributes nothing.
    pub fn value(&self, instance: &VehicleRoutingProblem) -> (val: u64)
        requires
            instance.wf(),
            self.in_bounds(*instance),
        ensures
            val as int == spec_plan_cost(instance.graph, self.rts()),
    {
        let ghost rts = self.rts();
        let ghost g = instance.graph;
        let mut total: u64 = 0;
        let mut r: usize = 0;
        while r < self.routes.len()
            invariant
                r <= rts.len(),
                rts == self.rts(),
                rts.len() == self.routes@.len(),
                instance.wf(),
                g == instance.graph,
                self.in_bounds(*instance),
                total as int == plan_cost_to(g, rts, r as int),
            decreases rts.len() - r,
        {
            proof {
                lemma_plan_cost_bounds(g, rts, r as int);
                lemma_total_len_take_le(rts, r as int);
            }
            let route = &self.routes[r];
            let ghost rseq = rts[r as int];
            let mut i: usize = 0;
            while i < route.len()
                invariant
                    i <= rseq.len(),
                    rseq == rts[r as int],
                    r < rts.len(),
                    rts == self.rts(),
                    route@ == rseq,
                    instance.wf(),
                    g == instance.graph,
                    self.in_bounds(*instance),
                    total as int == plan_cost_to(g, rts, r as int) + leg_cost_to(g, rseq, i as int),
                decreases rseq.len() - i,
            {
                proof {
                    lemma_plan_cost_bounds(g, rts, r as int);
                    lemma_total_len_take_le(rts, r as int);
                    lemma_leg_cost_bounds(g, rseq, i as int);
                    lemma_total_len_nonneg(rts.take(r as int));
                    let t0 = total_len(rts.take(r as int));
                    assert((t0 + r as int) * 300_000_000 + (i as int) * 300_000_000 + 300_000_000
                        <= 0xffff_ffff_ffff_ffff) by (nonlinear_arith)
                        requires
                            0 <= t0,
                            0 <= r,
                            0 <= i,
                            t0 + i <= 1_000_000_000,
                            r <= 1_000_000,
                    ;
                }
                let prev: ClientId = if i == 0 {
                    0
                } else {
                    route[i - 1]
                };
                let d = instance.graph.distance(route[i], prev);
                total = total + d;
                i += 1;
            }
            if route.len() > 0 {
                proof {
                    lemma_plan_cost_bounds(g, rts, r as int);
                    lemma_total_len_take_le(rts, r as int);
                    lemma_leg_cost_bounds(g, rseq, rseq.len() as int);
                    lemma_total_len_nonneg(rts.take(r as int));
                    let t0 = total_len(rts.take(r as int));
                    let l = rseq.len() as int;
                    assert((t0 + r as int) * 300_000_000 + l * 300_000_000 + 300_000_000
                        <= 0xffff_ffff_ffff_ffff) by (nonlinear_arith)
                        requires
                            0 <= t0,
                            0 <= r,
                            0 <= l,
                            t0 + l <= 1_000_000_000,
                            r <= 1_000_000,
                    ;
                }
                let d = instance.graph.distance(route[route.len() - 1], 0);
                total = total + d;
            }
            r += 1;
        }
        total
    }

    /// First position with minimal insertion cost for `client` in route
    /// `route_idx`.
    fn lowest_cost_position(&self, instance: &VehicleRoutingProblem, client: ClientId, route_idx: usize) -> (r: (usize, i64))
        requires
            instance.wf(),
            self.in_bounds(*instance),
            route_idx < self.routes@.len(),
            client < instance.n(),
        ensures
            best_first_position(instance.graph, self.rts()[route_idx as int], client, r.0 as int),
            r.1 as int == insertion_cost(instance.graph, self.rts()[route_idx as int], client, r.0 as int),
    {
        let route = &self.routes[route_idx];
        let ghost rseq = self.rts()[route_idx as int];
        proof {
            assert forall|k: int| 0 <= k < rseq.len() implies #[trigger] rseq[k] < instance.n() by {
                assert(0 < self.rts()[route_idx as int][k] < instance.n());
            }
        }
        proof {
            lemma_total_len_take_le(self.rts(), route_idx as int);
            lemma_total_len_nonneg(self.rts().take(route_idx as int));
        }
        let len = route.len();
        let mut best_index: usize = 0;
        let mut best_cost: i64 = insertion_cost_at(instance, route, client, 0);
        let mut i: usize = 1;
        while i <= len
            invariant
                1 <= i <= len + 1,
                len <= 1_000_000_000,
                len == rseq.len(),
                route@ == rseq,
                instance.wf(),
                client < instance.n(),
                forall|k: int| 0 <= k < rseq.len() ==> #[trigger] rseq[k] < instance.n(),
                best_index < i,
                best_index <= len,
                best_cost as int == insertion_cost(instance.graph, rseq, client, best_index as int),
                forall|j: int| 0 <= j < i
                    ==> #[trigger] insertion_cost(instance.graph, rseq, client, j) >= best_cost,
                forall|j: int| 0 <= j < best_index
                    ==> #[trigger] insertion_cost(instance.graph, rseq, client, j) > best_cost,
            decreases len + 1 - i,
        {
            let cost = insertion_cost_at(instance, route, client, i);
            if cost < best_cost {
                best_index = i;
                best_cost = cost;
            }
            i += 1;
        }
        (best_index, best_cost)
    }

    /// Inserts `client` at the overall cheapest position: the route and the
    /// position of least insertion cost, the first of each on ties.
    fn insert_cost(&mut self, instance: &VehicleRoutingProblem, client: ClientId)
        requires
            instance.wf(),
            old(self).in_bounds(*instance),
            old(self).routes@.len() >= 1,
            0 < client < instance.n(),
            total_len(old(self).rts()) < 1_000_000_000,
        ensures
            exists|rb: int, pb: int|
                #[trigger] is_cheapest_insert(instance.graph, old(self).rts(), final(self).rts(), client, rb, pb),
            final(self).rts().len() == old(self).rts().len(),
            forall|c2: ClientId| #[trigger] count_in_plan(final(self).rts(), c2)
                == count_in_plan(old(self).rts(), c2) + if c2 == client { 1int } else { 0int },
            total_len(final(self).rts()) == total_len(old(self).rts()) + 1,
            final(self).in_bounds(*instance),
    {
        let ghost old_rts = self.rts();
        let (p0, c0) = self.lowest_cost_position(instance, client, 0);
        let mut best_route: usize = 0;
        let mut best_pos: usize = p0;
        let mut best_cost: i64 = c0;
        let mut r: usize = 1;
        while r < self.routes.len()
            invariant
                1 <= r <= old_rts.len(),
                old_rts == self.rts(),
                old_rts.len() == self.routes@.len(),
                instance.wf(),
                self.in_bounds(*instance),
                0 < client < instance.n(),
                best_route < r,
                best_first_position(instance.graph, old_rts[best_route as int], client, best_pos as int),
                best_cost as int == insertion_cost(instance.graph, old_rts[best_route as int], client, best_pos as int),
                forall|r2: int, j: int| 0 <= r2 < r && 0 <= j <= old_rts[r2].len()
                    ==> #[trigger] insertion_cost(instance.graph, old_rts[r2], client, j) >= best_cost,
                forall|r2: int, j: int| 0 <= r2 < best_route && 0 <= j <= old_rts[r2].len()
                    ==> #[trigger] insertion_cost(instance.graph, old_rts[r2], client, j) > best_cost,
            decreases old_rts.len() - r,
        {
            let (p, c) = self.lowest_cost_position(instance, client, r);
            if c < best_cost {
                best_route = r;
                best_pos = p;
                best_cost = c;
            }
            r += 1;
        }
        let ghost rb = best_route as int;
        let ghost pb = best_pos as int;
        let ghost inner0 = old_rts[rb];
        self.routes[best_route].insert(best_pos, client);
        proof {
            assert(self.rts() =~= old_rts.update(rb, inner0.insert(pb, client)));
            assert(is_cheapest_insert(instance.graph, old_rts, self.rts(), client, rb, pb));
            assert forall|c2: ClientId| #[trigger] count_in_plan(self.rts(), c2)
                == count_in_plan(old_rts, c2) + if c2 == client { 1int } else { 0int }
            by {
                lemma_plan_update(old_rts, rb, inner0.insert(pb, client), c2);
                lemma_count_route_insert(inner0, pb, client, c2);
            }
            lemma_plan_update(old_rts, rb, inner0.insert(pb, client), client);
            assert forall|r2: int, i2: int|
                0 <= r2 < self.rts().len() && 0 <= i2 < self.rts()[r2].len()
                implies 0 < #[trigger] self.rts()[r2][i2] < instance.n()
            by {
                if r2 == rb {
                    assert(self.rts()[r2] == inner0.insert(pb, client));
                    if i2 < pb {
                        assert(self.rts()[r2][i2] == inner0[i2]);
                        assert(0 < old_rts[rb][i2] < instance.n());
                    } else if i2 == pb {
                    } else {
                        assert(self.rts()[r2][i2] == inner0[i2 - 1]);
                        assert(0 < old_rts[rb][i2 - 1] < instance.n());
                    }
                } else {
                    assert(0 < old_rts[r2][i2] < instance.n());
                }
            }
        }
    }

    /// Inserts `client` into a route picked by its randomized proximity
    /// score (best average neighbour rank), at that route's cheapest
    /// position; with no usable score the first route is used.
    fn insert_distance(&mut self, instance: &VehicleRoutingProblem, client: ClientId, rng: &mut RandomSource)
        requires
            instance.wf(),
            old(self).in_bounds(*instance),
            1 <= old(self).routes@.len() <= instance.n(),
            0 < client < instance.n(),
            total_len(old(self).rts()) < 1_000_000_000,
        ensures
            exists|rb: int, pb: int|
                #[trigger] is_best_position_insert(instance.graph, old(self).rts(), final(self).rts(), client, rb, pb),
            exists|rb: int, pb: int, scores: Seq<Option<(u64, u64)>>|
                #[trigger] is_proximity_insert(instance.graph, old(self).rts(), final(self).rts(), client, rb, pb, scores),
            final(self).rts().len() == old(self).rts().len(),
            forall|c2: ClientId| #[trigger] count_in_plan(final(self).rts(), c2)
                == count_in_plan(old(self).rts(), c2) + if c2 == client { 1int } else { 0int },
            total_len(final(self).rts()) == total_len(old(self).rts()) + 1,
            final(self).in_bounds(*instance),
    {
        let ghost old_rts = self.rts();
        let num_routes = self.routes.len();
        let mut best_route: usize = 0;
        let mut best_score: Option<(u64, u64)> = None;
        let ghost mut scores: Seq<Option<(u64, u64)>> = Seq::empty();
        let mut r: usize = 0;
        while r < self.routes.len()
            invariant
                r <= old_rts.len(),
                old_rts == self.rts(),
                old_rts.len() == self.routes@.len(),
                num_routes == old_rts.len(),
                1 <= num_routes <= instance.n(),
                instance.wf(),
                self.in_bounds(*instance),
                client < instance.n(),
                best_route < num_routes,
                scores.len() == r,
                forall|r2: int| 0 <= r2 < r
                    ==> proximity_score_consistent(instance.graph, client, old_rts[r2], old_rts.len() as int, #[trigger] scores[r2]),
                match best_score {
                    Some(s) => {
                        &&& 1 <= s.1 <= 1_000_000
                        &&& s.0 <= 1_000_000_000_000
                        &&& best_route < r
                        &&& scores[best_route as int] == best_score
                        &&& forall|r2: int| 0 <= r2 < r ==> !score_better(#[trigger] scores[r2], best_score)
                        &&& forall|r2: int| 0 <= r2 < best_route ==> score_better(best_score, #[trigger] scores[r2])
                    },
                    None => best_route == 0
                        && forall|r2: int| 0 <= r2 < r ==> (#[trigger] scores[r2]) is None,
                },
            decreases old_rts.len() - r,
        {
            let score = instance.graph.proximity(client, &self.routes[r], num_routes, rng);
            proof {
                scores = scores.push(score);
            }
            match (score, best_score) {
                (Some(sc), Some(best)) => {
                    proof {
                        assert(sc.0 * best.1 <= 1_000_000_000_000_000_000u64 && best.0 * sc.1 <= 1_000_000_000_000_000_000u64)
                            by (nonlinear_arith)
                            requires
                                sc.0 <= 1_000_000_000_000u64,
                                best.0 <= 1_000_000_000_000u64,
                                sc.1 <= 1_000_000u64,
                                best.1 <= 1_000_000u64,
                        ;
                    }
                    if sc.0 * best.1 < best.0 * sc.1 {
                        proof {
                            assert(score_better(Some(sc), Some(best)));
                            assert forall|r2: int| 0 <= r2 < r
                                implies score_better(Some(sc), #[trigger] scores[r2])
                            by {
                                lemma_score_better_trans(Some(sc), Some(best), scores[r2]);
                            }
                        }
                        best_route = r;
                        best_score = Some(sc);
                    }
                },
                (Some(sc), None) => {
                    best_route = r;
                    best_score = Some(sc);
                },
                _ => {},
            }
            r += 1;
        }
        proof {
            if best_score is Some {
                assert(chosen_by_proximity(scores, best_route as int));
            } else {
                assert(chosen_by_proximity(scores, best_route as int));
            }
        }
        let ghost rb = best_route as int;
        let (p, _) = self.lowest_cost_position(instance, client, best_route);
        let ghost pb = p as int;
        let ghost inner0 = old_rts[rb];
        self.routes[best_route].insert(p, client);
        proof {
            assert(self.rts() =~= old_rts.update(rb, inner0.insert(pb, client)));
            assert(is_best_position_insert(instance.graph, old_rts, self.rts(), client, rb, pb));
            assert(is_proximity_insert(instance.graph, old_rts, self.rts(), client, rb, pb, scores));
            assert forall|c2: ClientId| #[trigger] count_in_plan(self.rts(), c2)
                == count_in_plan(old_rts, c2) + if c2 == client { 1int } else { 0int }
            by {
                lemma_plan_update(old_rts, rb, inner0.insert(pb, client), c2);
                lemma_count_route_insert(inner0, pb, client, c2);
            }
            lemma_plan_update(old_rts, rb, inner0.insert(pb, client), client);
            assert forall|r2: int, i2: int|
                0 <= r2 < self.rts().len() && 0 <= i2 < self.rts()[r2].len()
                implies 0 < #[trigger] self.rts()[r2][i2] < instance.n()
            by {
                if r2 == rb {
                    assert(self.rts()[r2] == inner0.insert(pb, client));
                    if i2 < pb {
                        assert(self.rts()[r2][i2] == inner0[i2]);
                        assert(0 < old_rts[rb][i2] < instance.n());
                    } else if i2 == pb {
                    } else {
                        assert(self.rts()[r2][i2] == inner0[i2 - 1]);
                        assert(0 < old_rts[rb][i2 - 1] < instance.n());
                    }
                } else {
                    assert(0 < old_rts[r2][i2] < instance.n());
                }
            }
        }
    }

    /// Inserts `client` with the chosen heuristic.
    pub fn insert(&mut self, instance: &VehicleRoutingProblem, client: ClientId, method: InsertionHeuristic, rng: &mut RandomSource)
        requires
            instance.wf(),
            old(self).in_bounds(*instance),
            old(self).routes@.len() >= 1,
            method == InsertionHeuristic::Distance ==> old(self).routes@.len() <= instance.n(),
            0 < client < instance.n(),
            total_len(old(self).rts()) < 1_000_000_000,
        ensures
            exists|rb: int, pb: int|
                #[trigger] is_best_position_insert(instance.graph, old(self).rts(), final(self).rts(), client, rb, pb),
            method == InsertionHeuristic::Cost ==> exists|rb: int, pb: int|
                #[trigger] is_cheapest_insert(instance.graph, old(self).rts(), final(self).rts(), client, rb, pb),
            method == InsertionHeuristic::Distance ==> exists|rb: int, pb: int, scores: Seq<Option<(u64, u64)>>|
                #[trigger] is_proximity_insert(instance.graph, old(self).rts(), final(self).rts(), client, rb, pb, scores),
            final(self).rts().len() == old(self).rts().len(),
            forall|c2: ClientId| #[trigger] count_in_plan(final(self).rts(), c2)
                == count_in_plan(old(self).rts(), c2) + if c2 == client { 1int } else { 0int },
            total_len(final(self).rts()) == total_len(old(self).rts()) + 1,
            final(self).in_bounds(*instance),
    {
        match method {
            InsertionHeuristic::Cost => {
                self.insert_cost(instance, client);
                proof {
                    let (rb, pb) = choose|rb: int, pb: int|
                        #[trigger] is_cheapest_insert(instance.graph, old(self).rts(), self.rts(), client, rb, pb);
                    assert(is_best_position_insert(instance.graph, old(self).rts(), self.rts(), client, rb, pb));
                }
            },
            InsertionHeuristic::Distance => self.insert_distance(instance, client, rng),
        }
    }

    /// Removes up to `size` consecutive stops, starting at the first
    /// occurrence of `client` in the first route that holds it (bounded by
    /// the end of that route).
    fn remove_sequential(&mut self, client: ClientId, size: usize)
        requires
            plan_has(old(self).rts(), client),
        ensures
            final(self).rts() == sequential_removal_result(old(self).rts(), client, size as int),
    {
        let ghost rts0 = self.rts();
        proof {
            lemma_first_route_props(rts0, client);
        }
        let mut rb: usize = 0;
        let mut found = false;
        let mut r: usize = 0;
        while r < self.routes.len()
            invariant
                r <= rts0.len(),
                rts0 == self.rts(),
                rts0.len() == self.routes@.len(),
                !found ==> forall|k: int| 0 <= k < r ==> !(#[trigger] rts0[k]).contains(client),
                found ==> rb < rts0.len() && rts0[rb as int].contains(client)
                    && forall|k: int| 0 <= k < rb ==> !(#[trigger] rts0[k]).contains(client),
            decreases rts0.len() - r,
        {
            if !found && route_contains(&self.routes[r], client) {
                rb = r;
                found = true;
            }
            r += 1;
        }
        proof {
            if !found {
                let w = choose|w: int| 0 <= w < rts0.len() && (#[trigger] rts0[w]).contains(client);
                assert(false);
            }
            lemma_first_route_found(rts0, client, rb as int);
        }

        let ib = position_of(&self.routes[rb], client);
        let route_len = self.routes[rb].len();
        let m = if size <= route_len - ib {
            size
        } else {
            route_len - ib
        };
        let ghost inner0 = rts0[rb as int];
        proof {
            assert(inner0.take(ib as int) + inner0.subrange(ib as int, inner0.len() as int) =~= inner0);
            assert(rts0.update(rb as int, inner0) =~= rts0);
        }
        let mut t: usize = 0;
        while t < m
            invariant
                t <= m,
                rb < rts0.len(),
                rts0.len() == self.routes@.len(),
                ib + m <= inner0.len(),
                inner0 == rts0[rb as int],
                self.rts() == rts0.update(
                    rb as int,
                    inner0.take(ib as int) + inner0.subrange(ib + t, inner0.len() as int),
                ),
                self.routes@[rb as int]@.len() == inner0.len() - t,
            decreases m - t,
        {
            let ghost cur = self.rts();
            self.routes[rb].remove(ib);
            proof {
                assert(self.rts() =~= cur.update(rb as int, cur[rb as int].remove(ib as int)));
                assert(cur[rb as int].remove(ib as int)
                    =~= inner0.take(ib as int) + inner0.subrange(ib + t + 1, inner0.len() as int));
                assert(self.rts() =~= rts0.update(
                    rb as int,
                    inner0.take(ib as int) + inner0.subrange(ib + t + 1, inner0.len() as int),
                ));
            }
            t += 1;
        }
    }

    /// Removes `client` together with its `size - 1` nearest neighbours
    /// (as far as the ranking has them), each by a sequential removal of
    /// one stop.
    fn remove_concentric(&mut self, instance: &VehicleRoutingProblem, client: ClientId, size: usize)
        requires
            instance.wf(),
            client < instance.n(),
            size >= 1,
            forall|c2: ClientId|
                #[trigger] concentric_targets(instance.graph, client, size as int).contains(c2)
                ==> plan_has(old(self).rts(), c2),
        ensures
            final(self).rts() == remove_fold(
                old(self).rts(),
                concentric_targets(instance.graph, client, size as int),
            ),
    {
        let ghost rts0 = self.rts();
        let list = instance.graph.neighbors(client);
        let ghost l = instance.graph.ranked(client as int);
        let take = if size - 1 <= list.len() {
            size - 1
        } else {
            list.len()
        };
        let mut targets: Vec<ClientId> = Vec::new();
        let mut j: usize = 0;
        while j < take
            invariant
                j <= take,
                take <= list@.len(),
                l == list@,
                targets@ == l.take(j as int),
            decreases take - j,
        {
            targets.push(list[j]);
            proof {
                assert(targets@ =~= l.take(j + 1));
            }
            j += 1;
        }
        targets.push(client);
        let ghost ts = concentric_targets(instance.graph, client, size as int);
        proof {
            assert(take as int == if size - 1 <= l.len() {
                size - 1
            } else {
                l.len() as int
            });
            assert(targets@ == ts);
            assert(instance.graph.ranked_list_wf(client as int));
            assert forall|c2: ClientId| #[trigger] ts.contains(c2) implies plan_has(rts0, c2) by {
                assert(concentric_targets(instance.graph, client, size as int).contains(c2));
            }
            assert(ts.take(0) =~= Seq::<ClientId>::empty());
        }

        let mut k: usize = 0;
        while k < targets.len()
            invariant
                k <= ts.len(),
                targets@ == ts,
                ts.len() >= 1,
                instance.wf(),
                instance.graph.ranked_list_wf(client as int),
                ts == l.take(take as int).push(client),
                take <= l.len(),
                l == instance.graph.ranked(client as int),
                self.rts() == remove_fold(rts0, ts.take(k as int)),
                forall|c2: ClientId| #[trigger] ts.contains(c2) ==> plan_has(rts0, c2),
                forall|c2: ClientId| count_in_plan(self.rts(), c2)
                    == count_in_plan(rts0, c2)
                        - if ts.take(k as int).contains(c2) { 1int } else { 0int },
            decreases ts.len() - k,
        {
            let target = targets[k];
            proof {
                assert(ts[k as int] == target);
                assert(ts.contains(target));
                // the target is still present: its one removal has not happened
                assert(!ts.take(k as int).contains(target)) by {
                    lemma_targets_distinct(instance.graph, client, take as int, k as int);
                }
                lemma_count_plan_contains(rts0, target);
                lemma_count_plan_contains(self.rts(), target);
                assert(plan_has(self.rts(), target));
            }
            let ghost pre = self.rts();
            self.remove_sequential(target, 1);
            proof {
                lemma_first_route_props(pre, target);
                let fr = first_route_idx(pre, target);
                lemma_first_index_props(pre[fr], target);
                let fi = first_index_of(pre[fr], target);
                assert(pre[fr].take(fi) + pre[fr].subrange(fi + 1, pre[fr].len() as int)
                    =~= pre[fr].remove(fi));
                assert(self.rts() == remove_one(pre, target));
                assert(ts.take(k + 1) =~= ts.take(k as int).push(target));
                assert(remove_fold(rts0, ts.take(k + 1)) == self.rts()) by {
                    lemma_remove_fold_snoc(rts0, ts.take(k as int), target);
                }
                assert forall|c2: ClientId| count_in_plan(self.rts(), c2)
                    == count_in_plan(rts0, c2)
                        - if ts.take(k + 1).contains(c2) { 1int } else { 0int }
                by {
                    lemma_remove_one_counts(pre, target, c2);
                    assert(count_in_plan(pre, c2) == count_in_plan(rts0, c2)
                        - if ts.take(k as int).contains(c2) { 1int } else { 0int });
                    if c2 == target {
                        assert(ts.take(k + 1)[k as int] == c2);
                        assert(ts.take(k + 1).contains(c2));
                    } else {
                        if ts.take(k + 1).contains(c2) {
                            let w = choose|w: int| 0 <= w < k + 1 && #[trigger] ts.take(k + 1)[w] == c2;
                            assert(w != k);
                            assert(ts.take(k as int)[w] == c2);
                        }
                        if ts.take(k as int).contains(c2) {
                            let w = choose|w: int| 0 <= w < k && #[trigger] ts.take(k as int)[w] == c2;
                            assert(ts.take(k + 1)[w] == c2);
                        }
                    }
                }
            }
            k += 1;
        }
        proof {
            assert(ts.take(ts.len() as int) =~= ts);
        }
    }

    /// Removes customers with the chosen heuristic: `size` consecutive
    /// stops from `client`'s position, or `client` with its `size - 1`
    /// nearest neighbours.
    pub fn remove(&mut self, instance: &VehicleRoutingProblem, client: ClientId, size: usize, method: RemovalHeuristic)
        requires
            instance.wf(),
            client < instance.n(),
            method == RemovalHeuristic::Concentric ==> size >= 1,
            plan_has(old(self).rts(), client),
            method == RemovalHeuristic::Concentric
                ==> forall|c2: ClientId|
                    #[trigger] concentric_targets(instance.graph, client, size as int).contains(c2)
                    ==> plan_has(old(self).rts(), c2),
        ensures
            method == RemovalHeuristic::Sequential
                ==> final(self).rts() == sequential_removal_result(old(self).rts(), client, size as int),
            method == RemovalHeuristic::Concentric
                ==> final(self).rts() == remove_fold(
                    old(self).rts(),
                    concentric_targets(instance.graph, client, size as int),
                ),
    {
        match method {
            RemovalHeuristic::Concentric => {
                proof {
                    assert(method == RemovalHeuristic::Concentric);
                }
                self.remove_concentric(instance, client, size);
            },
            RemovalHeuristic::Sequential => self.remove_sequential(client, size),
        }
    }

    /// Scans every route and remembers the latest one holding `c`.
    fn find_last_route(&self, c: ClientId) -> (r: Option<usize>)
        ensures
            match r {
                Some(idx) => idx < self.rts().len()
                    && idx as int == last_route_idx(self.rts(), c)
                    && self.rts()[idx as int].contains(c)
                    && plan_has(self.rts(), c),
                None => !plan_has(self.rts(), c),
            },
    {
        let ghost rts = self.rts();
        let mut found = false;
        let mut at: usize = 0;
        let mut r: usize = 0;
        while r < self.routes.len()
            invariant
                r <= rts.len(),
                rts == self.rts(),
                rts.len() == self.routes@.len(),
                !found ==> forall|k: int| 0 <= k < r ==> !(#[trigger] rts[k]).contains(c),
                found ==> at < r && rts[at as int].contains(c)
                    && forall|k: int| at < k < r ==> !(#[trigger] rts[k]).contains(c),
            decreases rts.len() - r,
        {
            if route_contains(&self.routes[r], c) {
                at = r;
                found = true;
            }
            r += 1;
        }
        if found {
            proof {
                lemma_last_route_found(rts, c, at as int);
            }
            Some(at)
        } else {
            proof {
                if plan_has(rts, c) {
                    let w = choose|w: int| 0 <= w < rts.len() && (#[trigger] rts[w]).contains(c);
                    assert(false);
                }
            }
            None
        }
    }

    /// Exchanges the positions of two clients inside their shared route;
    /// an absent client is an invalid tour, clients in different routes or
    /// at the same position are invalid arguments.
    pub fn intra_swap(&mut self, client1: ClientId, client2: ClientId) -> (res: Result<(), LocalSearchError>)
        ensures
            match res {
                Ok(()) => intra_swap_ok(old(self).rts(), client1, client2)
                    && final(self).rts() == intra_swap_result(old(self).rts(), client1, client2),
                Err(LocalSearchError::InvalidTour) =>
                    (!plan_has(old(self).rts(), client1) || !plan_has(old(self).rts(), client2))
                    && final(self).rts() == old(self).rts(),
                Err(LocalSearchError::InvalidArguments) =>
                    plan_has(old(self).rts(), client1) && plan_has(old(self).rts(), client2)
                    && !intra_swap_ok(old(self).rts(), client1, client2)
                    && final(self).rts() == old(self).rts(),
                Err(LocalSearchError::NoImprovement) => false,
            },
            final(self).rts().len() == old(self).rts().len(),
            total_len(final(self).rts()) == total_len(old(self).rts()),
            forall|c2: ClientId| #[trigger] count_in_plan(final(self).rts(), c2)
                == count_in_plan(old(self).rts(), c2),
    {
        let ghost rts0 = self.rts();
        let r1 = self.find_last_route(client1);
        let r2 = self.find_last_route(client2);
        let (r1, r2) = match (r1, r2) {
            (Some(r1), Some(r2)) => (r1, r2),
            _ => {
                return Err(LocalSearchError::InvalidTour);
            },
        };
        if r1 != r2 {
            return Err(LocalSearchError::InvalidArguments);
        }
        let i1 = position_of(&self.routes[r1], client1);
        let i2 = position_of(&self.routes[r2], client2);
        if i1 == i2 {
            return Err(LocalSearchError::InvalidArguments);
        }
        let ghost inner0 = rts0[r1 as int];
        let a = self.routes[r1][i1];
        let b = self.routes[r1][i2];
        self.routes[r1].set(i1, b);
        self.routes[r1].set(i2, a);
        proof {
            assert(self.rts() =~= rts0.update(
                r1 as int,
                inner0.update(i1 as int, inner0[i2 as int]).update(i2 as int, inner0[i1 as int]),
            ));
            assert(self.rts() == intra_swap_result(rts0, client1, client2));
            assert forall|c2: ClientId| #[trigger] count_in_plan(self.rts(), c2)
                == count_in_plan(rts0, c2)
            by {
                lemma_plan_update(
                    rts0,
                    r1 as int,
                    inner0.update(i1 as int, inner0[i2 as int]).update(i2 as int, inner0[i1 as int]),
                    c2,
                );
                lemma_count_route_swap(inner0, i1 as int, i2 as int, c2);
            }
            lemma_plan_update(
                rts0,
                r1 as int,
                inner0.update(i1 as int, inner0[i2 as int]).update(i2 as int, inner0[i1 as int]),
                client1,
            );
        }
        Ok(())
    }

    /// Scans forward for the first route holding `c`.
    fn find_first_route(&self, c: ClientId) -> (r: Option<usize>)
        ensures
            match r {
                Some(idx) => idx < self.rts().len()
                    && idx as int == first_route_idx(self.rts(), c)
                    && self.rts()[idx as int].contains(c)
                    && plan_has(self.rts(), c),
                None => !plan_has(self.rts(), c),
            },
    {
        let ghost rts = self.rts();
        let mut r: usize = 0;
        while r < self.routes.len()
            invariant
                r <= rts.len(),
                rts == self.rts(),
                rts.len() == self.routes@.len(),
                forall|k: int| 0 <= k < r ==> !(#[trigger] rts[k]).contains(c),
            decreases rts.len() - r,
        {
            if route_contains(&self.routes[r], c) {
                proof {
                    lemma_first_route_found(rts, c, r as int);
                }
                return Some(r);
            }
            r += 1;
        }
        proof {
            if plan_has(rts, c) {
                let w = choose|w: int| 0 <= w < rts.len() && (#[trigger] rts[w]).contains(c);
                assert(false);
            }
        }
        None
    }

    /// Relocates `client` within its own route to the position of least
    /// insertion cost; a client held by no route is an invalid tour and
    /// leaves the plan unchanged.
    pub fn intra_shift(&mut self, instance: &VehicleRoutingProblem, client: ClientId) -> (res: Result<(), LocalSearchError>)
        requires
            instance.wf(),
            old(self).in_bounds(*instance),
        ensures
            match res {
                Ok(()) => plan_has(old(self).rts(), client)
                    && exists|p: int| #[trigger] intra_shift_spec(instance.graph, old(self).rts(), final(self).rts(), client, p),
                Err(LocalSearchError::InvalidTour) => !plan_has(old(self).rts(), client)
                    && final(self).rts() == old(self).rts(),
                Err(LocalSearchError::InvalidArguments) => false,
                Err(LocalSearchError::NoImprovement) => false,
            },
            final(self).rts().len() == old(self).rts().len(),
            total_len(final(self).rts()) == total_len(old(self).rts()),
            forall|c2: ClientId| #[trigger] count_in_plan(final(self).rts(), c2)
                == count_in_plan(old(self).rts(), c2),
    {
        let ghost rts0 = self.rts();
        let fr = match self.find_first_route(client) {
            Some(fr) => fr,
            None => {
                return Err(LocalSearchError::InvalidTour);
            },
        };
        proof {
            lemma_has_in_bounds(rts0, client, instance.n());
        }
        let fi = position_of(&self.routes[fr], client);
        let (p, _) = self.lowest_cost_position(instance, client, fr);
        let ghost inner0 = rts0[fr as int];
        self.routes[fr].remove(fi);
        let shortened = self.routes[fr].len();
        let q = if p <= shortened {
            p
        } else {
            shortened
        };
        self.routes[fr].insert(q, client);
        proof {
            assert(self.rts() =~= rts0.update(fr as int, inner0.remove(fi as int).insert(q as int, client)));
            assert(intra_shift_spec(instance.graph, rts0, self.rts(), client, p as int));
            assert forall|c2: ClientId| #[trigger] count_in_plan(self.rts(), c2)
                == count_in_plan(rts0, c2)
            by {
                lemma_plan_update(rts0, fr as int, inner0.remove(fi as int).insert(q as int, client), c2);
                lemma_count_route_remove(inner0, fi as int, c2);
                lemma_count_route_insert(inner0.remove(fi as int), q as int, client, c2);
            }
            lemma_plan_update(rts0, fr as int, inner0.remove(fi as int).insert(q as int, client), client);
        }
        Ok(())
    }

    /// Exchanges two clients across their two routes, reinserting each into
    /// the other's route at least insertion cost; same-route clients are
    /// invalid arguments, absent clients an invalid tour.
    pub fn inter_swap(&mut self, instance: &VehicleRoutingProblem, client1: ClientId, client2: ClientId) -> (res: Result<(), LocalSearchError>)
        requires
            instance.wf(),
            old(self).in_bounds(*instance),
            client1 < instance.n(),
            client2 < instance.n(),
        ensures
            match res {
                Ok(()) => plan_has(old(self).rts(), client1) && plan_has(old(self).rts(), client2)
                    && last_route_idx(old(self).rts(), client1) != last_route_idx(old(self).rts(), client2)
                    && exists|p1: int, p2: int|
                        #[trigger] inter_swap_spec(instance.graph, old(self).rts(), final(self).rts(), client1, client2, p1, p2),
                Err(LocalSearchError::InvalidTour) =>
                    (!plan_has(old(self).rts(), client1) || !plan_has(old(self).rts(), client2))
                    && final(self).rts() == old(self).rts(),
                Err(LocalSearchError::InvalidArguments) =>
                    plan_has(old(self).rts(), client1) && plan_has(old(self).rts(), client2)
                    && last_route_idx(old(self).rts(), client1) == last_route_idx(old(self).rts(), client2)
                    && final(self).rts() == old(self).rts(),
                Err(LocalSearchError::NoImprovement) => false,
            },
            final(self).rts().len() == old(self).rts().len(),
            total_len(final(self).rts()) == total_len(old(self).rts()),
            forall|c2: ClientId| #[trigger] count_in_plan(final(self).rts(), c2)
                == count_in_plan(old(self).rts(), c2),
    {
        let ghost rts0 = self.rts();
        let r1 = self.find_last_route(client1);
        let r2 = self.find_last_route(client2);
        let (r1, r2) = match (r1, r2) {
            (Some(r1), Some(r2)) => (r1, r2),
            _ => {
                return Err(LocalSearchError::InvalidTour);
            },
        };
        if r1 == r2 {
            return Err(LocalSearchError::InvalidArguments);
        }
        let i1 = position_of(&self.routes[r1], client1);
        let i2 = position_of(&self.routes[r2], client2);
        let ghost a0 = rts0[r1 as int];
        let ghost b0 = rts0[r2 as int];
        self.routes[r1].remove(i1);
        self.routes[r2].remove(i2);
        proof {
            assert(self.rts() =~= rts0
                .update(r1 as int, a0.remove(i1 as int))
                .update(r2 as int, b0.remove(i2 as int)));
            lemma_total_len_nonneg(rts0);
            lemma_plan_update(rts0, r1 as int, a0.remove(i1 as int), client1);
            lemma_plan_update(
                rts0.update(r1 as int, a0.remove(i1 as int)),
                r2 as int,
                b0.remove(i2 as int),
                client1,
            );
            assert forall|x2: int, y2: int|
                0 <= x2 < self.rts().len() && 0 <= y2 < self.rts()[x2].len()
                implies 0 < #[trigger] self.rts()[x2][y2] < instance.n()
            by {
                if x2 == r1 {
                    let src: int = if y2 < i1 {
                        y2
                    } else {
                        y2 + 1
                    };
                    assert(self.rts()[x2][y2] == a0[src]);
                    assert(0 < rts0[r1 as int][src] < instance.n());
                } else if x2 == r2 {
                    let src: int = if y2 < i2 {
                        y2
                    } else {
                        y2 + 1
                    };
                    assert(self.rts()[x2][y2] == b0[src]);
                    assert(0 < rts0[r2 as int][src] < instance.n());
                } else {
                    assert(0 < rts0[x2][y2] < instance.n());
                }
            }
        }
        let (p1, _) = self.lowest_cost_position(instance, client1, r2);
        let ghost mid1 = self.rts();
        self.routes[r2].insert(p1, client1);
        proof {
            assert(self.rts() =~= rts0
                .update(r1 as int, a0.remove(i1 as int))
                .update(r2 as int, b0.remove(i2 as int).insert(p1 as int, client1)));
            assert(0 < client1) by {
                let w = choose|w: int| 0 <= w < rts0.len() && (#[trigger] rts0[w]).contains(client1);
                let y = choose|y: int| 0 <= y < rts0[w].len() && rts0[w][y] == client1;
            }
            assert forall|x2: int, y2: int|
                0 <= x2 < self.rts().len() && 0 <= y2 < self.rts()[x2].len()
                implies 0 < #[trigger] self.rts()[x2][y2] < instance.n()
            by {
                if x2 == r2 {
                    let ins = b0.remove(i2 as int).insert(p1 as int, client1);
                    assert(self.rts()[x2] == ins);
                    if y2 < p1 {
                        assert(ins[y2] == mid1[r2 as int][y2]);
                        assert(0 < mid1[r2 as int][y2] < instance.n());
                    } else if y2 == p1 {
                    } else {
                        assert(ins[y2] == mid1[r2 as int][y2 - 1]);
                        assert(0 < mid1[r2 as int][y2 - 1] < instance.n());
                    }
                } else {
                    assert(self.rts()[x2] == mid1[x2]);
                    assert(0 < mid1[x2][y2] < instance.n());
                }
            }
        }
        proof {
            let s1 = rts0.update(r1 as int, a0.remove(i1 as int));
            lemma_plan_update(rts0, r1 as int, a0.remove(i1 as int), client1);
            lemma_plan_update(s1, r2 as int, b0.remove(i2 as int).insert(p1 as int, client1), client1);
            assert(s1[r2 as int] == b0);
            assert(self.rts() =~= s1.update(r2 as int, b0.remove(i2 as int).insert(p1 as int, client1)));
            assert(total_len(self.rts()) == total_len(rts0) - 1);
            assert(self.in_bounds(*instance));
        }
        let (p2, _) = self.lowest_cost_position(instance, client2, r1);
        self.routes[r1].insert(p2, client2);
        proof {
            assert(self.rts() =~= rts0
                .update(r2 as int, b0.remove(i2 as int).insert(p1 as int, client1))
                .update(r1 as int, a0.remove(i1 as int).insert(p2 as int, client2)));
            assert(inter_swap_spec(instance.graph, rts0, self.rts(), client1, client2, p1 as int, p2 as int)) by {
                assert(a0.remove(i1 as int) == rts0
                    .update(r1 as int, a0.remove(i1 as int))
                    .update(r2 as int, b0.remove(i2 as int))[r1 as int]);
            }
            let fin = rts0
                .update(r2 as int, b0.remove(i2 as int).insert(p1 as int, client1))
                .update(r1 as int, a0.remove(i1 as int).insert(p2 as int, client2));
            assert forall|c2: ClientId| #[trigger] count_in_plan(self.rts(), c2)
                == count_in_plan(rts0, c2)
            by {
                let step1 = rts0.update(r2 as int, b0.remove(i2 as int).insert(p1 as int, client1));
                lemma_plan_update(rts0, r2 as int, b0.remove(i2 as int).insert(p1 as int, client1), c2);
                lemma_count_route_remove(b0, i2 as int, c2);
                lemma_count_route_insert(b0.remove(i2 as int), p1 as int, client1, c2);
                lemma_plan_update(step1, r1 as int, a0.remove(i1 as int).insert(p2 as int, client2), c2);
                lemma_count_route_remove(a0, i1 as int, c2);
                lemma_count_route_insert(a0.remove(i1 as int), p2 as int, client2, c2);
                assert(step1[r1 as int] == rts0[r1 as int]);
            }
            let step1 = rts0.update(r2 as int, b0.remove(i2 as int).insert(p1 as int, client1));
            lemma_plan_update(rts0, r2 as int, b0.remove(i2 as int).insert(p1 as int, client1), client1);
            lemma_plan_update(step1, r1 as int, a0.remove(i1 as int).insert(p2 as int, client2), client1);
            assert(step1[r1 as int] == rts0[r1 as int]);
        }
        Ok(())
    }

    /// Relocates `client` into a uniformly drawn other route, at least
    /// insertion cost, unless that route's demand would then exceed the
    /// capacity (then the plan is unchanged). A client held by no route,
    /// or a plan without a second route, is an invalid tour and leaves the
    /// plan unchanged.
    pub fn inter_shift(&mut self, instance: &VehicleRoutingProblem, client: ClientId, rng: &mut RandomSource) -> (res: Result<(), LocalSearchError>)
        requires
            instance.wf(),
            old(self).in_bounds(*instance),
        ensures
            match res {
                Ok(()) => plan_has(old(self).rts(), client)
                    && old(self).routes@.len() >= 2
                    && exists|tr: int| #[trigger] inter_shift_spec(*instance, old(self).rts(), final(self).rts(), client, tr),
                Err(LocalSearchError::InvalidTour) =>
                    (!plan_has(old(self).rts(), client) || old(self).routes@.len() < 2)
                    && final(self).rts() == old(self).rts(),
                Err(LocalSearchError::InvalidArguments) => false,
                Err(LocalSearchError::NoImprovement) => false,
            },
            final(self).rts().len() == old(self).rts().len(),
            total_len(final(self).rts()) == total_len(old(self).rts()),
            forall|c2: ClientId| #[trigger] count_in_plan(final(self).rts(), c2)
                == count_in_plan(old(self).rts(), c2),
    {
        let ghost rts0 = self.rts();
        if self.routes.len() < 2 {
            return Err(LocalSearchError::InvalidTour);
        }
        let fr = match self.find_first_route(client) {
            Some(fr) => fr,
            None => {
                return Err(LocalSearchError::InvalidTour);
            },
        };
        proof {
            lemma_has_in_bounds(rts0, client, instance.n());
        }
        let pick = rng.below(self.routes.len() - 1);
        let tr = if pick < fr {
            pick
        } else {
            pick + 1
        };
        proof {
            assert(tr != fr && tr < rts0.len());
        }

        let target = &self.routes[tr];
        let ghost tgt = rts0[tr as int];
        let mut acc: u64 = 0;
        let mut i: usize = 0;
        proof {
            lemma_total_len_take_le(rts0, tr as int);
            lemma_total_len_nonneg(rts0.take(tr as int));
        }
        while i < target.len()
            invariant
                i <= tgt.len(),
                tgt.len() <= 1_000_000_000,
                target@ == tgt,
                instance.wf(),
                forall|k: int| 0 <= k < tgt.len() ==> 0 < #[trigger] tgt[k] < instance.n(),
                acc as int == spec_route_demand(*instance, tgt.take(i as int)),
                acc as int <= 4_294_967_295int * (i as int),
            decreases tgt.len() - i,
        {
            let d = instance.demand(target[i]);
            proof {
                assert(tgt.take(i + 1).drop_last() =~= tgt.take(i as int));
                assert(tgt.take(i + 1).last() == tgt[i as int]);
                assert(4_294_967_295int * (i as int) + 4_294_967_295int
                    == 4_294_967_295int * ((i as int) + 1)) by (nonlinear_arith);
                assert(4_294_967_295int * ((i as int) + 1) <= 4_294_967_295_000_000_000int) by (nonlinear_arith)
                    requires
                        i as int + 1 <= 1_000_000_000,
                ;
            }
            acc = acc + d as u64;
            i += 1;
        }
        proof {
            assert(tgt.take(tgt.len() as int) =~= tgt);
        }
        let client_demand = instance.demand(client);
        if acc + client_demand as u64 > instance.vehicle_capacity as u64 {
            proof {
                assert(inter_shift_spec(*instance, rts0, self.rts(), client, tr as int));
            }
            return Ok(());
        }

        let fi = position_of(&self.routes[fr], client);
        let ghost src0 = rts0[fr as int];
        self.routes[fr].remove(fi);
        proof {
            assert(self.rts() =~= rts0.update(fr as int, src0.remove(fi as int)));
            assert forall|x2: int, y2: int|
                0 <= x2 < self.rts().len() && 0 <= y2 < self.rts()[x2].len()
                implies 0 < #[trigger] self.rts()[x2][y2] < instance.n()
            by {
                if x2 == fr {
                    let src: int = if y2 < fi {
                        y2
                    } else {
                        y2 + 1
                    };
                    assert(self.rts()[x2][y2] == src0[src]);
                    assert(0 < rts0[fr as int][src] < instance.n());
                } else {
                    assert(0 < rts0[x2][y2] < instance.n());
                }
            }
            lemma_total_len_nonneg(rts0);
            lemma_plan_update(rts0, fr as int, src0.remove(fi as int), client);
            assert(total_len(self.rts()) == total_len(rts0) - 1);
            assert(self.in_bounds(*instance));
        }
        let (p, _) = self.lowest_cost_position(instance, client, tr);
        self.routes[tr].insert(p, client);
        proof {
            assert(self.rts() =~= rts0
                .update(fr as int, src0.remove(fi as int))
                .update(tr as int, tgt.insert(p as int, client)));
            assert(rts0.update(fr as int, src0.remove(fi as int))[tr as int] == tgt);
            assert(inter_shift_spec(*instance, rts0, self.rts(), client, tr as int));
            let step1 = rts0.update(fr as int, src0.remove(fi as int));
            assert forall|c2: ClientId| #[trigger] count_in_plan(self.rts(), c2)
                == count_in_plan(rts0, c2)
            by {
                lemma_plan_update(rts0, fr as int, src0.remove(fi as int), c2);
                lemma_count_route_remove(src0, fi as int, c2);
                lemma_plan_update(step1, tr as int, tgt.insert(p as int, client), c2);
                lemma_count_route_insert(tgt, p as int, client, c2);
                assert(step1[tr as int] == tgt);
            }
            lemma_plan_update(rts0, fr as int, src0.remove(fi as int), client);
            lemma_plan_update(step1, tr as int, tgt.insert(p as int, client), client);
        }
        Ok(())
    }

    /// Draws a customer uniformly from all customers currently assigned to
    /// any route.
    fn pick_random_client(&self, rng: &mut RandomSource) -> (c: ClientId)
        requires
            total_len(self.rts()) >= 1,
            self.rts().len() <= 1_000_000,
            total_len(self.rts()) <= 1_000_000_000,
        ensures
            plan_has(self.rts(), c),
    {
        let ghost rts = self.rts();
        let mut total: usize = 0;
        let mut r: usize = 0;
        while r < self.routes.len()
            invariant
                r <= rts.len(),
                rts == self.rts(),
                rts.len() == self.routes@.len(),
                total_len(rts) <= 1_000_000_000,
                total as int == total_len(rts.take(r as int)),
                total <= 1_000_000_000,
            decreases rts.len() - r,
        {
            proof {
                lemma_total_len_take_step(rts, r as int);
                lemma_total_len_take_le(rts, r + 1);
            }
            total = total + self.routes[r].len();
            r += 1;
        }
        proof {
            assert(rts.take(rts.len() as int) =~= rts);
        }
        let mut idx = rng.below(total);
        let mut r: usize = 0;
        while r < self.routes.len()
            invariant
                r <= rts.len(),
                rts == self.rts(),
                rts.len() == self.routes@.len(),
                total as int == total_len(rts),
                (idx as int) + total_len(rts.take(r as int)) < total_len(rts),
            decreases rts.len() - r,
        {
            proof {
                lemma_total_len_take_step(rts, r as int);
            }
            if idx < self.routes[r].len() {
                let c = self.routes[r][idx];
                proof {
                    assert(rts[r as int].contains(c));
                }
                return c;
            }
            idx = idx - self.routes[r].len();
            r += 1;
        }
        proof {
            lemma_total_len_nonneg(rts);
            assert(rts.take(rts.len() as int) =~= rts);
            assert(false);
        }
        0
    }

    /// One iteration of the local search: a uniformly chosen neighborhood
    /// move applied to uniformly chosen clients; a move that does not apply
    /// (fewer than two routes, same-route arguments, and the like) leaves
    /// the plan unchanged. The plan keeps its route count and its customers
    /// (each client's occurrence count is unchanged); the returned value is
    /// the plan's cost after the move.
    pub fn local_search(&mut self, instance: &VehicleRoutingProblem, rng: &mut RandomSource) -> (val: u64)
        requires
            instance.wf(),
            old(self).in_bounds(*instance),
            total_len(old(self).rts()) >= 1,
        ensures
            is_search_step(*instance, old(self).rts(), final(self).rts()),
            final(self).rts().len() == old(self).rts().len(),
            total_len(final(self).rts()) == total_len(old(self).rts()),
            forall|c2: ClientId| #[trigger] count_in_plan(final(self).rts(), c2)
                == count_in_plan(old(self).rts(), c2),
            final(self).in_bounds(*instance),
            val as int == spec_plan_cost(instance.graph, final(self).rts()),
    {
        let ghost rts0 = self.rts();
        let draw = rng.below(4);
        let strategy = if draw == 0 {
            SearchStrategy::InterShift
        } else if draw == 1 {
            SearchStrategy::InterSwap
        } else if draw == 2 {
            SearchStrategy::IntraShift
        } else {
            SearchStrategy::IntraSwap
        };
        match strategy {
            SearchStrategy::InterShift => {
                let client = self.pick_random_client(rng);
                let res = self.inter_shift(instance, client, rng);
                proof {
                    if res is Ok {
                        let tr = choose|tr: int|
                            #[trigger] inter_shift_spec(*instance, rts0, self.rts(), client, tr);
                        assert(inter_shift_spec(*instance, rts0, self.rts(), client, tr));
                    }
                    assert(is_search_step(*instance, rts0, self.rts()));
                }
            },
            SearchStrategy::InterSwap => {
                let client1 = self.pick_random_client(rng);
                let client2 = self.pick_random_client(rng);
                proof {
                    lemma_has_in_bounds(rts0, client1, instance.n());
                    lemma_has_in_bounds(rts0, client2, instance.n());
                }
                let res = self.inter_swap(instance, client1, client2);
                proof {
                    if res is Ok {
                        let (p1, p2) = choose|p1: int, p2: int|
                            #[trigger] inter_swap_spec(instance.graph, rts0, self.rts(), client1, client2, p1, p2);
                        assert(inter_swap_spec(instance.graph, rts0, self.rts(), client1, client2, p1, p2));
                    }
                    assert(is_search_step(*instance, rts0, self.rts()));
                }
            },
            SearchStrategy::IntraShift => {
                let client = self.pick_random_client(rng);
                let res = self.intra_shift(instance, client);
                proof {
                    if res is Ok {
                        let p = choose|p: int|
                            #[trigger] intra_shift_spec(instance.graph, rts0, self.rts(), client, p);
                        assert(intra_shift_spec(instance.graph, rts0, self.rts(), client, p));
                    }
                    assert(is_search_step(*instance, rts0, self.rts()));
                }
            },
            SearchStrategy::IntraSwap => {
                let client1 = self.pick_random_client(rng);
                let client2 = self.pick_random_client(rng);
                let res = self.intra_swap(client1, client2);
                proof {
                    assert(is_search_step(*instance, rts0, self.rts()));
                }
            },
        }
        proof {
            lemma_ids_preserved(rts0, self.rts(), instance.n());
        }
        self.value(instance)
    }

    /// A value-identical copy of the plan, for checkpoints of the search.
    pub fn clone_plan(&self) -> (p: RoutingPlan)
        ensures
            p.rts() == self.rts(),
            p.routes@.len() == self.routes@.len(),
    {
        let mut routes: Vec<Vec<ClientId>> = Vec::new();
        let mut r: usize = 0;
        while r < self.routes.len()
            invariant
                r <= self.routes@.len(),
                routes@.len() == r,
                forall|k: int| 0 <= k < r ==> (#[trigger] routes@[k])@ == self.rts()[k],
            decreases self.routes@.len() - r,
        {
            let src = &self.routes[r];
            let mut route: Vec<ClientId> = Vec::new();
            let mut i: usize = 0;
            while i < src.len()
                invariant
                    i <= src@.len(),
                    route@ == src@.take(i as int),
                decreases src@.len() - i,
            {
                route.push(src[i]);
                proof {
                    assert(route@ =~= src@.take(i + 1));
                }
                i += 1;
            }
            proof {
                assert(src@.take(src@.len() as int) =~= src@);
            }
            routes.push(route);
            r += 1;
        }
        let p = RoutingPlan { routes };
        proof {
            assert(p.rts() =~= self.rts());
        }
        p
    }
}




/// Scans a route for a customer.
fn route_contains(route: &Vec<ClientId>, c: ClientId) -> (r: bool)
    ensures
        r == route@.contains(c),
{
    let mut j: usize = 0;
    while j < route.len()
        invariant
            j <= route@.len(),
            forall|k: int| 0 <= k < j ==> route@[k] != c,
        decreases route@.len() - j,
    {
        if route[j] == c {
            return true;
        }
        j += 1;
    }
    false
}

/// First position of `c` in a route that holds it.
fn position_of(route: &Vec<ClientId>, c: ClientId) -> (p: usize)
    requires
        route@.contains(c),
    ensures
        p as int == first_index_of(route@, c),
        p < route@.len(),
        route@[p as int] == c,
{
    let mut j: usize = 0;
    while j < route.len()
        invariant
            j <= route@.len(),
            forall|k: int| 0 <= k < j ==> route@[k] != c,
        decreases route@.len() - j,
    {
        if route[j] == c {
            proof {
                lemma_first_index_found(route@, c, j as int);
            }
            return j;
        }
        j += 1;
    }
    proof {
        let w = choose|w: int| 0 <= w < route@.len() && route@[w] == c;
        assert(false);
    }
    0
}

/// Folding one more target removes from the already-folded plan.
pub proof fn lemma_remove_fold_snoc(routes: Seq<Seq<ClientId>>, ts: Seq<ClientId>, t: ClientId)
    ensures
        remove_fold(routes, ts.push(t)) == remove_one(remove_fold(routes, ts), t),
    decreases ts.len(),
{
    if ts.len() == 0 {
        assert(ts.push(t)[0] == t);
        assert(ts.push(t).drop_first() =~= Seq::<ClientId>::empty());
        assert(remove_fold(routes, ts.push(t))
            == remove_fold(remove_one(routes, t), ts.push(t).drop_first()));
        assert(remove_fold(remove_one(routes, t), Seq::<ClientId>::empty())
            == remove_one(routes, t));
    } else {
        assert(ts.push(t)[0] == ts[0]);
        assert(ts.push(t).drop_first() =~= ts.drop_first().push(t));
        assert(remove_fold(routes, ts.push(t))
            == remove_fold(remove_one(routes, ts[0]), ts.drop_first().push(t)));
        lemma_remove_fold_snoc(remove_one(routes, ts[0]), ts.drop_first(), t);
    }
}

/// The concentric target list (nearest neighbours then the client itself)
/// holds pairwise distinct customers.
pub proof fn lemma_targets_distinct(g: VehicleRoutingGraph, client: ClientId, take: int, k: int)
    requires
        g.ranked_list_wf(client as int),
        0 <= take <= g.ranked(client as int).len(),
        0 <= k < take + 1,
    ensures
        !g.ranked(client as int).take(take).push(client)
            .take(k).contains(g.ranked(client as int).take(take).push(client)[k]),
{
    let l = g.ranked(client as int);
    let ts = l.take(take).push(client);
    if ts.take(k).contains(ts[k]) {
        let w = choose|w: int| 0 <= w < k && #[trigger] ts.take(k)[w] == ts[k];
        assert(ts[w] == ts[k]);
        if k == take {
            assert(ts[k] == client);
            assert(ts[w] == l[w]);
            assert(l[w] != client);
        } else {
            assert(ts[k] == l[k]);
            assert(ts[w] == l[w]);
        }
    }
}

/// Insertion cost of `client` before position `i` of `route`, executed.
fn insertion_cost_at(instance: &VehicleRoutingProblem, route: &Vec<ClientId>, client: ClientId, i: usize) -> (c: i64)
    requires
        instance.wf(),
        i <= route@.len(),
        client < instance.n(),
        forall|k: int| 0 <= k < route@.len() ==> #[trigger] route@[k] < instance.n(),
    ensures
        c as int == insertion_cost(instance.graph, route@, client, i as int),
        -300_000_000 <= c <= 600_000_000,
{
    let prev: ClientId = if i == 0 {
        0
    } else {
        route[i - 1]
    };
    let next: ClientId = if i == route.len() {
        0
    } else {
        route[i]
    };
    let d1 = instance.graph.distance(client, prev);
    let d2 = instance.graph.distance(client, next);
    let d3 = instance.graph.distance(prev, next);
    (d1 as i64) + (d2 as i64) - (d3 as i64)
}

// ---- counting lemmas -----------------------------------------------------

/// Prefix counts grow by the element at the boundary.
pub proof fn lemma_count_route_take_step(route: Seq<ClientId>, i: int, c: ClientId)
    requires
        0 <= i < route.len(),
    ensures
        count_in_route(route.take(i + 1), c)
            == count_in_route(route.take(i), c) + if route[i] == c { 1int } else { 0int },
{
    assert(route.take(i + 1).drop_last() =~= route.take(i));
    assert(route.take(i + 1).last() == route[i]);
}

/// A count over a prefix never exceeds the count over the whole.
pub proof fn lemma_count_route_take_le(route: Seq<ClientId>, i: int, c: ClientId)
    requires
        0 <= i <= route.len(),
    ensures
        count_in_route(route.take(i), c) <= count_in_route(route, c),
    decreases route.len() - i,
{
    if i == route.len() {
        assert(route.take(i) =~= route);
    } else {
        lemma_count_route_take_step(route, i, c);
        lemma_count_route_take_le(route, i + 1, c);
    }
}

pub proof fn lemma_count_route_nonneg(route: Seq<ClientId>, c: ClientId)
    ensures
        count_in_route(route, c) >= 0,
    decreases route.len(),
{
    if route.len() > 0 {
        lemma_count_route_nonneg(route.drop_last(), c);
    }
}

pub proof fn lemma_count_plan_take_step(routes: Seq<Seq<ClientId>>, r: int, c: ClientId)
    requires
        0 <= r < routes.len(),
    ensures
        count_in_plan(routes.take(r + 1), c)
            == count_in_plan(routes.take(r), c) + count_in_route(routes[r], c),
{
    assert(routes.take(r + 1).drop_last() =~= routes.take(r));
    assert(routes.take(r + 1).last() == routes[r]);
}

pub proof fn lemma_count_plan_take_le(routes: Seq<Seq<ClientId>>, r: int, c: ClientId)
    requires
        0 <= r <= routes.len(),
    ensures
        count_in_plan(routes.take(r), c) <= count_in_plan(routes, c),
    decreases routes.len() - r,
{
    if r == routes.len() {
        assert(routes.take(r) =~= routes);
    } else {
        lemma_count_plan_take_step(routes, r, c);
        lemma_count_route_nonneg(routes[r], c);
        lemma_count_plan_take_le(routes, r + 1, c);
    }
}

pub proof fn lemma_count_plan_nonneg(routes: Seq<Seq<ClientId>>, c: ClientId)
    ensures
        count_in_plan(routes, c) >= 0,
    decreases routes.len(),
{
    if routes.len() > 0 {
        lemma_count_plan_nonneg(routes.drop_last(), c);
        lemma_count_route_nonneg(routes.last(), c);
    }
}

/// Replacing one route changes each count by the difference of the two
/// route counts, and the total length by the difference of the lengths.
pub proof fn lemma_plan_update(routes: Seq<Seq<ClientId>>, r: int, nr: Seq<ClientId>, c: ClientId)
    requires
        0 <= r < routes.len(),
    ensures
        count_in_plan(routes.update(r, nr), c)
            == count_in_plan(routes, c) - count_in_route(routes[r], c) + count_in_route(nr, c),
        total_len(routes.update(r, nr)) == total_len(routes) - routes[r].len() + nr.len(),
    decreases routes.len(),
{
    let u = routes.update(r, nr);
    if r == routes.len() - 1 {
        assert(u.drop_last() =~= routes.drop_last());
        assert(u.last() == nr);
    } else {
        assert(u.drop_last() =~= routes.drop_last().update(r, nr));
        assert(u.last() == routes.last());
        lemma_plan_update(routes.drop_last(), r, nr, c);
    }
}

/// Inserting an element into a route raises only that customer's count.
pub proof fn lemma_count_route_insert(route: Seq<ClientId>, i: int, x: ClientId, c: ClientId)
    requires
        0 <= i <= route.len(),
    ensures
        count_in_route(route.insert(i, x), c)
            == count_in_route(route, c) + if x == c { 1int } else { 0int },
    decreases route.len(),
{
    let s = route.insert(i, x);
    if i == route.len() {
        assert(s.drop_last() =~= route);
        assert(s.last() == x);
    } else {
        assert(s.drop_last() =~= route.drop_last().insert(i, x));
        assert(s.last() == route.last());
        lemma_count_route_insert(route.drop_last(), i, x, c);
    }
}

/// Removing an element from a route lowers only that customer's count.
pub proof fn lemma_count_route_remove(route: Seq<ClientId>, i: int, c: ClientId)
    requires
        0 <= i < route.len(),
    ensures
        count_in_route(route.remove(i), c)
            == count_in_route(route, c) - if route[i] == c { 1int } else { 0int },
    decreases route.len(),
{
    let s = route.remove(i);
    if i == route.len() - 1 {
        assert(s =~= route.drop_last());
    } else {
        assert(s.drop_last() =~= route.drop_last().remove(i));
        assert(s.last() == route.last());
        lemma_count_route_remove(route.drop_last(), i, c);
    }
}

/// Exchanging two entries of a route leaves every count unchanged.
pub proof fn lemma_count_route_swap(route: Seq<ClientId>, i: int, j: int, c: ClientId)
    requires
        0 <= i < route.len(),
        0 <= j < route.len(),
    ensures
        count_in_route(route.update(i, route[j]).update(j, route[i]), c) == count_in_route(route, c),
{
    let s1 = route.update(i, route[j]);
    let s2 = s1.update(j, route[i]);
    lemma_count_route_update(route, i, route[j], c);
    lemma_count_route_update(s1, j, route[i], c);
    if i == j {
    } else {
        assert(s1[j] == route[j]);
        assert(s1[i] == route[j]);
    }
}

/// Overwriting one entry trades its count for the new value's count.
pub proof fn lemma_count_route_update(route: Seq<ClientId>, i: int, x: ClientId, c: ClientId)
    requires
        0 <= i < route.len(),
    ensures
        count_in_route(route.update(i, x), c)
            == count_in_route(route, c)
                - (if route[i] == c { 1int } else { 0int })
                + (if x == c { 1int } else { 0int }),
    decreases route.len(),
{
    let s = route.update(i, x);
    if i == route.len() - 1 {
        assert(s.drop_last() =~= route.drop_last());
        assert(s.last() == x);
    } else {
        assert(s.drop_last() =~= route.drop_last().update(i, x));
        assert(s.last() == route.last());
        lemma_count_route_update(route.drop_last(), i, x, c);
    }
}

/// Prefix demands grow by the demand at the boundary.
pub proof fn lemma_route_demand_take_step(inst: VehicleRoutingProblem, route: Seq<ClientId>, i: int)
    requires
        0 <= i < route.len(),
    ensures
        spec_route_demand(inst, route.take(i + 1))
            == spec_route_demand(inst, route.take(i)) + inst.spec_demand(route[i] as int),
{
    assert(route.take(i + 1).drop_last() =~= route.take(i));
    assert(route.take(i + 1).last() == route[i]);
}

/// The demand of a prefix never exceeds the demand of the whole route.
pub proof fn lemma_route_demand_take_le(inst: VehicleRoutingProblem, route: Seq<ClientId>, k: int)
    requires
        0 <= k <= route.len(),
    ensures
        spec_route_demand(inst, route.take(k)) <= spec_route_demand(inst, route),
    decreases route.len() - k,
{
    if k == route.len() {
        assert(route.take(k) =~= route);
    } else {
        lemma_route_demand_take_step(inst, route, k);
        lemma_route_demand_take_le(inst, route, k + 1);
    }
}

/// A customer occurs in a route exactly when its count is positive.
pub proof fn lemma_count_route_contains(route: Seq<ClientId>, c: ClientId)
    ensures
        count_in_route(route, c) >= 1 <==> route.contains(c),
    decreases route.len(),
{
    lemma_count_route_nonneg(route, c);
    if route.len() > 0 {
        lemma_count_route_contains(route.drop_last(), c);
        lemma_count_route_nonneg(route.drop_last(), c);
        if route.contains(c) {
            let i = choose|i: int| 0 <= i < route.len() && route[i] == c;
            if i < route.len() - 1 {
                assert(route.drop_last()[i] == c);
            }
        }
        if count_in_route(route.drop_last(), c) >= 1 {
            let i = choose|i: int| 0 <= i < route.drop_last().len() && route.drop_last()[i] == c;
            assert(route[i] == c);
        }
    }
}

/// A customer occurs in the plan exactly when its count is positive.
pub proof fn lemma_count_plan_contains(routes: Seq<Seq<ClientId>>, c: ClientId)
    ensures
        count_in_plan(routes, c) >= 1 <==> plan_has(routes, c),
    decreases routes.len(),
{
    lemma_count_plan_nonneg(routes, c);
    if routes.len() > 0 {
        lemma_count_plan_contains(routes.drop_last(), c);
        lemma_count_plan_nonneg(routes.drop_last(), c);
        lemma_count_route_nonneg(routes.last(), c);
        lemma_count_route_contains(routes.last(), c);
        if plan_has(routes, c) {
            let r = choose|r: int| 0 <= r < routes.len() && (#[trigger] routes[r]).contains(c);
            if r < routes.len() - 1 {
                assert(routes.drop_last()[r].contains(c));
                assert(plan_has(routes.drop_last(), c));
            }
        }
        if count_in_plan(routes.drop_last(), c) >= 1 {
            let r = choose|r: int| 0 <= r < routes.drop_last().len()
                && (#[trigger] routes.drop_last()[r]).contains(c);
            assert(routes[r].contains(c));
        }
        if count_in_route(routes.last(), c) >= 1 {
            assert(routes[routes.len() - 1].contains(c));
        }
    }
}

/// The plan after removing the first stored occurrence of `c`: the first
/// occurrence in the first route that holds it. Meaningful when present.
pub open spec fn remove_one(routes: Seq<Seq<ClientId>>, c: ClientId) -> Seq<Seq<ClientId>> {
    let fr = first_route_idx(routes, c);
    routes.update(fr, routes[fr].remove(first_index_of(routes[fr], c)))
}

/// The plan after removing, in order, one occurrence of each target.
pub open spec fn remove_fold(routes: Seq<Seq<ClientId>>, targets: Seq<ClientId>) -> Seq<Seq<ClientId>>
    decreases targets.len(),
{
    if targets.len() == 0 {
        routes
    } else {
        remove_fold(remove_one(routes, targets[0]), targets.drop_first())
    }
}

/// Result of the sequential removal: up to `size` consecutive stops gone,
/// starting at the first occurrence of `client` in its first route.
pub open spec fn sequential_removal_result(routes: Seq<Seq<ClientId>>, client: ClientId, size: int) -> Seq<Seq<ClientId>> {
    let fr = first_route_idx(routes, client);
    let fi = first_index_of(routes[fr], client);
    let m: int = if size <= routes[fr].len() - fi {
        size
    } else {
        routes[fr].len() - fi
    };
    routes.update(fr, routes[fr].take(fi) + routes[fr].subrange(fi + m, routes[fr].len() as int))
}

/// The targets of a concentric removal: the client's `size - 1` nearest
/// neighbours (as far as the ranking has them), then the client itself.
pub open spec fn concentric_targets(g: VehicleRoutingGraph, client: ClientId, size: int) -> Seq<ClientId> {
    let l = g.ranked(client as int);
    let k: int = if size - 1 <= l.len() {
        size - 1
    } else {
        l.len() as int
    };
    l.take(k).push(client)
}

/// The first containing route is a genuine first, when one exists.
pub proof fn lemma_first_route_props(routes: Seq<Seq<ClientId>>, c: ClientId)
    requires
        plan_has(routes, c),
    ensures
        0 <= first_route_idx(routes, c) < routes.len(),
        routes[first_route_idx(routes, c)].contains(c),
        forall|k: int| 0 <= k < first_route_idx(routes, c) ==> !(#[trigger] routes[k]).contains(c),
    decreases routes.len(),
{
    if routes[0].contains(c) {
    } else {
        let r = choose|r: int| 0 <= r < routes.len() && (#[trigger] routes[r]).contains(c);
        assert(routes.drop_first()[r - 1].contains(c));
        assert(plan_has(routes.drop_first(), c));
        lemma_first_route_props(routes.drop_first(), c);
        assert forall|k: int| 0 <= k < first_route_idx(routes, c)
            implies !(#[trigger] routes[k]).contains(c)
        by {
            if k > 0 {
                assert(!routes.drop_first()[k - 1].contains(c));
            }
        }
    }
}

/// Removing one occurrence lowers exactly that customer's count by one.
pub proof fn lemma_remove_one_counts(routes: Seq<Seq<ClientId>>, c: ClientId, c2: ClientId)
    requires
        plan_has(routes, c),
    ensures
        count_in_plan(remove_one(routes, c), c2)
            == count_in_plan(routes, c2) - if c2 == c { 1int } else { 0int },
        total_len(remove_one(routes, c)) == total_len(routes) - 1,
        remove_one(routes, c).len() == routes.len(),
{
    lemma_first_route_props(routes, c);
    let fr = first_route_idx(routes, c);
    lemma_first_index_props(routes[fr], c);
    let fi = first_index_of(routes[fr], c);
    lemma_plan_update(routes, fr, routes[fr].remove(fi), c2);
    lemma_count_route_remove(routes[fr], fi, c2);
    lemma_plan_update(routes, fr, routes[fr].remove(fi), c);
}

// ---- cost bound lemmas ---------------------------------------------------

/// Legs of an in-range route cost between zero and the distance cap each.
pub proof fn lemma_leg_cost_bounds(g: VehicleRoutingGraph, route: Seq<ClientId>, k: int)
    requires
        g.wf(),
        0 <= k <= route.len(),
        forall|i: int| 0 <= i < route.len() ==> 0 < #[trigger] route[i] < g.n(),
    ensures
        0 <= leg_cost_to(g, route, k) <= k * crate::geometry::MAX_DISTANCE,
    decreases k,
{
    if k > 0 {
        lemma_leg_cost_bounds(g, route, k - 1);
        assert((k - 1) * crate::geometry::MAX_DISTANCE + crate::geometry::MAX_DISTANCE
            == k * crate::geometry::MAX_DISTANCE) by (nonlinear_arith);
    }
}

/// A route's cost is bounded by one leg more than its length.
pub proof fn lemma_route_cost_bounds(g: VehicleRoutingGraph, route: Seq<ClientId>)
    requires
        g.wf(),
        forall|i: int| 0 <= i < route.len() ==> 0 < #[trigger] route[i] < g.n(),
    ensures
        0 <= spec_route_cost(g, route) <= (route.len() + 1) * crate::geometry::MAX_DISTANCE,
{
    if route.len() > 0 {
        lemma_leg_cost_bounds(g, route, route.len() as int);
        assert(route.len() * crate::geometry::MAX_DISTANCE + crate::geometry::MAX_DISTANCE
            == (route.len() + 1) * crate::geometry::MAX_DISTANCE) by (nonlinear_arith);
    }
}

pub proof fn lemma_total_len_nonneg(routes: Seq<Seq<ClientId>>)
    ensures
        total_len(routes) >= 0,
    decreases routes.len(),
{
    if routes.len() > 0 {
        lemma_total_len_nonneg(routes.drop_last());
    }
}

pub proof fn lemma_total_len_take_step(routes: Seq<Seq<ClientId>>, r: int)
    requires
        0 <= r < routes.len(),
    ensures
        total_len(routes.take(r + 1)) == total_len(routes.take(r)) + routes[r].len(),
{
    assert(routes.take(r + 1).drop_last() =~= routes.take(r));
    assert(routes.take(r + 1).last() == routes[r]);
}

pub proof fn lemma_total_len_take_le(routes: Seq<Seq<ClientId>>, r: int)
    requires
        0 <= r <= routes.len(),
    ensures
        total_len(routes.take(r)) <= total_len(routes),
        r < routes.len() ==> total_len(routes.take(r)) + routes[r].len() <= total_len(routes),
    decreases routes.len() - r,
{
    if r == routes.len() {
        assert(routes.take(r) =~= routes);
    } else {
        lemma_total_len_take_step(routes, r);
        lemma_total_len_take_le(routes, r + 1);
    }
}

/// The cost of the first `k` routes is bounded by the entries stored in
/// them plus one return leg each, all at the distance cap.
pub proof fn lemma_plan_cost_bounds(g: VehicleRoutingGraph, routes: Seq<Seq<ClientId>>, k: int)
    requires
        g.wf(),
        0 <= k <= routes.len(),
        forall|r: int, i: int| 0 <= r < routes.len() && 0 <= i < routes[r].len()
            ==> 0 < #[trigger] routes[r][i] < g.n(),
    ensures
        0 <= plan_cost_to(g, routes, k)
            <= (total_len(routes.take(k)) + k) * crate::geometry::MAX_DISTANCE,
    decreases k,
{
    if k == 0 {
        lemma_total_len_nonneg(routes.take(0));
    } else {
        lemma_plan_cost_bounds(g, routes, k - 1);
        lemma_route_cost_bounds(g, routes[k - 1]);
        lemma_total_len_take_step(routes, k - 1);
        let t0 = total_len(routes.take(k - 1));
        let l = routes[k - 1].len() as int;
        lemma_total_len_nonneg(routes.take(k - 1));
        assert((t0 + (k - 1)) * crate::geometry::MAX_DISTANCE + (l + 1) * crate::geometry::MAX_DISTANCE
            == (t0 + l + k) * crate::geometry::MAX_DISTANCE) by (nonlinear_arith);
    }
}

} // verus!
