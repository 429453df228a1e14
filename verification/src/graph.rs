use vstd::prelude::*;
use crate::client::{Client, ClientId};
use crate::geometry::{client_dist, euclid_distance, MAX_DISTANCE};
use crate::geometry::{lemma_client_dist_bounded, lemma_client_dist_symmetric, lemma_client_dist_triangle, lemma_client_dist_zero};
use crate::rng::RandomSource;

verus! {

/// Largest admitted number of clients (depot included).
pub const MAX_CLIENTS: usize = 1_000_000;

/// The geometry service: a dense symmetric distance matrix over all clients
/// and, for every client, the other customers ranked nearest-first.
/// Built once and read-only afterwards.
#[derive(Debug)]
pub struct VehicleRoutingGraph {
    pub clients: Vec<Client>,
    pub distance_matrix: Vec<Vec<u64>>,
    pub closest_clients: Vec<Vec<ClientId>>,
}

impl VehicleRoutingGraph {
    /// Number of clients, depot included.
    pub open spec fn n(self) -> int {
        self.clients@.len() as int
    }

    /// Entry of the distance matrix, as a mathematical integer.
    pub open spec fn dist(self, a: int, b: int) -> int {
        self.distance_matrix@[a]@[b] as int
    }

    /// The ranked customer list of client `c`.
    pub open spec fn ranked(self, c: int) -> Seq<ClientId> {
        self.closest_clients@[c]@
    }

    pub open spec fn clients_wf(self) -> bool {
        &&& 1 <= self.n() <= MAX_CLIENTS
        &&& forall|i: int| 0 <= i < self.n() ==> (#[trigger] self.clients@[i]).id == i
        &&& forall|i: int| 0 <= i < self.n() ==> (#[trigger] self.clients@[i]).coords_in_range()
    }

    /// The matrix holds the fixed-point Euclidean distances: square,
    /// symmetric, zero on the diagonal, bounded by `MAX_DISTANCE`, and a
    /// metric (the rounded-up distances keep the triangle inequality).
    pub open spec fn matrix_wf(self) -> bool {
        &&& self.distance_matrix@.len() == self.n()
        &&& forall|i: int| 0 <= i < self.n() ==> (#[trigger] self.distance_matrix@[i])@.len() == self.n()
        &&& forall|i: int, j: int| 0 <= i < self.n() && 0 <= j < self.n()
                ==> #[trigger] self.dist(i, j) == client_dist(self.clients@[i], self.clients@[j])
        &&& forall|i: int, j: int| 0 <= i < self.n() && 0 <= j < self.n()
                ==> 0 <= #[trigger] self.dist(i, j) <= MAX_DISTANCE
        &&& forall|i: int, j: int| 0 <= i < self.n() && 0 <= j < self.n()
                ==> #[trigger] self.dist(i, j) == self.dist(j, i)
        &&& forall|i: int| 0 <= i < self.n() ==> #[trigger] self.dist(i, i) == 0
        &&& forall|i: int, j: int, k: int|
                0 <= i < self.n() && 0 <= j < self.n() && 0 <= k < self.n()
                ==> self.dist(i, j) <= #[trigger] self.dist(i, k) + #[trigger] self.dist(k, j)
    }

    /// The ranked list of client `c` holds every customer other than `c`,
    /// exactly once, in order of non-decreasing distance from `c`.
    pub open spec fn ranked_list_wf(self, c: int) -> bool {
        let l = self.ranked(c);
        &&& l.len() < self.n()
        &&& forall|k: int| 0 <= k < l.len() ==> 1 <= #[trigger] l[k] < self.n() && l[k] != c
        &&& forall|k1: int, k2: int| 0 <= k1 < k2 < l.len()
                ==> #[trigger] l[k1] != #[trigger] l[k2]
        &&& forall|k1: int, k2: int| 0 <= k1 < k2 < l.len()
                ==> self.dist(c, #[trigger] l[k1] as int) <= self.dist(c, #[trigger] l[k2] as int)
        &&& forall|v: int| 1 <= v < self.n() && v != c ==> #[trigger] l.contains(v as usize)
    }

    pub open spec fn ranking_wf(self) -> bool {
        &&& self.closest_clients@.len() == self.n()
        &&& forall|c: int| 0 <= c < self.n() ==> #[trigger] self.ranked_list_wf(c)
    }

    /// Full well-formedness of the graph.
    pub open spec fn wf(self) -> bool {
        self.clients_wf() && self.matrix_wf() && self.ranking_wf()
    }

    /// Builds the distance matrix and the nearest-first rankings.
    pub fn new(clients: &Vec<Client>) -> (g: VehicleRoutingGraph)
        requires
            1 <= clients@.len() <= MAX_CLIENTS,
            forall|i: int| 0 <= i < clients@.len() ==> (#[trigger] clients@[i]).id == i,
            forall|i: int| 0 <= i < clients@.len() ==> (#[trigger] clients@[i]).coords_in_range(),
        ensures
            g.wf(),
            g.clients@ == clients@,
    {
        let n = clients.len();

        let mut owned: Vec<Client> = Vec::new();
        let mut i: usize = 0;
        while i < n
            invariant
                i <= n,
                n == clients@.len(),
                owned@.len() == i,
                forall|k: int| 0 <= k < i ==> owned@[k] == clients@[k],
            decreases n - i,
        {
            owned.push(clients[i]);
            i += 1;
        }
        assert(owned@ =~= clients@);

        let mut matrix: Vec<Vec<u64>> = Vec::new();
        let mut i: usize = 0;
        while i < n
            invariant
                i <= n,
                n == clients@.len(),
                forall|k: int| 0 <= k < n ==> (#[trigger] clients@[k]).coords_in_range(),
                matrix@.len() == i,
                forall|a: int| 0 <= a < i ==> (#[trigger] matrix@[a])@.len() == n,
                forall|a: int, b: int| 0 <= a < i && 0 <= b < n
                    ==> (#[trigger] matrix@[a]@[b]) as int == client_dist(clients@[a], clients@[b]),
            decreases n - i,
        {
            let mut row: Vec<u64> = Vec::new();
            let mut j: usize = 0;
            while j < n
                invariant
                    j <= n,
                    i < n,
                    n == clients@.len(),
                    forall|k: int| 0 <= k < n ==> (#[trigger] clients@[k]).coords_in_range(),
                    row@.len() == j,
                    forall|b: int| 0 <= b < j
                        ==> (#[trigger] row@[b]) as int == client_dist(clients@[i as int], clients@[b]),
                decreases n - j,
            {
                let d = euclid_distance(&clients[i], &clients[j]);
                row.push(d);
                j += 1;
            }
            matrix.push(row);
            i += 1;
        }

        let mut ranking: Vec<Vec<ClientId>> = Vec::new();
        let mut c: usize = 0;
        while c < n
            invariant
                c <= n,
                n == clients@.len(),
                matrix@.len() == n,
                forall|a: int| 0 <= a < n ==> (#[trigger] matrix@[a])@.len() == n,
                ranking@.len() == c,
                forall|a: int| 0 <= a < c ==> ranked_list_ok(#[trigger] ranking@[a]@, matrix@[a]@, a, n as int),
            decreases n - c,
        {
            let list = build_ranked_list(&matrix[c], c, n);
            ranking.push(list);
            c += 1;
        }

        let g = VehicleRoutingGraph { clients: owned, distance_matrix: matrix, closest_clients: ranking };
        proof {
            assert forall|i: int, j: int| 0 <= i < g.n() && 0 <= j < g.n()
                implies 0 <= #[trigger] g.dist(i, j) <= MAX_DISTANCE && g.dist(i, j) == g.dist(j, i)
            by {
                lemma_client_dist_bounded(g.clients@[i], g.clients@[j]);
                lemma_client_dist_symmetric(g.clients@[i], g.clients@[j]);
            }
            assert forall|i: int| 0 <= i < g.n() implies #[trigger] g.dist(i, i) == 0 by {
                lemma_client_dist_zero(g.clients@[i]);
            }
            assert forall|i: int, j: int, k: int|
                0 <= i < g.n() && 0 <= j < g.n() && 0 <= k < g.n()
                implies g.dist(i, j) <= #[trigger] g.dist(i, k) + #[trigger] g.dist(k, j)
            by {
                lemma_client_dist_triangle(g.clients@[i], g.clients@[k], g.clients@[j]);
            }
            assert forall|c: int| 0 <= c < g.n() implies #[trigger] g.ranked_list_wf(c) by {
                assert(ranked_list_ok(ranking@[c]@, matrix@[c]@, c, n as int));
            }
        }
        g
    }

    /// The fixed-point Euclidean distance between two clients.
    pub fn distance(&self, client1: usize, client2: usize) -> (d: u64)
        requires
            self.wf(),
            client1 < self.n(),
            client2 < self.n(),
        ensures
            d as int == self.dist(client1 as int, client2 as int),
            d <= MAX_DISTANCE,
    {
        proof {
            assert(0 <= self.dist(client1 as int, client2 as int) <= MAX_DISTANCE);
        }
        self.distance_matrix[client1][client2]
    }

    /// Distance between the depot and a client.
    pub fn distance_to_depot(&self, client: usize) -> (d: u64)
        requires
            self.wf(),
            client < self.n(),
        ensures
            d as int == self.dist(0, client as int),
            d <= MAX_DISTANCE,
    {
        self.distance(0, client)
    }

    /// The other customers of `client`, nearest first. The depot is not
    /// ranked: the ranking only ever selects customers for removal and
    /// reinsertion, and the depot is never a removable stop.
    pub fn neighbors(&self, client: ClientId) -> (l: &Vec<ClientId>)
        requires
            self.wf(),
            client < self.n(),
        ensures
            l@ == self.ranked(client as int),
            self.ranked_list_wf(client as int),
    {
        &self.closest_clients[client]
    }
}

/// What the ranked list of client `c` has to satisfy, stated against the
/// row of distances from `c`: every other customer exactly once, sorted by
/// non-decreasing distance.
pub open spec fn ranked_list_ok(l: Seq<ClientId>, row: Seq<u64>, c: int, n: int) -> bool {
    &&& l.len() < n
    &&& forall|k: int| 0 <= k < l.len() ==> 1 <= #[trigger] l[k] < n && l[k] != c
    &&& forall|k1: int, k2: int| 0 <= k1 < k2 < l.len() ==> #[trigger] l[k1] != #[trigger] l[k2]
    &&& forall|k1: int, k2: int| 0 <= k1 < k2 < l.len()
            ==> row[#[trigger] l[k1] as int] <= row[#[trigger] l[k2] as int]
    &&& forall|v: int| 1 <= v < n && v != c ==> #[trigger] l.contains(v as usize)
}

/// After exchanging two positions, a sequence holds the same values.
proof fn lemma_swap_same_values(l1: Seq<ClientId>, l2: Seq<ClientId>, i: int, j: int)
    requires
        0 <= i < l1.len(),
        0 <= j < l1.len(),
        l2 == l1.update(i, l1[j]).update(j, l1[i]),
    ensures
        forall|v: ClientId| l1.contains(v) <==> l2.contains(v),
{
    assert forall|v: ClientId| l1.contains(v) implies l2.contains(v) by {
        let k = choose|k: int| 0 <= k < l1.len() && l1[k] == v;
        if k == i {
            assert(l2[j] == v);
        } else if k == j {
            assert(l2[i] == v);
        } else {
            assert(l2[k] == v);
        }
    }
    assert forall|v: ClientId| l2.contains(v) implies l1.contains(v) by {
        let k = choose|k: int| 0 <= k < l2.len() && l2[k] == v;
        if k == i {
            assert(l1[j] == v);
        } else if k == j {
            assert(l1[i] == v);
        } else {
            assert(l1[k] == v);
        }
    }
}

/// Collects every customer other than `c` and sorts it by the distance row
/// of `c` (insertion sort), nearest first.
fn build_ranked_list(row: &Vec<u64>, c: usize, n: usize) -> (l: Vec<ClientId>)
    requires
        row@.len() == n,
        c < n,
    ensures
        ranked_list_ok(l@, row@, c as int, n as int),
{
    let mut l: Vec<ClientId> = Vec::new();
    let mut v: usize = 1;
    while v < n
        invariant
            1 <= v <= n,
            l@.len() < v,
            forall|k: int| 0 <= k < l@.len() ==> 1 <= #[trigger] l@[k] < v && l@[k] != c,
            forall|k1: int, k2: int| 0 <= k1 < k2 < l@.len() ==> #[trigger] l@[k1] < #[trigger] l@[k2],
            forall|w: int| 1 <= w < v && w != c ==> #[trigger] l@.contains(w as usize),
        decreases n - v,
    {
        if v != c {
            let ghost old_l = l@;
            l.push(v);
            proof {
                assert forall|w: int| 1 <= w < v + 1 && w != c implies #[trigger] l@.contains(w as usize) by {
                    if w < v {
                        assert(old_l.contains(w as usize));
                        let k = choose|k: int| 0 <= k < old_l.len() && old_l[k] == w as usize;
                        assert(l@[k] == w as usize);
                    } else {
                        assert(l@[l@.len() - 1] == w as usize);
                    }
                }
            }
        }
        v += 1;
    }

    let len = l.len();
    let mut k: usize = 1;
    while k < len
        invariant
            len == l@.len(),
            len < n,
            row@.len() == n,
            forall|q: int| 0 <= q < l@.len() ==> 1 <= #[trigger] l@[q] < n && l@[q] != c,
            forall|q1: int, q2: int| 0 <= q1 < q2 < l@.len() ==> #[trigger] l@[q1] != #[trigger] l@[q2],
            forall|q1: int, q2: int| 0 <= q1 < q2 < k && q2 < len
                ==> row@[#[trigger] l@[q1] as int] <= row@[#[trigger] l@[q2] as int],
            forall|w: int| 1 <= w < n && w != c ==> #[trigger] l@.contains(w as usize),
        decreases len - k,
    {
        let mut j: usize = k;
        while j > 0 && row[l[j - 1]] > row[l[j]]
            invariant
                j <= k < len,
                len == l@.len(),
                row@.len() == n,
                forall|q: int| 0 <= q < l@.len() ==> 1 <= #[trigger] l@[q] < n && l@[q] != c,
                forall|q1: int, q2: int| 0 <= q1 < q2 < l@.len() ==> #[trigger] l@[q1] != #[trigger] l@[q2],
                forall|q1: int, q2: int| 0 <= q1 < q2 <= k && q2 != j
                    ==> row@[#[trigger] l@[q1] as int] <= row@[#[trigger] l@[q2] as int],
                forall|w: int| 1 <= w < n && w != c ==> #[trigger] l@.contains(w as usize),
            decreases j,
        {
            let ghost before = l@;
            let a = l[j - 1];
            let b = l[j];
            l.set(j - 1, b);
            l.set(j, a);
            proof {
                assert(l@ == before.update(j - 1, before[j as int]).update(j as int, before[j - 1]));
                lemma_swap_same_values(before, l@, j - 1, j as int);
            }
            j -= 1;
        }
        k += 1;
    }
    l
}


/// First index of `v` in `l`, or `l.len()` when `v` does not occur: the
/// rank of `v` in a ranked list.
pub open spec fn first_index_of(l: Seq<ClientId>, v: ClientId) -> int
    decreases l.len(),
{
    if l.len() == 0 {
        0
    } else if l[0] == v {
        0
    } else {
        1 + first_index_of(l.drop_first(), v)
    }
}

/// A scan that stops at the first hit computes `first_index_of`.
pub proof fn lemma_first_index_found(l: Seq<ClientId>, v: ClientId, i: int)
    requires
        0 <= i < l.len(),
        l[i] == v,
        forall|k: int| 0 <= k < i ==> l[k] != v,
    ensures
        first_index_of(l, v) == i,
    decreases i,
{
    if i > 0 {
        lemma_first_index_found(l.drop_first(), v, i - 1);
    }
}

pub proof fn lemma_first_index_absent(l: Seq<ClientId>, v: ClientId)
    requires
        forall|k: int| 0 <= k < l.len() ==> l[k] != v,
    ensures
        first_index_of(l, v) == l.len(),
    decreases l.len(),
{
    if l.len() > 0 {
        lemma_first_index_absent(l.drop_first(), v);
    }
}

/// When `v` occurs, its first index is a genuine first occurrence.
pub proof fn lemma_first_index_props(l: Seq<ClientId>, v: ClientId)
    requires
        l.contains(v),
    ensures
        0 <= first_index_of(l, v) < l.len(),
        l[first_index_of(l, v)] == v,
        forall|k: int| 0 <= k < first_index_of(l, v) ==> l[k] != v,
    decreases l.len(),
{
    if l[0] == v {
    } else {
        let i = choose|i: int| 0 <= i < l.len() && l[i] == v;
        assert(l.drop_first()[i - 1] == v);
        lemma_first_index_props(l.drop_first(), v);
        assert forall|k: int| 0 <= k < first_index_of(l, v) implies l[k] != v by {
            if k > 0 {
                assert(l.drop_first()[k - 1] != v);
            }
        }
    }
}

/// Sum of the ranks (first indices in `l`) of the first `k` members of
/// `route`; a member absent from `l` counts as rank `l.len()`.
pub open spec fn rank_sum(l: Seq<ClientId>, route: Seq<ClientId>, k: int) -> int
    decreases k,
{
    if k <= 0 {
        0
    } else {
        rank_sum(l, route, k - 1) + first_index_of(l, route[k - 1])
    }
}

/// Rank of `v` in a list: its first position, or the length when absent.
fn rank_of(list: &Vec<ClientId>, v: ClientId) -> (p: usize)
    ensures
        p as int == first_index_of(list@, v),
        p <= list@.len(),
{
    let mut j: usize = 0;
    while j < list.len()
        invariant
            j <= list@.len(),
            forall|k: int| 0 <= k < j ==> list@[k] != v,
        decreases list@.len() - j,
    {
        if list[j] == v {
            proof {
                lemma_first_index_found(list@, v, j as int);
            }
            return j;
        }
        j += 1;
    }
    proof {
        lemma_first_index_absent(list@, v);
    }
    list.len()
}

impl VehicleRoutingGraph {
    /// Randomized closeness estimate of `client` to a route: the average
    /// rank, within `client`'s nearest-first list, of the route's first
    /// `rho` members, returned as the exact fraction (rank sum, `rho`).
    /// `rho` is the smaller of `route.len() - 2` and a uniform draw from
    /// `1 ..= n / num_routes`; a route with fewer than three stops has no
    /// score.
    pub fn proximity(&self, client: ClientId, route: &Vec<ClientId>, num_routes: usize, rng: &mut RandomSource) -> (r: Option<(u64, u64)>)
        requires
            self.wf(),
            client < self.n(),
            1 <= num_routes <= self.n(),
        ensures
            match r {
                None => route@.len() <= 2,
                Some(s) => {
                    &&& route@.len() > 2
                    &&& 1 <= s.1 <= 1_000_000
                    &&& s.1 <= route@.len() - 2
                    &&& s.1 <= self.n() / (num_routes as int)
                    &&& s.0 == rank_sum(self.ranked(client as int), route@, s.1 as int)
                    &&& s.0 <= 1_000_000_000_000
                },
            },
    {
        if route.len() <= 2 {
            return None;
        }
        let limit = self.clients.len() / num_routes;
        proof {
            let n0 = self.clients@.len() as int;
            let d0 = num_routes as int;
            assert(n0 / d0 >= 1) by (nonlinear_arith)
                requires
                    1 <= d0 <= n0,
            ;
        }
        let draw = 1 + rng.below(limit);
        let rho = if route.len() - 2 < draw {
            route.len() - 2
        } else {
            draw
        };
        let list = &self.closest_clients[client];
        let ghost lseq = self.ranked(client as int);
        proof {
            assert(self.ranked_list_wf(client as int));
            assert(lseq.len() < self.n());
        }
        let mut sum: u64 = 0;
        let mut j: usize = 0;
        while j < rho
            invariant
                j <= rho,
                1 <= rho <= 1_000_000,
                rho <= route@.len() - 2,
                list@ == lseq,
                lseq.len() <= 1_000_000,
                sum as int == rank_sum(lseq, route@, j as int),
                sum <= 1_000_000 * j,
            decreases rho - j,
        {
            let rank = rank_of(list, route[j]);
            proof {
                assert(1_000_000 * (j as int) + 1_000_000 == 1_000_000 * (j + 1)) by (nonlinear_arith);
            }
            sum = sum + rank as u64;
            j += 1;
        }
        proof {
            assert(1_000_000 * (rho as int) <= 1_000_000_000_000) by (nonlinear_arith)
                requires
                    rho <= 1_000_000,
            ;
        }
        Some((sum, rho as u64))
    }
}

} // verus!
