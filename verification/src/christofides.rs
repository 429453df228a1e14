use vstd::prelude::*;
use crate::client::ClientId;
use crate::edge_queue::{edge_queue_entries, edge_queue_new, edge_queue_pop, edge_queue_push};
use crate::errors::SolveError;
use crate::graph::{VehicleRoutingGraph, MAX_CLIENTS};
use crate::matching::raw_weighted_matching;
use crate::unordered_pair::UnorderedPair;
use vstd::assert_by_contradiction;

verus! {

/// An edge over `n` vertices with distinct, canonically ordered endpoints.
pub open spec fn edge_valid(e: UnorderedPair, n: int) -> bool {
    e.first < e.second < n
}

/// Vertex `v` is an endpoint of some edge of `edges`.
pub open spec fn appears_in(edges: Seq<UnorderedPair>, v: ClientId) -> bool {
    exists|i: int| 0 <= i < edges.len() && (#[trigger] edges[i]).touches(v)
}

/// Edge `i` of `tree` attaches exactly one vertex that no earlier edge
/// touches (and that is not the root) to the part already grown: the
/// other endpoint is the root or touched earlier. A sequence of such
/// edges is a tree rooted at vertex 0 (connected and acyclic).
#[verifier::opaque]
pub open spec fn tree_growth_step(tree: Seq<UnorderedPair>, i: int) -> bool {
    exists|fresh: ClientId|
        (#[trigger] tree[i].touches(fresh))
        && !appears_in(tree.take(i), fresh)
        && fresh != 0
        && ({
            let other: ClientId = if tree[i].first == fresh {
                tree[i].second
            } else {
                tree[i].first
            };
            other == 0 || appears_in(tree.take(i), other)
        })
}

/// Number of `true` entries of a boolean sequence.
pub open spec fn count_true(s: Seq<bool>) -> int
    decreases s.len(),
{
    if s.len() == 0 {
        0
    } else {
        count_true(s.drop_last()) + if s.last() {
            1int
        } else {
            0int
        }
    }
}

proof fn lemma_count_true_bounds(s: Seq<bool>)
    ensures
        0 <= count_true(s) <= s.len(),
    decreases s.len(),
{
    if s.len() > 0 {
        lemma_count_true_bounds(s.drop_last());
    }
}

proof fn lemma_count_true_none(s: Seq<bool>)
    requires
        forall|i: int| 0 <= i < s.len() ==> !s[i],
    ensures
        count_true(s) == 0,
    decreases s.len(),
{
    if s.len() > 0 {
        lemma_count_true_none(s.drop_last());
    }
}

proof fn lemma_count_true_update(s: Seq<bool>, i: int)
    requires
        0 <= i < s.len(),
        !s[i],
    ensures
        count_true(s.update(i, true)) == count_true(s) + 1,
    decreases s.len(),
{
    let t = s.update(i, true);
    if i == s.len() - 1 {
        assert(t.drop_last() =~= s.drop_last());
    } else {
        assert(t.drop_last() =~= s.drop_last().update(i, true));
        lemma_count_true_update(s.drop_last(), i);
        assert(t.last() == s.last());
    }
}

proof fn lemma_count_true_all(s: Seq<bool>)
    requires
        forall|i: int| 0 <= i < s.len() ==> s[i],
    ensures
        count_true(s) == s.len(),
    decreases s.len(),
{
    if s.len() > 0 {
        assert(s.drop_last() =~= s.take(s.len() - 1));
        lemma_count_true_all(s.drop_last());
    }
}

proof fn lemma_count_true_full(s: Seq<bool>)
    requires
        count_true(s) == s.len(),
    ensures
        forall|i: int| 0 <= i < s.len() ==> s[i],
    decreases s.len(),
{
    if s.len() > 0 {
        lemma_count_true_bounds(s.drop_last());
        assert(s.last());
        lemma_count_true_full(s.drop_last());
        assert forall|i: int| 0 <= i < s.len() implies s[i] by {
            if i < s.len() - 1 {
                assert(s.drop_last()[i]);
            }
        }
    }
}

proof fn lemma_count_true_one(s: Seq<bool>, i: int)
    requires
        0 <= i < s.len(),
        s[i],
    ensures
        count_true(s) >= 1,
    decreases s.len(),
{
    if i == s.len() - 1 {
        lemma_count_true_bounds(s.drop_last());
    } else {
        lemma_count_true_one(s.drop_last(), i);
    }
}

proof fn lemma_count_true_two(s: Seq<bool>, i: int, j: int)
    requires
        0 <= i < j < s.len(),
        s[i],
        s[j],
    ensures
        count_true(s) >= 2,
    decreases s.len(),
{
    if j == s.len() - 1 {
        lemma_count_true_one(s.drop_last(), i);
    } else {
        lemma_count_true_two(s.drop_last(), i, j);
    }
}

/// Appending an edge keeps every endpoint that already appeared and adds
/// the endpoints of the new edge.
proof fn lemma_appears_push(edges: Seq<UnorderedPair>, e: UnorderedPair)
    ensures
        forall|v: ClientId| appears_in(edges, v) ==> appears_in(edges.push(e), v),
        appears_in(edges.push(e), e.first),
        appears_in(edges.push(e), e.second),
{
    assert forall|v: ClientId| appears_in(edges, v) implies appears_in(edges.push(e), v) by {
        let i = choose|i: int| 0 <= i < edges.len() && (#[trigger] edges[i]).touches(v);
        assert(edges.push(e)[i].touches(v));
    }
    assert(edges.push(e)[edges.len() as int].touches(e.first));
    assert(edges.push(e)[edges.len() as int].touches(e.second));
}

/// Number of edges of `edges` that have `v` as an endpoint.
pub open spec fn degree(edges: Seq<UnorderedPair>, v: ClientId) -> int
    decreases edges.len(),
{
    if edges.len() == 0 {
        0
    } else {
        degree(edges.drop_last(), v) + if edges.last().touches(v) {
            1int
        } else {
            0int
        }
    }
}

/// For each vertex below `n`, whether its degree in `edges` is odd.
pub open spec fn degree_parities(edges: Seq<UnorderedPair>, n: int) -> Seq<bool> {
    Seq::new(n as nat, |v: int| degree(edges, v as usize) % 2 == 1)
}

proof fn lemma_count_true_set(s: Seq<bool>, i: int, x: bool)
    requires
        0 <= i < s.len(),
    ensures
        count_true(s.update(i, x)) == count_true(s) - (if s[i] { 1int } else { 0int }) + (if x { 1int } else { 0int }),
    decreases s.len(),
{
    let t = s.update(i, x);
    if i == s.len() - 1 {
        assert(t.drop_last() =~= s.drop_last());
    } else {
        assert(t.drop_last() =~= s.drop_last().update(i, x));
        lemma_count_true_set(s.drop_last(), i, x);
        assert(t.last() == s.last());
    }
}

/// Handshake lemma: over edges with two distinct endpoints below `n`,
/// the number of vertices of odd degree is even.
pub proof fn lemma_odd_degree_count_even(edges: Seq<UnorderedPair>, n: int)
    requires
        0 <= n <= usize::MAX,
        forall|i: int| 0 <= i < edges.len() ==> edge_valid(#[trigger] edges[i], n),
    ensures
        count_true(degree_parities(edges, n)) % 2 == 0,
    decreases edges.len(),
{
    if edges.len() == 0 {
        assert forall|v: int| 0 <= v < n implies !degree_parities(edges, n)[v] by {
            assert(degree(edges, v as usize) == 0);
        }
        lemma_count_true_none(degree_parities(edges, n));
    } else {
        let es = edges.drop_last();
        let e = edges.last();
        assert(edge_valid(edges[edges.len() - 1], n));
        lemma_odd_degree_count_even(es, n);
        let p1 = degree_parities(es, n);
        let p2 = degree_parities(edges, n);
        let a = e.first as int;
        let b = e.second as int;
        let mid = p1.update(a, !p1[a]);
        assert forall|v: int| 0 <= v < n implies p2[v] == mid.update(b, !p1[b])[v] by {
            assert(degree(edges, v as usize)
                == degree(es, v as usize) + if e.touches(v as usize) { 1int } else { 0int });
        }
        assert(p2 =~= mid.update(b, !p1[b]));
        lemma_count_true_set(p1, a, !p1[a]);
        lemma_count_true_set(mid, b, !p1[b]);
        assert(mid[b] == p1[b]);
    }
}

/// Occurrences of `v` as an endpoint among raw endpoint pairs.
pub open spec fn pair_degree(pairs: Seq<(usize, usize)>, v: ClientId) -> int
    decreases pairs.len(),
{
    if pairs.len() == 0 {
        0
    } else {
        pair_degree(pairs.drop_last(), v)
            + (if pairs.last().0 == v { 1int } else { 0int })
            + (if pairs.last().1 == v { 1int } else { 0int })
    }
}

proof fn lemma_pair_degree_take_step(pairs: Seq<(usize, usize)>, i: int, v: ClientId)
    requires
        0 <= i < pairs.len(),
    ensures
        pair_degree(pairs.take(i + 1), v) == pair_degree(pairs.take(i), v)
            + (if pairs[i].0 == v { 1int } else { 0int })
            + (if pairs[i].1 == v { 1int } else { 0int }),
{
    assert(pairs.take(i + 1).drop_last() =~= pairs.take(i));
    assert(pairs.take(i + 1).last() == pairs[i]);
}

proof fn lemma_pair_degree_nonneg(pairs: Seq<(usize, usize)>, v: ClientId)
    ensures
        pair_degree(pairs, v) >= 0,
    decreases pairs.len(),
{
    if pairs.len() > 0 {
        lemma_pair_degree_nonneg(pairs.drop_last(), v);
    }
}

proof fn lemma_pair_degree_take_le(pairs: Seq<(usize, usize)>, i: int, v: ClientId)
    requires
        0 <= i <= pairs.len(),
    ensures
        pair_degree(pairs.take(i), v) <= pair_degree(pairs, v),
    decreases pairs.len() - i,
{
    if i == pairs.len() {
        assert(pairs.take(i) =~= pairs);
    } else {
        lemma_pair_degree_take_step(pairs, i, v);
        lemma_pair_degree_take_le(pairs, i + 1, v);
    }
}

/// The raw endpoint pairs form a perfect matching of `subset` below `n`:
/// pairs of distinct subset members, each member covered exactly once.
pub open spec fn pairs_form_perfect_matching(pairs: Seq<(usize, usize)>, subset: Seq<ClientId>, n: int) -> bool {
    &&& forall|i: int| 0 <= i < pairs.len()
            ==> (#[trigger] pairs[i]).0 < n && pairs[i].1 < n && pairs[i].0 != pairs[i].1
                && subset.contains(pairs[i].0) && subset.contains(pairs[i].1)
    &&& forall|i: int| 0 <= i < subset.len() ==> pair_degree(pairs, #[trigger] subset[i]) == 1
    &&& pairs.len() * 2 == subset.len()
}

/// The edges of `m` pair up the vertices of `subset` perfectly: disjoint
/// edges between subset members that cover each member exactly once.
pub open spec fn is_perfect_matching(m: Seq<UnorderedPair>, subset: Seq<ClientId>, n: int) -> bool {
    &&& forall|i: int| 0 <= i < m.len() ==> edge_valid(#[trigger] m[i], n)
    &&& forall|i: int| 0 <= i < m.len()
            ==> subset.contains((#[trigger] m[i]).first) && subset.contains(m[i].second)
    &&& forall|i: int| 0 <= i < subset.len() ==> degree(m, #[trigger] subset[i]) == 1
    &&& m.len() * 2 == subset.len()
}

/// Appending an edge raises the degree of exactly its two endpoints.
proof fn lemma_degree_push(edges: Seq<UnorderedPair>, e: UnorderedPair)
    ensures
        forall|v: ClientId| #[trigger] degree(edges.push(e), v)
            == degree(edges, v) + if e.touches(v) { 1int } else { 0int },
{
    assert(edges.push(e).drop_last() =~= edges);
    assert(edges.push(e).last() == e);
}

/// Membership of `v` among the first `k` entries of `subset`.
pub open spec fn in_prefix(subset: Seq<ClientId>, k: int, v: ClientId) -> bool {
    exists|j: int| 0 <= j < k && #[trigger] subset[j] == v
}

/// The subsequence of first occurrences of `s`, in order.
pub open spec fn dedup_first(s: Seq<ClientId>) -> Seq<ClientId>
    decreases s.len(),
{
    if s.len() == 0 {
        Seq::empty()
    } else {
        let d = dedup_first(s.drop_last());
        if s.drop_last().contains(s.last()) {
            d
        } else {
            d.push(s.last())
        }
    }
}

/// First-occurrence deduplication keeps exactly the values of the given
/// sequence, holds no value twice, and keeps the first element in front.
proof fn lemma_dedup_first_props(s: Seq<ClientId>)
    ensures
        forall|v: ClientId| #[trigger] dedup_first(s).contains(v) <==> s.contains(v),
        forall|i: int, j: int| 0 <= i < j < dedup_first(s).len()
            ==> #[trigger] dedup_first(s)[i] != #[trigger] dedup_first(s)[j],
        s.len() > 0 ==> dedup_first(s).len() > 0 && dedup_first(s)[0] == s[0],
    decreases s.len(),
{
    if s.len() > 0 {
        let t = s.drop_last();
        let x = s.last();
        lemma_dedup_first_props(t);
        let d = dedup_first(s);
        assert forall|v: ClientId| #[trigger] d.contains(v) implies s.contains(v) by {
            let i = choose|i: int| 0 <= i < d.len() && d[i] == v;
            if t.contains(x) || i < dedup_first(t).len() {
                assert(dedup_first(t).contains(v));
                let j = choose|j: int| 0 <= j < t.len() && t[j] == v;
                assert(s[j] == v);
            } else {
                assert(v == x);
                assert(s[s.len() - 1] == v);
            }
        }
        assert forall|v: ClientId| s.contains(v) implies #[trigger] d.contains(v) by {
            let i = choose|i: int| 0 <= i < s.len() && s[i] == v;
            if i < s.len() - 1 {
                assert(t[i] == v);
                assert(dedup_first(t).contains(v));
                let j = choose|j: int| 0 <= j < dedup_first(t).len() && dedup_first(t)[j] == v;
                assert(d[j] == v);
            } else {
                if t.contains(x) {
                    assert(dedup_first(t).contains(v));
                    let j = choose|j: int| 0 <= j < dedup_first(t).len() && dedup_first(t)[j] == v;
                    assert(d[j] == v);
                } else {
                    assert(d[d.len() - 1] == v);
                }
            }
        }
        if !t.contains(x) {
            assert forall|i: int, j: int| 0 <= i < j < d.len()
                implies #[trigger] d[i] != #[trigger] d[j]
            by {
                if j == d.len() - 1 {
                    assert(d[i] == dedup_first(t)[i]);
                    assert(dedup_first(t).contains(d[i]));
                    assert(t.contains(d[i]));
                }
            }
        }
        if t.len() > 0 {
            assert(d[0] == dedup_first(t)[0]);
        }
    }
}

/// A duplicate-free sequence over `0 .. n` that contains every such value
/// has exactly `n` entries.
proof fn lemma_nodup_range_full(s: Seq<ClientId>, n: int)
    requires
        0 <= n <= usize::MAX,
        forall|i: int| 0 <= i < s.len() ==> #[trigger] s[i] < n,
        forall|i: int, j: int| 0 <= i < j < s.len() ==> #[trigger] s[i] != #[trigger] s[j],
        forall|v: int| 0 <= v < n ==> #[trigger] s.contains(v as usize),
    ensures
        s.len() == n,
    decreases n,
{
    if n == 0 {
        if s.len() > 0 {
            assert(s[0] < 0);
        }
    } else {
        assert(s.contains((n - 1) as usize));
        let k = choose|k: int| 0 <= k < s.len() && s[k] == (n - 1) as usize;
        let s2 = s.remove(k);
        assert forall|i: int| 0 <= i < s2.len() implies #[trigger] s2[i] < n - 1 by {
            let src: int = if i < k {
                i
            } else {
                i + 1
            };
            assert(s2[i] == s[src]);
            assert(s[src] != s[k]);
        }
        assert forall|i: int, j: int| 0 <= i < j < s2.len()
            implies #[trigger] s2[i] != #[trigger] s2[j]
        by {
            let si: int = if i < k {
                i
            } else {
                i + 1
            };
            let sj: int = if j < k {
                j
            } else {
                j + 1
            };
            assert(s2[i] == s[si] && s2[j] == s[sj]);
        }
        assert forall|v: int| 0 <= v < n - 1 implies #[trigger] s2.contains(v as usize) by {
            assert(s.contains(v as usize));
            let j = choose|j: int| 0 <= j < s.len() && s[j] == v as usize;
            assert(s[j] != s[k]);
            let dst: int = if j < k {
                j
            } else {
                j - 1
            };
            assert(s2[dst] == v as usize);
        }
        lemma_nodup_range_full(s2, n - 1);
    }
}

/// The vertex set `s` is closed under the listed edges: each edge has
/// either both or neither endpoint in `s`.
pub open spec fn edges_closed_under(edges: Seq<UnorderedPair>, s: Set<ClientId>) -> bool {
    forall|j: int| 0 <= j < edges.len()
        ==> (s.contains((#[trigger] edges[j]).first) <==> s.contains(edges[j].second))
}

/// The inputs under which an Eulerian circuit through the depot exists,
/// so the walk builder owes success: the two lists hold pairwise distinct
/// edges, every vertex has even degree over them, the first spanning edge
/// starts at the depot, and the edges are connected to the depot (every
/// depot-containing edge-closed vertex set covers all endpoints).
pub open spec fn eulerian_input_ok(mst: Seq<UnorderedPair>, matching: Seq<UnorderedPair>) -> bool {
    let all = mst + matching;
    &&& mst.len() >= 1
    &&& mst[0].first == 0
    &&& forall|i: int, j: int| 0 <= i < j < all.len() ==> all[i] != all[j]
    &&& forall|v: ClientId| #[trigger] degree(all, v) % 2 == 0
    &&& forall|s: Set<ClientId>| s.contains(0) && #[trigger] edges_closed_under(all, s)
            ==> forall|j: int| 0 <= j < all.len()
                ==> s.contains((#[trigger] all[j]).first) && s.contains(all[j].second)
}

/// Unused incident edges of `v` among the first `k` listed edges.
spec fn unused_to(edges: Seq<UnorderedPair>, used: Seq<bool>, v: ClientId, k: int) -> int
    decreases k,
{
    if k <= 0 {
        0
    } else {
        unused_to(edges, used, v, k - 1) + if edges[k - 1].touches(v) && !used[k - 1] {
            1int
        } else {
            0int
        }
    }
}

/// Unused incident edges of `v`.
spec fn unused_degree(edges: Seq<UnorderedPair>, used: Seq<bool>, v: ClientId) -> int {
    unused_to(edges, used, v, edges.len() as int)
}

proof fn lemma_unused_to_mark(edges: Seq<UnorderedPair>, used: Seq<bool>, idx: int, v: ClientId, k: int)
    requires
        0 <= idx < used.len(),
        !used[idx],
        k <= used.len(),
    ensures
        unused_to(edges, used.update(idx, true), v, k)
            == unused_to(edges, used, v, k)
                - if idx < k && edges[idx].touches(v) { 1int } else { 0int },
    decreases k,
{
    if k > 0 {
        lemma_unused_to_mark(edges, used, idx, v, k - 1);
    }
}

/// Marking one unused edge lowers the unused degree of exactly its
/// endpoints.
proof fn lemma_unused_mark(edges: Seq<UnorderedPair>, used: Seq<bool>, idx: int, v: ClientId)
    requires
        0 <= idx < used.len(),
        used.len() == edges.len(),
        !used[idx],
    ensures
        unused_degree(edges, used.update(idx, true), v)
            == unused_degree(edges, used, v) - if edges[idx].touches(v) { 1int } else { 0int },
{
    lemma_unused_to_mark(edges, used, idx, v, edges.len() as int);
}

/// The unused degree is zero exactly when every incident edge is used,
/// and it is never negative.
proof fn lemma_unused_zero(edges: Seq<UnorderedPair>, used: Seq<bool>, v: ClientId, k: int)
    requires
        used.len() == edges.len(),
        0 <= k <= edges.len(),
    ensures
        unused_to(edges, used, v, k) >= 0,
        (unused_to(edges, used, v, k) == 0)
            <==> (forall|e: int| 0 <= e < k && (#[trigger] edges[e]).touches(v) ==> used[e]),
    decreases k,
{
    if k > 0 {
        lemma_unused_zero(edges, used, v, k - 1);
    }
}

/// Before anything is used, the unused degree is the degree.
proof fn lemma_unused_full(edges: Seq<UnorderedPair>, used: Seq<bool>, v: ClientId, k: int)
    requires
        used.len() == edges.len(),
        0 <= k <= edges.len(),
        forall|e: int| 0 <= e < used.len() ==> !used[e],
    ensures
        unused_to(edges, used, v, k) == degree(edges.take(k), v),
    decreases k,
{
    if k > 0 {
        lemma_unused_full(edges, used, v, k - 1);
        assert(edges.take(k).drop_last() =~= edges.take(k - 1));
        assert(edges.take(k).last() == edges[k - 1]);
    } else {
        assert(edges.take(0) =~= Seq::<UnorderedPair>::empty());
    }
}

/// The adjacency row of `v` lists exactly the indices of the edges that
/// touch `v`.
spec fn adj_row_ok(row: Seq<usize>, edges: Seq<UnorderedPair>, v: ClientId) -> bool {
    &&& forall|t: int| 0 <= t < row.len()
            ==> (#[trigger] row[t]) < edges.len() && edges[row[t] as int].touches(v)
    &&& forall|e: int| 0 <= e < edges.len() && (#[trigger] edges[e]).touches(v)
            ==> row.contains(e as usize)
}

proof fn lemma_contains_push(s: Seq<ClientId>, x: ClientId)
    ensures
        forall|y: ClientId| s.contains(y) ==> #[trigger] s.push(x).contains(y),
        s.push(x).contains(x),
{
    assert forall|y: ClientId| s.contains(y) implies #[trigger] s.push(x).contains(y) by {
        let k = choose|k: int| 0 <= k < s.len() && s[k] == y;
        assert(s.push(x)[k] == y);
    }
    assert(s.push(x)[s.len() as int] == x);
}

proof fn lemma_contains_drop_last(s: Seq<ClientId>)
    requires
        s.len() > 0,
    ensures
        forall|y: ClientId| #[trigger] s.contains(y) ==> s.drop_last().contains(y) || y == s.last(),
        forall|y: ClientId| #[trigger] s.drop_last().contains(y) ==> s.contains(y),
{
    assert forall|y: ClientId| #[trigger] s.contains(y)
        implies s.drop_last().contains(y) || y == s.last()
    by {
        let k = choose|k: int| 0 <= k < s.len() && s[k] == y;
        if k < s.len() - 1 {
            assert(s.drop_last()[k] == y);
        }
    }
    assert forall|y: ClientId| #[trigger] s.drop_last().contains(y) implies s.contains(y) by {
        let k = choose|k: int| 0 <= k < s.drop_last().len() && s.drop_last()[k] == y;
        assert(s[k] == y);
    }
}

/// Some edge of `edges` joins `a` and `b`.
pub open spec fn edge_between(edges: Seq<UnorderedPair>, a: ClientId, b: ClientId) -> bool {
    exists|j: int| 0 <= j < edges.len() && (#[trigger] edges[j]).connects(a, b)
}

/// Each consecutive pair of `walk` is joined by an edge of `edges`.
pub open spec fn walk_in_edges(walk: Seq<ClientId>, edges: Seq<UnorderedPair>) -> bool {
    forall|i: int| 0 <= i < walk.len() - 1 ==> edge_between(edges, #[trigger] walk[i], walk[i + 1])
}

/// The assignment `asg` certifies that the walk's steps traverse the
/// listed edges injectively: step `i` goes along edge `asg[i]`, and no
/// edge is assigned twice. Together with `walk.len() == edges.len() + 1`
/// this makes the walk use every listed edge exactly once.
pub open spec fn steps_use_edges_once(walk: Seq<ClientId>, edges: Seq<UnorderedPair>, asg: Seq<usize>) -> bool {
    &&& asg.len() == walk.len() - 1
    &&& forall|i: int| 0 <= i < asg.len()
            ==> (#[trigger] asg[i]) < edges.len() && edges[asg[i] as int].connects(walk[i], walk[i + 1])
    &&& forall|i: int, j: int| 0 <= i < j < asg.len() ==> #[trigger] asg[i] != #[trigger] asg[j]
}

/// Both endpoints of every edge of `edges` occur in `walk`.
pub open spec fn covers_endpoints(walk: Seq<ClientId>, edges: Seq<UnorderedPair>) -> bool {
    forall|j: int| 0 <= j < edges.len()
        ==> walk.contains((#[trigger] edges[j]).first) && walk.contains(edges[j].second)
}

/// Capacity left on the per-vertex adjacency cursors, over vertices below `k`.
spec fn cursor_slack(lens: Seq<int>, cur: Seq<usize>, k: int) -> int
    decreases k,
{
    if k <= 0 {
        0
    } else {
        cursor_slack(lens, cur, k - 1) + (lens[k - 1] - cur[k - 1])
    }
}

proof fn lemma_cursor_slack_nonneg(lens: Seq<int>, cur: Seq<usize>, k: int)
    requires
        k <= lens.len(),
        k <= cur.len(),
        forall|v: int| 0 <= v < k ==> cur[v] <= #[trigger] lens[v],
    ensures
        cursor_slack(lens, cur, k) >= 0,
    decreases k,
{
    if k > 0 {
        lemma_cursor_slack_nonneg(lens, cur, k - 1);
    }
}

proof fn lemma_cursor_slack_update(lens: Seq<int>, cur: Seq<usize>, v: int, x: usize, k: int)
    requires
        0 <= v < cur.len(),
        k <= cur.len(),
    ensures
        cursor_slack(lens, cur.update(v, x), k)
            == cursor_slack(lens, cur, k) + if v < k { cur[v] - x } else { 0int },
    decreases k,
{
    if k > 0 {
        lemma_cursor_slack_update(lens, cur, v, x, k - 1);
    }
}

/// Scans a list for an edge equal to `e`.
fn edge_already_listed(edges: &Vec<UnorderedPair>, e: UnorderedPair) -> (r: bool)
    ensures
        r == edges@.contains(e),
{
    let mut j: usize = 0;
    while j < edges.len()
        invariant
            j <= edges@.len(),
            forall|t: int| 0 <= t < j ==> edges@[t] != e,
        decreases edges@.len() - j,
    {
        if edges[j] == e {
            return true;
        }
        j += 1;
    }
    false
}

/// Scans a list for a vertex.
fn find_vertex(walk: &Vec<ClientId>, v: ClientId) -> (r: bool)
    ensures
        r == walk@.contains(v),
{
    let mut j: usize = 0;
    while j < walk.len()
        invariant
            j <= walk@.len(),
            forall|t: int| 0 <= t < j ==> walk@[t] != v,
        decreases walk@.len() - j,
    {
        if walk[j] == v {
            return true;
        }
        j += 1;
    }
    false
}

/// Every queued edge has distinct in-range endpoints, one of them marked.
pub open spec fn queue_edges_wf(m: Map<(usize, usize), u64>, included: Seq<bool>, n: int) -> bool {
    forall|item: (usize, usize)| #[trigger] m.dom().contains(item)
        ==> item.0 < item.1 < n && (included[item.0 as int] || included[item.1 as int])
}

/// The edges collected so far are valid, and every marked vertex is an
/// endpoint of a collected edge (the root once the first edge exists).
pub open spec fn tree_partial_wf(edges: Seq<UnorderedPair>, included: Seq<bool>, n: int) -> bool {
    &&& forall|i: int| 0 <= i < edges.len() ==> edge_valid(#[trigger] edges[i], n)
    &&& forall|v: int| 0 <= v < n && #[trigger] included[v] && v != 0 ==> appears_in(edges, v as usize)
    &&& (edges.len() > 0 ==> appears_in(edges, 0))
}


/// A checked Eulerian walk over valid edges stays below the vertex bound,
/// and covers every vertex that the spanning edges cover.
proof fn lemma_walk_vertices(mst: Seq<UnorderedPair>, matching: Seq<UnorderedPair>, t: Seq<ClientId>, n: int)
    requires
        t.len() >= 2,
        walk_in_edges(t, mst + matching),
        covers_endpoints(t, mst + matching),
        forall|i: int| 0 <= i < mst.len() ==> edge_valid(#[trigger] mst[i], n),
        forall|i: int| 0 <= i < matching.len() ==> edge_valid(#[trigger] matching[i], n),
        forall|v: int| 0 <= v < n ==> #[trigger] appears_in(mst, v as usize),
    ensures
        forall|k: int| 0 <= k < t.len() ==> #[trigger] t[k] < n,
        forall|v: int| 0 <= v < n ==> #[trigger] t.contains(v as usize),
{
    let all = mst + matching;
    assert forall|k: int| 0 <= k < t.len() implies #[trigger] t[k] < n by {
        let i2: int = if k < t.len() - 1 {
            k
        } else {
            k - 1
        };
        assert(edge_between(all, t[i2], t[i2 + 1]));
        let j = choose|j: int| 0 <= j < all.len() && (#[trigger] all[j]).connects(t[i2], t[i2 + 1]);
        if j < mst.len() {
            assert(all[j] == mst[j]);
            assert(edge_valid(mst[j], n));
        } else {
            assert(all[j] == matching[j - mst.len()]);
            assert(edge_valid(matching[j - mst.len()], n));
        }
    }
    assert forall|v: int| 0 <= v < n implies #[trigger] t.contains(v as usize) by {
        assert(appears_in(mst, v as usize));
        let j = choose|j: int| 0 <= j < mst.len() && (#[trigger] mst[j]).touches(v as usize);
        assert(all[j] == mst[j]);
        assert(t.contains(all[j].first) && t.contains(all[j].second));
    }
}

/// Checks a raw pairing handed back by the matching capability: accepted,
/// and converted to canonical edges, exactly when the pairs form a perfect
/// matching of `subset`.
pub fn check_matching(raw: &Vec<(usize, usize)>, subset: &Vec<ClientId>, n: usize) -> (r: Option<Vec<UnorderedPair>>)
    requires
        n <= MAX_CLIENTS,
        subset@.len() <= n,
        forall|i: int| 0 <= i < subset@.len() ==> #[trigger] subset@[i] < n,
        forall|i: int, j: int| 0 <= i < j < subset@.len() ==> subset@[i] != subset@[j],
    ensures
        r is Some <==> pairs_form_perfect_matching(raw@, subset@, n as int),
        match r {
            Some(m) => {
                &&& is_perfect_matching(m@, subset@, n as int)
                &&& m@.len() == raw@.len()
                &&& forall|i: int| 0 <= i < m@.len()
                        ==> (#[trigger] m@[i]).connects(raw@[i].0, raw@[i].1)
            },
            None => true,
        },
{
    let slen = subset.len();
    let mut in_subset: Vec<bool> = Vec::new();
    let mut v: usize = 0;
    while v < n
        invariant
            v <= n,
            in_subset@.len() == v,
            forall|k: int| 0 <= k < v ==> !(#[trigger] in_subset@[k]),
        decreases n - v,
    {
        in_subset.push(false);
        v += 1;
    }
    let mut i: usize = 0;
    while i < slen
        invariant
            i <= slen,
            slen == subset@.len(),
            slen <= n,
            in_subset@.len() == n,
            forall|k: int| 0 <= k < slen ==> #[trigger] subset@[k] < n,
            forall|w: int| 0 <= w < n
                ==> (#[trigger] in_subset@[w] <==> in_prefix(subset@, i as int, w as usize)),
        decreases slen - i,
    {
        let ghost pre = in_subset@;
        in_subset.set(subset[i], true);
        proof {
            assert forall|w: int| 0 <= w < n
                implies (#[trigger] in_subset@[w] <==> in_prefix(subset@, i + 1, w as usize))
            by {
                if w == subset@[i as int] {
                    assert(subset@[i as int] == w as usize);
                } else {
                    if in_prefix(subset@, i + 1, w as usize) {
                        let j = choose|j: int| 0 <= j < i + 1 && #[trigger] subset@[j] == w as usize;
                        assert(0 <= j < i && subset@[j] == w as usize);
                    }
                }
            }
        }
        i += 1;
    }

    let mut covered: Vec<bool> = Vec::new();
    let mut v: usize = 0;
    while v < n
        invariant
            v <= n,
            covered@.len() == v,
            forall|k: int| 0 <= k < v ==> !(#[trigger] covered@[k]),
        decreases n - v,
    {
        covered.push(false);
        v += 1;
    }
    proof {
        assert(raw@.take(0) =~= Seq::<(usize, usize)>::empty());
        assert forall|x: int| 0 <= x < n
            implies #[trigger] pair_degree(raw@.take(0), x as usize)
                == if covered@[x] { 1int } else { 0int }
        by {
        }
    }

    let mut result: Vec<UnorderedPair> = Vec::new();
    let mut idx: usize = 0;
    while idx < raw.len()
        invariant
            idx <= raw@.len(),
            slen == subset@.len(),
            slen <= n,
            n <= MAX_CLIENTS,
            in_subset@.len() == n,
            covered@.len() == n,
            forall|k: int| 0 <= k < slen ==> #[trigger] subset@[k] < n,
            forall|w: int| 0 <= w < n
                ==> (#[trigger] in_subset@[w] <==> in_prefix(subset@, slen as int, w as usize)),
            result@.len() == idx,
            forall|t: int| 0 <= t < idx
                ==> (#[trigger] raw@[t]).0 < n && raw@[t].1 < n && raw@[t].0 != raw@[t].1
                    && subset@.contains(raw@[t].0) && subset@.contains(raw@[t].1),
            forall|t: int| 0 <= t < result@.len() ==> edge_valid(#[trigger] result@[t], n as int),
            forall|t: int| 0 <= t < result@.len()
                ==> subset@.contains((#[trigger] result@[t]).first) && subset@.contains(result@[t].second),
            forall|t: int| 0 <= t < result@.len()
                ==> (#[trigger] result@[t]).connects(raw@[t].0, raw@[t].1),
            forall|x: int| 0 <= x < n
                ==> #[trigger] degree(result@, x as usize) == pair_degree(raw@.take(idx as int), x as usize),
            forall|x: int| 0 <= x < n
                ==> #[trigger] pair_degree(raw@.take(idx as int), x as usize)
                    == if covered@[x] { 1int } else { 0int },
        decreases raw@.len() - idx,
    {
        let (u, w) = raw[idx];
        proof {
            lemma_pair_degree_take_le(raw@, idx + 1, u);
            lemma_pair_degree_take_le(raw@, idx + 1, w);
            lemma_pair_degree_take_step(raw@, idx as int, u);
            lemma_pair_degree_take_step(raw@, idx as int, w);
        }
        if u >= n || w >= n || u == w {
            proof {
                assert(!pairs_form_perfect_matching(raw@, subset@, n as int)) by {
                    assert(raw@[idx as int].0 == u && raw@[idx as int].1 == w);
                }
            }
            return None;
        }
        if !in_subset[u] || !in_subset[w] {
            proof {
                assert(!pairs_form_perfect_matching(raw@, subset@, n as int)) by {
                    if subset@.contains(u) {
                        let j = choose|j: int| 0 <= j < slen && #[trigger] subset@[j] == u;
                        assert(in_prefix(subset@, slen as int, u));
                    }
                    if subset@.contains(w) {
                        let j = choose|j: int| 0 <= j < slen && #[trigger] subset@[j] == w;
                        assert(in_prefix(subset@, slen as int, w));
                    }
                    assert(raw@[idx as int].0 == u && raw@[idx as int].1 == w);
                }
            }
            return None;
        }
        if covered[u] || covered[w] {
            proof {
                assert(!pairs_form_perfect_matching(raw@, subset@, n as int)) by {
                    if covered@[u as int] {
                        assert(pair_degree(raw@, u) >= 2);
                        assert(in_subset@[u as int]);
                        let j = choose|j: int| 0 <= j < slen && #[trigger] subset@[j] == u;
                        assert(pair_degree(raw@, subset@[j]) != 1);
                    } else {
                        assert(pair_degree(raw@, w) >= 2);
                        assert(in_subset@[w as int]);
                        let j = choose|j: int| 0 <= j < slen && #[trigger] subset@[j] == w;
                        assert(pair_degree(raw@, subset@[j]) != 1);
                    }
                }
            }
            return None;
        }
        proof {
            assert(in_prefix(subset@, slen as int, u));
            let ju = choose|j: int| 0 <= j < slen && #[trigger] subset@[j] == u;
            assert(subset@.contains(u));
            assert(in_prefix(subset@, slen as int, w));
            let jw = choose|j: int| 0 <= j < slen && #[trigger] subset@[j] == w;
            assert(subset@.contains(w));
        }
        let ghost cov0 = covered@;
        covered.set(u, true);
        covered.set(w, true);
        let e = UnorderedPair::new(u, w);
        let ghost res0 = result@;
        result.push(e);
        proof {
            lemma_degree_push(res0, e);
            assert forall|x: int| 0 <= x < n
                implies #[trigger] degree(result@, x as usize)
                    == pair_degree(raw@.take(idx + 1), x as usize)
            by {
                lemma_pair_degree_take_step(raw@, idx as int, x as usize);
                assert(degree(result@, x as usize)
                    == degree(res0, x as usize) + if e.touches(x as usize) { 1int } else { 0int });
            }
            assert forall|x: int| 0 <= x < n
                implies #[trigger] pair_degree(raw@.take(idx + 1), x as usize)
                    == if covered@[x] { 1int } else { 0int }
            by {
                lemma_pair_degree_take_step(raw@, idx as int, x as usize);
            }
        }
        idx += 1;
    }
    proof {
        assert(raw@.take(raw@.len() as int) =~= raw@);
    }

    let mut j: usize = 0;
    while j < slen
        invariant
            j <= slen,
            slen == subset@.len(),
            covered@.len() == n,
            forall|k: int| 0 <= k < slen ==> #[trigger] subset@[k] < n,
            forall|x: int| 0 <= x < n
                ==> #[trigger] pair_degree(raw@, x as usize) == if covered@[x] { 1int } else { 0int },
            forall|t: int| 0 <= t < j ==> covered@[#[trigger] subset@[t] as int],
        decreases slen - j,
    {
        if !covered[subset[j]] {
            proof {
                assert(!pairs_form_perfect_matching(raw@, subset@, n as int)) by {
                    let x: int = subset@[j as int] as int;
                    assert(pair_degree(raw@, x as usize) == if covered@[x] { 1int } else { 0int });
                    assert(pair_degree(raw@, subset@[j as int]) == 0);
                }
            }
            return None;
        }
        j += 1;
    }

    if result.len() > slen || result.len() * 2 != slen {
        proof {
            assert(!pairs_form_perfect_matching(raw@, subset@, n as int));
        }
        return None;
    }
    proof {
        assert forall|t: int| 0 <= t < subset@.len()
            implies degree(result@, #[trigger] subset@[t]) == 1
        by {
            let x: int = subset@[t] as int;
            assert(pair_degree(raw@, x as usize) == if covered@[x] { 1int } else { 0int });
            assert(degree(result@, x as usize) == pair_degree(raw@, x as usize));
            assert(covered@[x]);
        }
        assert forall|t: int| 0 <= t < subset@.len()
            implies pair_degree(raw@, #[trigger] subset@[t]) == 1
        by {
            let x: int = subset@[t] as int;
            assert(pair_degree(raw@, x as usize) == if covered@[x] { 1int } else { 0int });
            assert(covered@[x]);
        }
        assert(pairs_form_perfect_matching(raw@, subset@, n as int));
    }
    Some(result)
}

/// The two endpoints in canonical queue order.
pub open spec fn ordered_endpoints(a: int, b: int) -> (usize, usize) {
    if a < b {
        (a as usize, b as usize)
    } else {
        (b as usize, a as usize)
    }
}

/// Vertex `v` lies on the grown side of the cut after the given edges:
/// it is the root or an endpoint of a grown edge.
pub open spec fn cut_side(edges: Seq<UnorderedPair>, v: ClientId) -> bool {
    v == 0 || appears_in(edges, v)
}

/// Edge `i` of the tree is a lightest edge across the cut it bridged: no
/// edge from the side grown by the first `i` edges to the other side is
/// shorter. This is the cut property of the greedy growth.
#[verifier::opaque]
pub open spec fn cut_minimal_at(g: VehicleRoutingGraph, tree: Seq<UnorderedPair>, i: int) -> bool {
    forall|a: int, b: int|
        0 <= a < g.n() && 0 <= b < g.n()
        && cut_side(tree.take(i), a as usize) && !cut_side(tree.take(i), b as usize)
        ==> g.dist(tree[i].first as int, tree[i].second as int) <= #[trigger] g.dist(a, b)
}

/// Every queued candidate edge is keyed by its complemented length.
#[verifier::opaque]
pub open spec fn queue_priced(g: VehicleRoutingGraph, m: Map<(usize, usize), u64>) -> bool {
    forall|item: (usize, usize)| #[trigger] m.dom().contains(item)
        ==> m[item] as int == u64::MAX - g.dist(item.0 as int, item.1 as int)
}

/// Every edge across the current cut is still queued.
#[verifier::opaque]
pub open spec fn queue_covers_cut(m: Map<(usize, usize), u64>, included: Seq<bool>, n: int) -> bool {
    forall|a: int, b: int|
        0 <= a < n && 0 <= b < n && #[trigger] included[a] && !(#[trigger] included[b])
        ==> m.dom().contains(ordered_endpoints(a, b))
}

/// The edge the queue pop selected is a lightest edge across the cut of
/// the grown side: the queue held every cut edge keyed by complemented
/// length, and the popped key was greatest.
proof fn lemma_cut_step(
    g: VehicleRoutingGraph,
    tree0: Seq<UnorderedPair>,
    edge: UnorderedPair,
    inc0: Seq<bool>,
    q0: Map<(usize, usize), u64>,
    prio: u64,
    n: int,
)
    requires
        g.wf(),
        n == g.n(),
        inc0.len() == n,
        inc0[0],
        forall|i: int| 0 <= i < tree0.len()
            ==> inc0[(#[trigger] tree0[i]).first as int] && inc0[tree0[i].second as int],
        tree_partial_wf(tree0, inc0, n),
        queue_priced(g, q0),
        queue_covers_cut(q0, inc0, n),
        q0.dom().contains((edge.first, edge.second)),
        forall|other: (usize, usize)| #[trigger] q0.dom().contains(other) ==> q0[other] <= prio,
        prio == q0[(edge.first, edge.second)],
        edge.first < n,
        edge.second < n,
    ensures
        cut_minimal_at(g, tree0.push(edge), tree0.len() as int),
{
    reveal(queue_priced);
    reveal(queue_covers_cut);
    reveal(cut_minimal_at);
    let tree = tree0.push(edge);
    assert(tree.take(tree0.len() as int) =~= tree0);
    assert(tree[tree0.len() as int] == edge);
    assert forall|a2: int, b2: int|
        0 <= a2 < n && 0 <= b2 < n
        && cut_side(tree0, a2 as usize) && !cut_side(tree0, b2 as usize)
        implies g.dist(edge.first as int, edge.second as int) <= #[trigger] g.dist(a2, b2)
    by {
        assert(inc0[a2]) by {
            if a2 != 0 {
                let w = choose|w: int| 0 <= w < tree0.len()
                    && (#[trigger] tree0[w]).touches(a2 as usize);
                assert(inc0[tree0[w].first as int] && inc0[tree0[w].second as int]);
            }
        }
        assert(!inc0[b2]) by {
            if inc0[b2] {
                assert(b2 != 0);
                assert(appears_in(tree0, b2 as usize));
            }
        }
        let key = ordered_endpoints(a2, b2);
        assert(q0.dom().contains(key));
        assert(q0[key] as int == u64::MAX - g.dist(key.0 as int, key.1 as int));
        assert(g.dist(key.0 as int, key.1 as int) == g.dist(a2, b2));
        assert(q0[key] <= prio);
        assert(prio as int == u64::MAX - g.dist(edge.first as int, edge.second as int));
    }
}

impl VehicleRoutingGraph {
    /// Minimum spanning tree by Prim's algorithm, rooted at the depot.
    ///
    /// The frontier queue keys candidate edges by complemented distance, so
    /// popping the greatest priority extracts a lightest frontier edge.
    /// The tree spans the graph: exactly `n - 1` edges, and (for `n >= 2`)
    /// every client is the endpoint of at least one tree edge.
    #[verifier::rlimit(100)]
    #[verifier::spinoff_prover]
    pub fn mst(&self) -> (tree: Vec<UnorderedPair>)
        requires
            self.wf(),
        ensures
            tree@.len() == self.n() - 1,
            forall|i: int| 0 <= i < tree@.len() ==> edge_valid(#[trigger] tree@[i], self.n()),
            forall|i: int| 0 <= i < tree@.len() ==> #[trigger] tree_growth_step(tree@, i),
            forall|i: int| 0 <= i < tree@.len() ==> #[trigger] cut_minimal_at(*self, tree@, i),
            self.n() >= 2 ==> forall|v: int| 0 <= v < self.n() ==> #[trigger] appears_in(tree@, v as usize),
    {
        let n = self.clients.len();

        let mut included: Vec<bool> = Vec::new();
        let mut i: usize = 0;
        while i < n
            invariant
                i <= n,
                included@.len() == i,
                forall|k: int| 0 <= k < i ==> !(#[trigger] included@[k]),
            decreases n - i,
        {
            included.push(false);
            i += 1;
        }
        proof {
            lemma_count_true_none(included@);
        }
        let ghost inc_init = included@;
        included.set(0, true);
        proof {
            lemma_count_true_update(inc_init, 0);
        }
        let mut count: usize = 1;
        let mut tree: Vec<UnorderedPair> = Vec::new();
        let mut pq = edge_queue_new();
        proof {
            reveal(queue_priced);
        }

        let mut other: usize = 1;
        while other < n
            invariant
                1 <= other <= n,
                n == self.n(),
                self.wf(),
                included@.len() == n,
                included@[0],
                forall|k: int| 1 <= k < n ==> !(#[trigger] included@[k]),
                edge_queue_entries(pq).dom().finite(),
                queue_edges_wf(edge_queue_entries(pq), included@, n as int),
                queue_priced(*self, edge_queue_entries(pq)),
                forall|j: int| 1 <= j < other
                    ==> #[trigger] edge_queue_entries(pq).dom().contains((0usize, j as usize)),
            decreases n - other,
        {
            let d = self.distance(0, other);
            let ghost qpre = edge_queue_entries(pq);
            edge_queue_push(&mut pq, (0, other), u64::MAX - d);
            proof {
                reveal(queue_priced);
                assert forall|item: (usize, usize)|
                    #[trigger] edge_queue_entries(pq).dom().contains(item)
                    implies edge_queue_entries(pq)[item] as int
                        == u64::MAX - self.dist(item.0 as int, item.1 as int)
                by {
                    if item != (0usize, other as usize) {
                        assert(qpre.dom().contains(item));
                        assert(edge_queue_entries(pq)[item] == qpre[item]);
                    }
                }
            }
            other += 1;
        }
        proof {
            reveal(queue_covers_cut);
            reveal(cut_minimal_at);
            assert forall|a2: int, b2: int|
                0 <= a2 < n && 0 <= b2 < n && #[trigger] included@[a2] && !(#[trigger] included@[b2])
                implies edge_queue_entries(pq).dom().contains(ordered_endpoints(a2, b2))
            by {
                assert(a2 == 0);
                assert(edge_queue_entries(pq).dom().contains((0usize, b2 as usize)));
            }
            assert(queue_covers_cut(edge_queue_entries(pq), included@, n as int));
        }

        while count < n
            invariant
                n == self.n(),
                self.wf(),
                1 <= count <= n,
                included@.len() == n,
                included@[0],
                count == count_true(included@),
                tree@.len() == count - 1,
                tree_partial_wf(tree@, included@, n as int),
                forall|i: int| 0 <= i < tree@.len()
                    ==> included@[(#[trigger] tree@[i]).first as int] && included@[tree@[i].second as int],
                forall|i: int| 0 <= i < tree@.len() ==> #[trigger] tree_growth_step(tree@, i),
                edge_queue_entries(pq).dom().finite(),
                queue_edges_wf(edge_queue_entries(pq), included@, n as int),
                queue_priced(*self, edge_queue_entries(pq)),
                queue_covers_cut(edge_queue_entries(pq), included@, n as int),
                forall|i: int| 0 <= i < tree@.len() ==> #[trigger] cut_minimal_at(*self, tree@, i),
            decreases n - count, edge_queue_entries(pq).dom().len(),
        {
            let ghost q0 = edge_queue_entries(pq);
            proof {
                assert_by_contradiction!(exists|v: int| 0 <= v < n && !included@[v], {
                    assert(forall|v: int| 0 <= v < n ==> included@[v]);
                    lemma_count_true_all(included@);
                });
                let v = choose|v: int| 0 <= v < n && !included@[v];
                assert(included@[0] && !included@[v]);
                assert(q0.dom().contains(ordered_endpoints(0, v))) by {
                    reveal(queue_covers_cut);
                }
            }
            let popped = edge_queue_pop(&mut pq);
            let entry = match popped {
                Some(entry) => entry,
                None => {
                    proof {
                        assert(false);
                    }
                    ((0, 0), 0)
                },
            };
            let (a, b) = entry.0;
            proof {
                assert(q0.dom().contains((a, b)));
            }

            let new_client = if !included[a] {
                a
            } else if !included[b] {
                b
            } else {
                // both endpoints already joined: drop the edge and go on
                proof {
                    assert(queue_covers_cut(edge_queue_entries(pq), included@, n as int)) by {
                        reveal(queue_covers_cut);
                        assert forall|a2: int, b2: int|
                            0 <= a2 < n && 0 <= b2 < n && #[trigger] included@[a2] && !(#[trigger] included@[b2])
                            implies edge_queue_entries(pq).dom().contains(ordered_endpoints(a2, b2))
                        by {
                            reveal(queue_covers_cut);
                            assert(q0.dom().contains(ordered_endpoints(a2, b2)));
                            assert(ordered_endpoints(a2, b2) != (a, b));
                        }
                    }
                    assert(queue_priced(*self, edge_queue_entries(pq))) by {
                        reveal(queue_priced);
                        assert forall|item: (usize, usize)|
                            #[trigger] edge_queue_entries(pq).dom().contains(item)
                            implies edge_queue_entries(pq)[item] as int
                                == u64::MAX - self.dist(item.0 as int, item.1 as int)
                        by {
                            reveal(queue_priced);
                            assert(q0.dom().contains(item));
                            assert(edge_queue_entries(pq)[item] == q0[item]);
                        }
                    }
                }
                continue;
            };
            let anchor = if new_client == a {
                b
            } else {
                a
            };
            proof {
                assert(included@[anchor as int]);
                assert(!included@[new_client as int]);
            }

            let ghost inc0 = included@;
            included.set(new_client, true);
            proof {
                lemma_count_true_update(inc0, new_client as int);
            }
            count += 1;

            let edge = UnorderedPair::new(a, b);
            let ghost tree0 = tree@;
            tree.push(edge);
            proof {
                lemma_appears_push(tree0, edge);
                assert forall|i: int| 0 <= i < tree@.len() implies #[trigger] tree_growth_step(tree@, i) by {
                    reveal(tree_growth_step);
                    assert(tree@.take(i) =~= tree0.take(i));
                    if i < tree0.len() {
                        assert(tree_growth_step(tree0, i));
                        let fresh = choose|fresh: ClientId|
                            (#[trigger] tree0[i].touches(fresh))
                            && !appears_in(tree0.take(i), fresh)
                            && fresh != 0
                            && ({
                                let other: ClientId = if tree0[i].first == fresh {
                                    tree0[i].second
                                } else {
                                    tree0[i].first
                                };
                                other == 0 || appears_in(tree0.take(i), other)
                            });
                        assert(tree@[i] == tree0[i]);
                        assert(tree@[i].touches(fresh));
                    } else {
                        assert(tree@.take(i) =~= tree0);
                        assert(tree@[i] == edge);
                        assert(edge.touches(new_client));
                        // the new endpoint was not yet joined, so no earlier
                        // edge touches it
                        assert(!appears_in(tree0, new_client)) by {
                            if appears_in(tree0, new_client) {
                                let w = choose|w: int| 0 <= w < tree0.len()
                                    && (#[trigger] tree0[w]).touches(new_client);
                                assert(inc0[tree0[w].first as int] && inc0[tree0[w].second as int]);
                            }
                        }
                        assert(new_client != 0);
                        let other: ClientId = if edge.first == new_client {
                            edge.second
                        } else {
                            edge.first
                        };
                        assert(other == anchor);
                        assert(other == 0 || appears_in(tree0, other));
                    }
                }
                if count_true(inc0) == 1 {
                    // only the depot was joined, so the anchor is the depot
                    if anchor != 0 {
                        lemma_count_true_two(inc0, 0, anchor as int);
                    }
                } else {
                    assert(tree0.len() > 0);
                }
                assert forall|v: int| 0 <= v < n && #[trigger] included@[v] && v != 0
                    implies appears_in(tree@, v as usize)
                by {
                    if v != new_client {
                        assert(inc0[v]);
                    } else {
                        assert(edge.touches(new_client));
                    }
                }
                // the added edge is a lightest edge across the old cut
                assert(edge.first == a && edge.second == b);
                lemma_cut_step(*self, tree0, edge, inc0, q0, entry.1, n as int);
                assert forall|i2: int| 0 <= i2 < tree@.len()
                    implies #[trigger] cut_minimal_at(*self, tree@, i2)
                by {
                    reveal(cut_minimal_at);
                    assert(tree@.take(i2) =~= tree0.take(i2));
                    if i2 < tree0.len() {
                        assert(cut_minimal_at(*self, tree0, i2));
                        assert(tree@[i2] == tree0[i2]);
                    } else {
                        assert(tree@ == tree0.push(edge));
                        assert(cut_minimal_at(*self, tree0.push(edge), tree0.len() as int));
                    }
                }
                // every edge across the new cut, except those at the new
                // client, is still queued
                assert forall|a2: int, b2: int|
                    0 <= a2 < n && 0 <= b2 < n && #[trigger] included@[a2] && !(#[trigger] included@[b2])
                    && a2 != new_client as int
                    implies edge_queue_entries(pq).dom().contains(ordered_endpoints(a2, b2))
                by {
                    reveal(queue_covers_cut);
                    assert(inc0[a2] && !inc0[b2]);
                    assert(q0.dom().contains(ordered_endpoints(a2, b2)));
                    assert(ordered_endpoints(a2, b2) != (a, b));
                }
                assert(queue_priced(*self, edge_queue_entries(pq))) by {
                    reveal(queue_priced);
                    assert forall|item: (usize, usize)|
                        #[trigger] edge_queue_entries(pq).dom().contains(item)
                        implies edge_queue_entries(pq)[item] as int
                            == u64::MAX - self.dist(item.0 as int, item.1 as int)
                    by {
                        reveal(queue_priced);
                        assert(q0.dom().contains(item));
                        assert(edge_queue_entries(pq)[item] == q0[item]);
                    }
                }
            }

            let mut client: usize = 0;
            while client < n
                invariant
                    client <= n,
                    n == self.n(),
                    self.wf(),
                    included@.len() == n,
                    new_client < n,
                    included@[new_client as int],
                    edge_queue_entries(pq).dom().finite(),
                    queue_edges_wf(edge_queue_entries(pq), included@, n as int),
                    queue_priced(*self, edge_queue_entries(pq)),
                    forall|a2: int, b2: int|
                        0 <= a2 < n && 0 <= b2 < n && #[trigger] included@[a2] && !(#[trigger] included@[b2])
                        && a2 != new_client as int
                        ==> edge_queue_entries(pq).dom().contains(ordered_endpoints(a2, b2)),
                    forall|c2: int| 0 <= c2 < client && !(#[trigger] included@[c2])
                        ==> edge_queue_entries(pq).dom().contains(ordered_endpoints(new_client as int, c2)),
                decreases n - client,
            {
                if !included[client] {
                    let d = self.distance(new_client, client);
                    let item = if new_client < client {
                        (new_client, client)
                    } else {
                        (client, new_client)
                    };
                    let ghost q1 = edge_queue_entries(pq);
                    edge_queue_push(&mut pq, item, u64::MAX - d);
                    proof {
                        assert(item == ordered_endpoints(new_client as int, client as int));
                        assert(self.dist(item.0 as int, item.1 as int)
                            == self.dist(new_client as int, client as int));
                        reveal(queue_priced);
                        assert forall|it: (usize, usize)|
                            #[trigger] edge_queue_entries(pq).dom().contains(it)
                            implies edge_queue_entries(pq)[it] as int
                                == u64::MAX - self.dist(it.0 as int, it.1 as int)
                        by {
                            if it != item {
                                assert(q1.dom().contains(it));
                                assert(edge_queue_entries(pq)[it] == q1[it]);
                            }
                        }
                        assert(queue_priced(*self, edge_queue_entries(pq)));
                    }
                }
                client += 1;
            }
            proof {
                reveal(queue_covers_cut);
                assert forall|a2: int, b2: int|
                    0 <= a2 < n && 0 <= b2 < n && #[trigger] included@[a2] && !(#[trigger] included@[b2])
                    implies edge_queue_entries(pq).dom().contains(ordered_endpoints(a2, b2))
                by {
                    if a2 == new_client as int {
                        assert(edge_queue_entries(pq).dom().contains(ordered_endpoints(new_client as int, b2)));
                    }
                }
                assert(queue_covers_cut(edge_queue_entries(pq), included@, n as int));
            }
        }

        proof {
            lemma_count_true_full(included@);
            if n >= 2 {
                assert(appears_in(tree@, 0));
                assert forall|v: int| 0 <= v < n implies #[trigger] appears_in(tree@, v as usize) by {
                    if v != 0 {
                        assert(included@[v]);
                    }
                }
            }
        }
        tree
    }

    /// Minimum-weight perfect matching over `subset`, delegated to the
    /// external matching capability. The returned raw pairing is checked by
    /// `check_matching`, so an `Ok` result is a perfect matching of
    /// `subset` no matter what the capability produced; a refused pairing
    /// is reported the same way as a failed matching.
    pub fn find_minimum_weight_matching(&self, subset: &Vec<ClientId>) -> (r: Result<Vec<UnorderedPair>, SolveError>)
        requires
            self.wf(),
            subset@.len() <= self.n(),
            forall|i: int| 0 <= i < subset@.len() ==> #[trigger] subset@[i] < self.n(),
            forall|i: int, j: int| 0 <= i < j < subset@.len() ==> subset@[i] != subset@[j],
            subset@.len() % 2 == 0,
        ensures
            match r {
                Ok(m) => is_perfect_matching(m@, subset@, self.n()),
                Err(e) => e == SolveError::MatchingFailed,
            },
    {
        let n = self.clients.len();
        let raw = match raw_weighted_matching(subset, &self.distance_matrix) {
            Some(raw) => raw,
            None => {
                return Err(SolveError::MatchingFailed);
            },
        };
        match check_matching(&raw, subset, n) {
            Some(matching) => Ok(matching),
            None => Err(SolveError::MatchingFailed),
        }
    }

    /// Closed walk over the multigraph formed by the spanning tree and the
    /// matching, built with Hierholzer's stack algorithm and then checked:
    /// an `Ok` walk starts and ends at the depot, has one vertex per edge
    /// plus one, steps along the listed edges using each exactly once, and
    /// touches both endpoints of every listed edge. A walk that fails the
    /// check is an error — and for an Eulerian input (`eulerian_input_ok`)
    /// the checks provably pass, so success is owed.
    #[verifier::rlimit(100)]
    pub fn find_eulerian_tour(mst: &Vec<UnorderedPair>, matching: &Vec<UnorderedPair>) -> (r: Result<Vec<ClientId>, SolveError>)
        requires
            1 <= mst@.len() <= MAX_CLIENTS,
            matching@.len() <= MAX_CLIENTS,
            forall|i: int| 0 <= i < mst@.len() ==> edge_valid(#[trigger] mst@[i], MAX_CLIENTS as int),
            forall|i: int| 0 <= i < matching@.len() ==> edge_valid(#[trigger] matching@[i], MAX_CLIENTS as int),
        ensures
            match r {
                Ok(t) => {
                    &&& t@.len() == mst@.len() + matching@.len() + 1
                    &&& t@[0] == 0
                    &&& t@[t@.len() - 1] == 0
                    &&& walk_in_edges(t@, mst@ + matching@)
                    &&& exists|asg: Seq<usize>|
                            #[trigger] steps_use_edges_once(t@, mst@ + matching@, asg)
                    &&& covers_endpoints(t@, mst@ + matching@)
                    &&& forall|i: int| 0 <= i < t@.len() ==> #[trigger] t@[i] < MAX_CLIENTS
                },
                Err(e) => e == SolveError::EulerianFailed,
            },
            eulerian_input_ok(mst@, matching@) ==> r is Ok,
    {
        let ghost h = eulerian_input_ok(mst@, matching@);
        let ghost all = mst@ + matching@;
        let total = mst.len() + matching.len();

        // vertex bound: one past the largest endpoint
        let mut bound: usize = 0;
        let mut i: usize = 0;
        while i < mst.len()
            invariant
                i <= mst@.len(),
                bound <= MAX_CLIENTS,
                forall|t: int| 0 <= t < mst@.len() ==> edge_valid(#[trigger] mst@[t], MAX_CLIENTS as int),
                forall|t: int| 0 <= t < i ==> (#[trigger] mst@[t]).second < bound,
            decreases mst@.len() - i,
        {
            if mst[i].second >= bound {
                bound = mst[i].second + 1;
            }
            i += 1;
        }
        let mut i: usize = 0;
        while i < matching.len()
            invariant
                i <= matching@.len(),
                bound <= MAX_CLIENTS,
                forall|t: int| 0 <= t < matching@.len()
                    ==> edge_valid(#[trigger] matching@[t], MAX_CLIENTS as int),
                forall|t: int| 0 <= t < mst@.len() ==> (#[trigger] mst@[t]).second < bound,
                forall|t: int| 0 <= t < i ==> (#[trigger] matching@[t]).second < bound,
            decreases matching@.len() - i,
        {
            if matching[i].second >= bound {
                bound = matching[i].second + 1;
            }
            i += 1;
        }

        // the distinct edges of the multigraph (the walk may use each once);
        // for a distinct-edge input nothing is dropped
        let mut edges_list: Vec<UnorderedPair> = Vec::new();
        let mut i: usize = 0;
        while i < mst.len()
            invariant
                i <= mst@.len(),
                h == eulerian_input_ok(mst@, matching@),
                all == mst@ + matching@,
                forall|t: int| 0 <= t < mst@.len() ==> (#[trigger] mst@[t]).second < bound,
                forall|t: int| 0 <= t < mst@.len() ==> (#[trigger] mst@[t]).first < mst@[t].second,
                forall|t: int| 0 <= t < edges_list@.len()
                    ==> (#[trigger] edges_list@[t]).first < edges_list@[t].second < bound,
                h ==> edges_list@ == mst@.take(i as int),
            decreases mst@.len() - i,
        {
            let e = mst[i];
            if !edge_already_listed(&edges_list, e) {
                edges_list.push(e);
                proof {
                    if h {
                        assert(edges_list@ =~= mst@.take(i + 1));
                    }
                }
            } else {
                proof {
                    if h {
                        let w = choose|w: int| 0 <= w < edges_list@.len() && edges_list@[w] == e;
                        assert(all[w] == all[i as int]);
                        assert(false);
                    }
                }
            }
            i += 1;
        }
        let mut i: usize = 0;
        while i < matching.len()
            invariant
                i <= matching@.len(),
                h == eulerian_input_ok(mst@, matching@),
                all == mst@ + matching@,
                forall|t: int| 0 <= t < matching@.len() ==> (#[trigger] matching@[t]).second < bound,
                forall|t: int| 0 <= t < matching@.len()
                    ==> (#[trigger] matching@[t]).first < matching@[t].second,
                forall|t: int| 0 <= t < edges_list@.len()
                    ==> (#[trigger] edges_list@[t]).first < edges_list@[t].second < bound,
                h ==> edges_list@ == mst@ + matching@.take(i as int),
            decreases matching@.len() - i,
        {
            let e = matching[i];
            if !edge_already_listed(&edges_list, e) {
                edges_list.push(e);
                proof {
                    if h {
                        assert(edges_list@ =~= mst@ + matching@.take(i + 1));
                    }
                }
            } else {
                proof {
                    if h {
                        let w = choose|w: int| 0 <= w < edges_list@.len() && edges_list@[w] == e;
                        assert(all[w] == all[mst@.len() + i]);
                        assert(false);
                    }
                }
            }
            i += 1;
        }
        proof {
            if h {
                assert(matching@.take(matching@.len() as int) =~= matching@);
                assert(edges_list@ == all);
            }
        }

        let m = edges_list.len();

        // per-vertex lists of exactly the incident edge indices
        let mut adj: Vec<Vec<usize>> = Vec::new();
        let mut v: usize = 0;
        while v < bound
            invariant
                v <= bound,
                m == edges_list@.len(),
                adj@.len() == v,
                forall|a: int, k: int| 0 <= a < v && 0 <= k < (#[trigger] adj@[a])@.len()
                    ==> (#[trigger] adj@[a]@[k]) < m,
                forall|a: int| 0 <= a < v ==> adj_row_ok((#[trigger] adj@[a])@, edges_list@, a as usize),
            decreases bound - v,
        {
            let mut row: Vec<usize> = Vec::new();
            let mut idx: usize = 0;
            while idx < m
                invariant
                    idx <= m,
                    m == edges_list@.len(),
                    forall|k: int| 0 <= k < row@.len()
                        ==> (#[trigger] row@[k]) < idx
                            && edges_list@[row@[k] as int].touches(v as usize),
                    forall|e2: int| 0 <= e2 < idx && (#[trigger] edges_list@[e2]).touches(v as usize)
                        ==> row@.contains(e2 as usize),
                decreases m - idx,
            {
                let e = edges_list[idx];
                let ghost row0 = row@;
                if e.first == v || e.second == v {
                    row.push(idx);
                }
                proof {
                    assert forall|e2: int| 0 <= e2 < idx + 1 && (#[trigger] edges_list@[e2]).touches(v as usize)
                        implies row@.contains(e2 as usize)
                    by {
                        if e2 < idx {
                            let t = choose|t: int| 0 <= t < row0.len() && row0[t] == e2 as usize;
                            assert(row@[t] == e2 as usize);
                        } else {
                            assert(row@[row@.len() - 1] == e2 as usize);
                        }
                    }
                }
                idx += 1;
            }
            adj.push(row);
            v += 1;
        }

        let mut used: Vec<bool> = Vec::new();
        let mut idx: usize = 0;
        while idx < m
            invariant
                idx <= m,
                used@.len() == idx,
                forall|k: int| 0 <= k < idx ==> !(#[trigger] used@[k]),
            decreases m - idx,
        {
            used.push(false);
            idx += 1;
        }
        proof {
            lemma_count_true_none(used@);
        }

        let mut cursor: Vec<usize> = Vec::new();
        let mut v: usize = 0;
        while v < bound
            invariant
                v <= bound,
                cursor@.len() == v,
                forall|k: int| 0 <= k < v ==> (#[trigger] cursor@[k]) == 0,
            decreases bound - v,
        {
            cursor.push(0);
            v += 1;
        }

        let ghost lens = Seq::new(bound as nat, |a: int| adj@[a]@.len() as int);

        let start = mst[0].first;
        let mut stack: Vec<ClientId> = Vec::new();
        stack.push(start);
        let mut walk: Vec<ClientId> = Vec::new();

        let ghost mut open_exc: bool = false;
        let ghost mut exc_start: ClientId = 0;
        let ghost mut pending: int = 0;
        let ghost mut slot_edge: Seq<int> = seq![-1int];
        let ghost mut out_edges: Seq<int> = Seq::empty();

        proof {
            if h {
                assert forall|v2: ClientId| #[trigger] unused_degree(edges_list@, used@, v2) % 2 == 0 by {
                    lemma_unused_full(edges_list@, used@, v2, edges_list@.len() as int);
                    assert(edges_list@.take(edges_list@.len() as int) =~= edges_list@);
                    assert(degree(all, v2) % 2 == 0);
                }
            }
        }

        while stack.len() > 0
            invariant
                m == edges_list@.len(),
                adj@.len() == bound,
                used@.len() == m,
                cursor@.len() == bound,
                lens == Seq::new(bound as nat, |a: int| adj@[a]@.len() as int),
                h == eulerian_input_ok(mst@, matching@),
                all == mst@ + matching@,
                start == mst@[0].first,
                h ==> edges_list@ == all,
                forall|a: int, k: int| 0 <= a < bound && 0 <= k < (#[trigger] adj@[a])@.len()
                    ==> (#[trigger] adj@[a]@[k]) < m,
                forall|a: int| 0 <= a < bound ==> adj_row_ok((#[trigger] adj@[a])@, edges_list@, a as usize),
                forall|t: int| 0 <= t < edges_list@.len()
                    ==> (#[trigger] edges_list@[t]).first < edges_list@[t].second < bound,
                forall|k: int| 0 <= k < bound ==> #[trigger] cursor@[k] <= adj@[k]@.len(),
                forall|v2: int, pos: int| 0 <= v2 < bound && 0 <= pos < cursor@[v2]
                    ==> used@[(#[trigger] adj@[v2]@[pos]) as int],
                forall|k: int| 0 <= k < stack@.len() ==> #[trigger] stack@[k] < bound,
                forall|k: int| 0 <= k < walk@.len() ==> #[trigger] walk@[k] < bound,
                slot_edge.len() == stack@.len(),
                forall|t: int| 1 <= t < slot_edge.len()
                    ==> 0 <= #[trigger] slot_edge[t] < m
                        && edges_list@[slot_edge[t]].connects(stack@[t - 1], stack@[t])
                        && used@[slot_edge[t]],
                forall|t1: int, t2: int| 1 <= t1 < t2 < slot_edge.len()
                    ==> #[trigger] slot_edge[t1] != #[trigger] slot_edge[t2],
                out_edges.len() == if walk@.len() == 0 { 0int } else { walk@.len() - 1 },
                forall|k: int| 0 <= k < out_edges.len()
                    ==> 0 <= #[trigger] out_edges[k] < m && used@[out_edges[k]],
                forall|k1: int, k2: int| 0 <= k1 < k2 < out_edges.len()
                    ==> #[trigger] out_edges[k1] != #[trigger] out_edges[k2],
                forall|k: int, t: int| 0 <= k < out_edges.len() && 1 <= t < slot_edge.len()
                    ==> #[trigger] out_edges[k] != #[trigger] slot_edge[t],
                walk@.len() > 0 && stack@.len() > 0 ==> {
                    &&& 0 <= pending < m
                    &&& used@[pending]
                    &&& forall|t: int| 1 <= t < slot_edge.len() ==> #[trigger] slot_edge[t] != pending
                    &&& forall|k: int| 0 <= k < out_edges.len() ==> #[trigger] out_edges[k] != pending
                },
                walk@.len() + stack@.len() == count_true(used@) + 1,
                stack@.len() > 0 ==> stack@[0] == start,
                forall|v2: ClientId| walk@.contains(v2) && !stack@.contains(v2)
                    ==> #[trigger] unused_degree(edges_list@, used@, v2) == 0,
                forall|e2: int| 0 <= e2 < m && (#[trigger] used@[e2])
                    ==> (stack@.contains(edges_list@[e2].first) || walk@.contains(edges_list@[e2].first))
                        && (stack@.contains(edges_list@[e2].second) || walk@.contains(edges_list@[e2].second)),
                h ==> (if open_exc {
                    &&& stack@.len() >= 1
                    &&& exc_start != stack@.last()
                    &&& forall|v2: ClientId| #[trigger] unused_degree(edges_list@, used@, v2) % 2
                            == if v2 == exc_start || v2 == stack@.last() { 1int } else { 0int }
                } else {
                    forall|v2: ClientId| #[trigger] unused_degree(edges_list@, used@, v2) % 2 == 0
                }),
                h && walk@.len() > 0 && stack@.len() > 0
                    ==> edges_list@[pending].connects(
                        walk@.last(),
                        if open_exc { exc_start } else { stack@.last() },
                    ),
                h ==> forall|k: int| 0 <= k < out_edges.len()
                    ==> edges_list@[#[trigger] out_edges[k]].connects(walk@[k], walk@[k + 1]),
                h && !open_exc && walk@.len() == 0 && stack@.len() > 0 ==> stack@.last() == start,
                h && open_exc && walk@.len() == 0 ==> exc_start == start,
                h && walk@.len() > 0 ==> walk@[0] == start,
                h && stack@.len() == 0 ==> walk@.len() > 0 && walk@.last() == start,
            decreases
                m - count_true(used@),
                cursor_slack(lens, cursor@, bound as int),
                stack@.len(),
        {
            proof {
                lemma_count_true_bounds(used@);
                lemma_cursor_slack_nonneg(lens, cursor@, bound as int);
            }
            let top = stack[stack.len() - 1];
            if cursor[top] < adj[top].len() {
                let eidx = adj[top][cursor[top]];
                if used[eidx] {
                    let ghost cur0 = cursor@;
                    cursor.set(top, cursor[top] + 1);
                    proof {
                        lemma_cursor_slack_update(lens, cur0, top as int, (cur0[top as int] + 1) as usize, bound as int);
                    }
                } else {
                    let ghost used0 = used@;
                    let ghost stack0 = stack@;
                    used.set(eidx, true);
                    proof {
                        lemma_count_true_update(used0, eidx as int);
                        lemma_count_true_bounds(used@);
                    }
                    let e = edges_list[eidx];
                    proof {
                        assert(adj_row_ok(adj@[top as int]@, edges_list@, top));
                        assert(edges_list@[eidx as int].touches(top));
                    }
                    let next = if e.first == top {
                        e.second
                    } else {
                        e.first
                    };
                    stack.push(next);
                    proof {
                        assert(e.connects(top, next));
                        assert(top != next);
                        slot_edge = slot_edge.push(eidx as int);
                        lemma_contains_push(stack0, next);
                        assert forall|v2: ClientId|
                            walk@.contains(v2) && !stack@.contains(v2)
                            implies #[trigger] unused_degree(edges_list@, used@, v2) == 0
                        by {
                            assert(!stack0.contains(v2));
                            assert(unused_degree(edges_list@, used0, v2) == 0);
                            lemma_unused_mark(edges_list@, used0, eidx as int, v2);
                            if edges_list@[eidx as int].touches(v2) {
                                lemma_unused_zero(edges_list@, used0, v2, m as int);
                            }
                        }
                        if h {
                            assert forall|v2: ClientId|
                                #[trigger] unused_degree(edges_list@, used@, v2)
                                    == unused_degree(edges_list@, used0, v2)
                                        - if v2 == top || v2 == next { 1int } else { 0int }
                            by {
                                lemma_unused_mark(edges_list@, used0, eidx as int, v2);
                            }
                            if open_exc {
                                if next == exc_start {
                                    open_exc = false;
                                }
                            } else {
                                if walk@.len() == 0 {
                                    assert(top == start);
                                }
                                open_exc = true;
                                exc_start = top;
                            }
                        }
                    }
                }
                proof {
                    lemma_count_true_bounds(used@);
                    lemma_cursor_slack_nonneg(lens, cursor@, bound as int);
                }
            } else {
                let ghost stack0 = stack@;
                let ghost walk0 = walk@;
                let popped = match stack.pop() {
                    Some(popped) => popped,
                    None => {
                        proof {
                            assert(false);
                        }
                        0
                    },
                };
                proof {
                    // the cursor is exhausted, so every incident edge is used
                    assert(cursor@[popped as int] == adj@[popped as int]@.len());
                    assert(adj_row_ok(adj@[popped as int]@, edges_list@, popped));
                    assert forall|e2: int| 0 <= e2 < m && (#[trigger] edges_list@[e2]).touches(popped)
                        implies used@[e2]
                    by {
                        assert(adj@[popped as int]@.contains(e2 as usize));
                        let t = choose|t: int| 0 <= t < adj@[popped as int]@.len()
                            && #[trigger] adj@[popped as int]@[t] == e2 as usize;
                        assert(used@[adj@[popped as int]@[t] as int]);
                    }
                    lemma_unused_zero(edges_list@, used@, popped, m as int);
                    assert(unused_degree(edges_list@, used@, popped) == 0);
                    if h {
                        if open_exc {
                            assert(unused_degree(edges_list@, used@, stack0.last()) % 2 == 1);
                            assert(false);
                        }
                        if walk0.len() == 0 {
                            assert(popped == start);
                        }
                    }
                }
                walk.push(popped);
                proof {
                    lemma_contains_push(walk0, popped);
                    lemma_contains_drop_last(stack0);
                    if walk0.len() > 0 {
                        out_edges = out_edges.push(pending);
                    }
                    pending = slot_edge.last();
                    slot_edge = slot_edge.drop_last();
                    assert forall|v2: ClientId|
                        walk@.contains(v2) && !stack@.contains(v2)
                        implies #[trigger] unused_degree(edges_list@, used@, v2) == 0
                    by {
                        if v2 == popped {
                        } else {
                            assert(walk0.contains(v2));
                            assert(!stack0.contains(v2));
                        }
                    }
                    assert forall|e2: int| 0 <= e2 < m && (#[trigger] used@[e2])
                        implies (stack@.contains(edges_list@[e2].first) || walk@.contains(edges_list@[e2].first))
                            && (stack@.contains(edges_list@[e2].second) || walk@.contains(edges_list@[e2].second))
                    by {
                        if stack0.contains(edges_list@[e2].first) {
                            assert(stack@.contains(edges_list@[e2].first)
                                || edges_list@[e2].first == popped);
                        }
                        if stack0.contains(edges_list@[e2].second) {
                            assert(stack@.contains(edges_list@[e2].second)
                                || edges_list@[e2].second == popped);
                        }
                    }
                }
            }
        }

        proof {
            if h {
                // every listed edge is used: the popped vertices form an
                // edge-closed set containing the depot
                let vset = Set::new(|v2: ClientId| walk@.contains(v2));
                assert(start == 0);
                assert(walk@.contains(0usize)) by {
                    assert(walk@[walk@.len() - 1] == start);
                }
                assert(vset.contains(0));
                assert(edges_closed_under(all, vset)) by {
                    assert forall|j: int| 0 <= j < all.len()
                        implies (vset.contains((#[trigger] all[j]).first)
                            <==> vset.contains(all[j].second))
                    by {
                        if vset.contains(all[j].first) {
                            assert(unused_degree(edges_list@, used@, all[j].first) == 0);
                            lemma_unused_zero(edges_list@, used@, all[j].first, m as int);
                            assert(edges_list@[j].touches(all[j].first));
                            assert(used@[j]);
                            assert(walk@.contains(edges_list@[j].second));
                        }
                        if vset.contains(all[j].second) {
                            assert(unused_degree(edges_list@, used@, all[j].second) == 0);
                            lemma_unused_zero(edges_list@, used@, all[j].second, m as int);
                            assert(edges_list@[j].touches(all[j].second));
                            assert(used@[j]);
                            assert(walk@.contains(edges_list@[j].first));
                        }
                    }
                }
                assert forall|e2: int| 0 <= e2 < m implies #[trigger] used@[e2] by {
                    assert(vset.contains(all[e2].first) && vset.contains(all[e2].second));
                    assert(unused_degree(edges_list@, used@, all[e2].first) == 0);
                    lemma_unused_zero(edges_list@, used@, all[e2].first, m as int);
                    assert(edges_list@[e2].touches(all[e2].first));
                }
                lemma_count_true_all(used@);
                assert(walk@.len() == m + 1);
                assert(m == total);
            }
        }

        // rotate the walk so that the depot leads
        let mut pos: usize = 0;
        let mut found = false;
        let mut i: usize = 0;
        while i < walk.len()
            invariant
                i <= walk@.len(),
                found ==> pos < walk@.len() && walk@[pos as int] == 0
                    && forall|k: int| 0 <= k < pos ==> walk@[k] != 0,
                !found ==> forall|k: int| 0 <= k < i ==> walk@[k] != 0,
            decreases walk@.len() - i,
        {
            if !found && walk[i] == 0 {
                pos = i;
                found = true;
            }
            i += 1;
        }
        if !found {
            proof {
                if h {
                    assert(walk@[walk@.len() - 1] == 0);
                    assert(false);
                }
            }
            return Err(SolveError::EulerianFailed);
        }
        proof {
            if h {
                assert(walk@[0] == start);
                assert(pos == 0);
            }
        }
        let mut rotated: Vec<ClientId> = Vec::new();
        let mut i: usize = pos;
        while i < walk.len()
            invariant
                pos <= i <= walk@.len(),
                pos < walk@.len(),
                walk@[pos as int] == 0,
                forall|k: int| 0 <= k < walk@.len() ==> #[trigger] walk@[k] < bound,
                bound <= MAX_CLIENTS,
                rotated@.len() == i - pos,
                rotated@ == walk@.subrange(pos as int, i as int),
                forall|k: int| 0 <= k < rotated@.len() ==> #[trigger] rotated@[k] < bound,
                rotated@.len() > 0 ==> rotated@[0] == 0,
            decreases walk@.len() - i,
        {
            rotated.push(walk[i]);
            proof {
                assert(rotated@ =~= walk@.subrange(pos as int, i + 1));
            }
            i += 1;
        }
        let mut i: usize = 0;
        while i < pos
            invariant
                i <= pos,
                pos < walk@.len(),
                forall|k: int| 0 <= k < walk@.len() ==> #[trigger] walk@[k] < bound,
                bound <= MAX_CLIENTS,
                rotated@.len() == walk@.len() - pos + i,
                rotated@ == walk@.subrange(pos as int, walk@.len() as int) + walk@.take(i as int),
                forall|k: int| 0 <= k < rotated@.len() ==> #[trigger] rotated@[k] < bound,
                rotated@.len() > 0 ==> rotated@[0] == 0,
            decreases pos - i,
        {
            rotated.push(walk[i]);
            proof {
                assert(rotated@ =~= walk@.subrange(pos as int, walk@.len() as int) + walk@.take(i + 1));
            }
            i += 1;
        }
        proof {
            if h {
                assert(rotated@ =~= walk@);
            }
        }

        // validation: only a genuine Eulerian circuit of the two lists passes
        if rotated.len() != total + 1 {
            proof {
                if h {
                    assert(false);
                }
            }
            return Err(SolveError::EulerianFailed);
        }
        if rotated[0] != 0 {
            proof {
                if h {
                    assert(false);
                }
            }
            return Err(SolveError::EulerianFailed);
        }
        if rotated[rotated.len() - 1] != 0 {
            proof {
                if h {
                    assert(rotated@[rotated@.len() - 1] == walk@[walk@.len() - 1]);
                    assert(false);
                }
            }
            return Err(SolveError::EulerianFailed);
        }
        let mut all_edges: Vec<UnorderedPair> = Vec::new();
        let mut i: usize = 0;
        while i < mst.len()
            invariant
                i <= mst@.len(),
                all_edges@ == mst@.take(i as int),
            decreases mst@.len() - i,
        {
            all_edges.push(mst[i]);
            i += 1;
        }
        proof {
            assert(all_edges@ =~= mst@);
        }
        let mut i: usize = 0;
        while i < matching.len()
            invariant
                i <= matching@.len(),
                all_edges@ == mst@ + matching@.take(i as int),
            decreases matching@.len() - i,
        {
            all_edges.push(matching[i]);
            proof {
                assert(all_edges@ =~= mst@ + matching@.take(i + 1));
            }
            i += 1;
        }
        proof {
            assert(all_edges@ =~= mst@ + matching@);
        }

        let mut marked: Vec<bool> = Vec::new();
        let mut e: usize = 0;
        while e < all_edges.len()
            invariant
                e <= all_edges@.len(),
                marked@.len() == e,
                forall|k: int| 0 <= k < e ==> !(#[trigger] marked@[k]),
            decreases all_edges@.len() - e,
        {
            marked.push(false);
            e += 1;
        }
        let mut asg: Vec<usize> = Vec::new();
        let mut i: usize = 0;
        while i + 1 < rotated.len()
            invariant
                i < rotated@.len(),
                2 <= rotated@.len() <= 2_000_001,
                h == eulerian_input_ok(mst@, matching@),
                all == mst@ + matching@,
                all_edges@ == mst@ + matching@,
                forall|t: int| 0 <= t < all_edges@.len()
                    ==> (#[trigger] all_edges@[t]).first < all_edges@[t].second,
                marked@.len() == all_edges@.len(),
                asg@.len() == i,
                forall|k: int| 0 <= k < i
                    ==> (#[trigger] asg@[k]) < all_edges@.len()
                        && all_edges@[asg@[k] as int].connects(rotated@[k], rotated@[k + 1]),
                forall|x: int| 0 <= x < all_edges@.len()
                    ==> (#[trigger] marked@[x] <==> exists|k: int| 0 <= k < i && asg@[k] == x as usize),
                forall|k1: int, k2: int| 0 <= k1 < k2 < i ==> #[trigger] asg@[k1] != #[trigger] asg@[k2],
                h ==> rotated@ == walk@,
                h ==> out_edges.len() == rotated@.len() - 1,
                h ==> forall|k: int| 0 <= k < out_edges.len()
                    ==> 0 <= #[trigger] out_edges[k] < all_edges@.len()
                        && all_edges@[out_edges[k]].connects(rotated@[k], rotated@[k + 1]),
                h ==> forall|k1: int, k2: int| 0 <= k1 < k2 < out_edges.len()
                    ==> #[trigger] out_edges[k1] != #[trigger] out_edges[k2],
                h ==> forall|k: int| 0 <= k < i ==> (#[trigger] asg@[k]) as int == out_edges[k],
            decreases rotated@.len() - i,
        {
            let mut hit: usize = all_edges.len();
            let mut j: usize = 0;
            while j < all_edges.len()
                invariant
                    j <= all_edges@.len(),
                    marked@.len() == all_edges@.len(),
                    i + 1 < rotated@.len(),
                    rotated@.len() <= 2_000_001,
                    hit == all_edges@.len() || (hit < j
                        && !marked@[hit as int]
                        && all_edges@[hit as int].connects(rotated@[i as int], rotated@[i + 1])),
                    hit == all_edges@.len() ==> forall|j2: int| 0 <= j2 < j
                        ==> marked@[j2] || !(#[trigger] all_edges@[j2]).connects(rotated@[i as int], rotated@[i + 1]),
                decreases all_edges@.len() - j,
            {
                if hit == all_edges.len() && !marked[j] {
                    let ed = all_edges[j];
                    let a = rotated[i];
                    let b = rotated[i + 1];
                    if (ed.first == a && ed.second == b) || (ed.first == b && ed.second == a) {
                        hit = j;
                    }
                }
                j += 1;
            }
            if hit == all_edges.len() {
                proof {
                    if h {
                        let ue = out_edges[i as int];
                        assert(all_edges@[ue].connects(rotated@[i as int], rotated@[i + 1]));
                        assert(!marked@[ue]) by {
                            if marked@[ue] {
                                let k = choose|k: int| 0 <= k < i && #[trigger] asg@[k] == ue as usize;
                                assert(out_edges[k] == ue);
                            }
                        }
                        assert(false);
                    }
                }
                return Err(SolveError::EulerianFailed);
            }
            let ghost asg0 = asg@;
            marked.set(hit, true);
            asg.push(hit);
            proof {
                assert forall|x: int| 0 <= x < all_edges@.len()
                    implies (#[trigger] marked@[x] <==> exists|k: int| 0 <= k < i + 1 && asg@[k] == x as usize)
                by {
                    if x == hit {
                        assert(asg@[i as int] == x as usize);
                    } else {
                        if exists|k: int| 0 <= k < i + 1 && asg@[k] == x as usize {
                            let k = choose|k: int| 0 <= k < i + 1 && #[trigger] asg@[k] == x as usize;
                            if k < i {
                                assert(asg0[k] == x as usize);
                            }
                        }
                        if exists|k: int| 0 <= k < i && asg0[k] == x as usize {
                            let k = choose|k: int| 0 <= k < i && #[trigger] asg0[k] == x as usize;
                            assert(asg@[k] == x as usize);
                        }
                    }
                }
                if h {
                    // the connecting edge of a pair is unique, so the greedy
                    // choice is the construction's own edge
                    let ue = out_edges[i as int];
                    assert(all_edges@[ue].connects(rotated@[i as int], rotated@[i + 1]));
                    assert(all_edges@[hit as int] == all_edges@[ue]);
                    if (hit as int) != ue {
                        if (hit as int) < ue {
                            assert(all[hit as int] != all[ue]);
                        } else {
                            assert(all[ue] != all[hit as int]);
                        }
                        assert(false);
                    }
                }
            }
            i += 1;
        }
        proof {
            assert(i == rotated@.len() - 1);
            assert(asg@.len() == rotated@.len() - 1);
            assert forall|k: int| 0 <= k < rotated@.len() - 1
                implies edge_between(all_edges@, #[trigger] rotated@[k], rotated@[k + 1])
            by {
                assert(all_edges@[asg@[k] as int].connects(rotated@[k], rotated@[k + 1]));
            }
            assert forall|k: int| 0 <= k < asg@.len()
                implies (#[trigger] asg@[k]) < (mst@ + matching@).len()
                    && (mst@ + matching@)[asg@[k] as int].connects(rotated@[k], rotated@[k + 1])
            by {
                assert((#[trigger] asg@[k]) < all_edges@.len());
                assert(all_edges@[asg@[k] as int].connects(rotated@[k], rotated@[k + 1]));
            }
            assert(steps_use_edges_once(rotated@, mst@ + matching@, asg@));
        }

        proof {
            if h {
                assert forall|j2: int| 0 <= j2 < all_edges@.len()
                    implies rotated@.contains((#[trigger] all_edges@[j2]).first)
                        && rotated@.contains(all_edges@[j2].second)
                by {
                    assert(used@[j2]);
                    assert(!stack@.contains(edges_list@[j2].first));
                    assert(!stack@.contains(edges_list@[j2].second));
                    assert(walk@.contains(edges_list@[j2].first));
                    assert(walk@.contains(edges_list@[j2].second));
                }
                assert(covers_endpoints(rotated@, all_edges@));
            }
        }
        let mut j: usize = 0;
        while j < all_edges.len()
            invariant
                j <= all_edges@.len(),
                h == eulerian_input_ok(mst@, matching@),
                all == mst@ + matching@,
                all_edges@ == mst@ + matching@,
                h ==> covers_endpoints(rotated@, all_edges@),
                forall|k: int| 0 <= k < j
                    ==> rotated@.contains((#[trigger] all_edges@[k]).first)
                        && rotated@.contains(all_edges@[k].second),
            decreases all_edges@.len() - j,
        {
            if !find_vertex(&rotated, all_edges[j].first) || !find_vertex(&rotated, all_edges[j].second) {
                proof {
                    if h {
                        assert(rotated@.contains(all_edges@[j as int].first)
                            && rotated@.contains(all_edges@[j as int].second));
                        assert(false);
                    }
                }
                return Err(SolveError::EulerianFailed);
            }
            j += 1;
        }

        Ok(rotated)
    }

    /// Shortcuts an Eulerian tour to a Hamiltonian circuit: keep the first
    /// occurrence of every client, then close the cycle at the depot. Given
    /// a depot-led tour that touches all `n` clients, the circuit visits
    /// every client exactly once and starts and ends at the depot.
    pub fn convert_eulerian_tour_to_circuit(tour: &Vec<ClientId>, n: usize) -> (c: Vec<ClientId>)
        requires
            n >= 1,
            tour@.len() >= 1,
            tour@[0] == 0,
            forall|i: int| 0 <= i < tour@.len() ==> #[trigger] tour@[i] < n,
            forall|v: int| 0 <= v < n ==> #[trigger] tour@.contains(v as usize),
        ensures
            c@ == dedup_first(tour@).push(0),
            c@.len() == n + 1,
            c@[0] == 0,
            c@[n as int] == 0,
            forall|i: int, j: int| 0 <= i < j < n ==> c@[i] != c@[j],
            forall|i: int| 0 <= i < c@.len() ==> #[trigger] c@[i] < n,
            forall|v: int| 0 <= v < n ==> #[trigger] c@.take(n as int).contains(v as usize),
    {
        let mut visited: Vec<bool> = Vec::new();
        let mut v: usize = 0;
        while v < n
            invariant
                v <= n,
                visited@.len() == v,
                forall|k: int| 0 <= k < v ==> !(#[trigger] visited@[k]),
            decreases n - v,
        {
            visited.push(false);
            v += 1;
        }

        let mut circuit: Vec<ClientId> = Vec::new();
        let mut i: usize = 0;
        while i < tour.len()
            invariant
                i <= tour@.len(),
                visited@.len() == n,
                forall|k: int| 0 <= k < tour@.len() ==> #[trigger] tour@[k] < n,
                circuit@ == dedup_first(tour@.take(i as int)),
                forall|w: int| 0 <= w < n
                    ==> (#[trigger] visited@[w] <==> tour@.take(i as int).contains(w as usize)),
            decreases tour@.len() - i,
        {
            let x = tour[i];
            let ghost pre = tour@.take(i as int);
            proof {
                assert(tour@.take(i + 1).drop_last() =~= pre);
                assert(tour@.take(i + 1).last() == tour@[i as int]);
            }
            if !visited[x] {
                circuit.push(x);
                visited.set(x, true);
                proof {
                    assert forall|w: int| 0 <= w < n
                        implies (#[trigger] visited@[w] <==> tour@.take(i + 1).contains(w as usize))
                    by {
                        if w == x {
                            assert(tour@.take(i + 1)[i as int] == x);
                        } else {
                            if tour@.take(i + 1).contains(w as usize) {
                                let j = choose|j: int| 0 <= j < i + 1 && #[trigger] tour@.take(i + 1)[j] == w as usize;
                                assert(pre[j] == w as usize);
                            } else {
                                if pre.contains(w as usize) {
                                    let j = choose|j: int| 0 <= j < i && #[trigger] pre[j] == w as usize;
                                    assert(tour@.take(i + 1)[j] == w as usize);
                                }
                            }
                        }
                    }
                }
            } else {
                proof {
                    assert forall|w: int| 0 <= w < n
                        implies (#[trigger] visited@[w] <==> tour@.take(i + 1).contains(w as usize))
                    by {
                        if w == x {
                            assert(tour@.take(i + 1)[i as int] == x);
                        } else {
                            if tour@.take(i + 1).contains(w as usize) {
                                let j = choose|j: int| 0 <= j < i + 1 && #[trigger] tour@.take(i + 1)[j] == w as usize;
                                assert(pre[j] == w as usize);
                            } else {
                                if pre.contains(w as usize) {
                                    let j = choose|j: int| 0 <= j < i && #[trigger] pre[j] == w as usize;
                                    assert(tour@.take(i + 1)[j] == w as usize);
                                }
                            }
                        }
                    }
                }
            }
            i += 1;
        }
        proof {
            assert(tour@.take(tour@.len() as int) =~= tour@);
            lemma_dedup_first_props(tour@);
            assert forall|k: int| 0 <= k < circuit@.len() implies #[trigger] circuit@[k] < n by {
                assert(circuit@.contains(circuit@[k]));
                assert(tour@.contains(circuit@[k]));
                let j = choose|j: int| 0 <= j < tour@.len() && tour@[j] == circuit@[k];
            }
            lemma_nodup_range_full(circuit@, n as int);
        }
        let ghost base = circuit@;
        circuit.push(0);
        proof {
            assert forall|v2: int| 0 <= v2 < n
                implies #[trigger] circuit@.take(n as int).contains(v2 as usize)
            by {
                assert(tour@.contains(v2 as usize));
                assert(base.contains(v2 as usize));
                let j = choose|j: int| 0 <= j < base.len() && base[j] == v2 as usize;
                assert(circuit@.take(n as int)[j] == v2 as usize);
            }
        }
        circuit
    }

    /// The Christofides-style tour construction: spanning tree, perfect
    /// matching over the odd-degree clients (the handshake lemma shows the
    /// set is even), Eulerian circuit of the union, and shortcut. An `Ok`
    /// tour starts and ends at the depot and visits every other client
    /// exactly once.
    #[verifier::rlimit(100)]
    pub fn chirstofides(&self) -> (r: Result<Vec<ClientId>, SolveError>)
        requires
            self.wf(),
            self.n() >= 2,
        ensures
            match r {
                Ok(t) => {
                    &&& t@.len() == self.n() + 1
                    &&& t@[0] == 0
                    &&& t@[t@.len() - 1] == 0
                    &&& forall|i: int, j: int| 0 <= i < j < self.n() ==> t@[i] != t@[j]
                    &&& forall|i: int| 0 <= i < t@.len() ==> #[trigger] t@[i] < self.n()
                    &&& forall|v: int| 0 <= v < self.n()
                            ==> #[trigger] t@.take(self.n()).contains(v as usize)
                },
                Err(e) => e == SolveError::MatchingFailed || e == SolveError::EulerianFailed,
            },
    {
        let n = self.clients.len();
        let mst = self.mst();

        let mut degrees: Vec<usize> = Vec::new();
        let mut v: usize = 0;
        while v < n
            invariant
                v <= n,
                degrees@.len() == v,
                forall|k: int| 0 <= k < v ==> (#[trigger] degrees@[k]) == 0,
            decreases n - v,
        {
            degrees.push(0);
            v += 1;
        }
        proof {
            assert forall|w: int| 0 <= w < n
                implies (#[trigger] degrees@[w]) as int == degree(mst@.take(0), w as usize)
            by {
                assert(mst@.take(0) =~= Seq::<UnorderedPair>::empty());
            }
        }
        let mut i: usize = 0;
        while i < mst.len()
            invariant
                i <= mst@.len(),
                n == self.n(),
                mst@.len() == n - 1,
                degrees@.len() == n,
                forall|t: int| 0 <= t < mst@.len() ==> edge_valid(#[trigger] mst@[t], n as int),
                forall|w: int| 0 <= w < n ==> (#[trigger] degrees@[w]) <= i,
                forall|w: int| 0 <= w < n
                    ==> (#[trigger] degrees@[w]) as int == degree(mst@.take(i as int), w as usize),
            decreases mst@.len() - i,
        {
            let e = mst[i];
            let ghost deg0 = degrees@;
            let df = degrees[e.first];
            degrees.set(e.first, df + 1);
            let ds = degrees[e.second];
            degrees.set(e.second, ds + 1);
            proof {
                assert(mst@.take(i + 1).drop_last() =~= mst@.take(i as int));
                assert(mst@.take(i + 1).last() == e);
                assert forall|w: int| 0 <= w < n
                    implies (#[trigger] degrees@[w]) as int == degree(mst@.take(i + 1), w as usize)
                by {
                    assert(degree(mst@.take(i + 1), w as usize)
                        == degree(mst@.take(i as int), w as usize)
                            + if e.touches(w as usize) { 1int } else { 0int });
                }
            }
            i += 1;
        }
        proof {
            assert(mst@.take(mst@.len() as int) =~= mst@);
        }

        let mut odd: Vec<ClientId> = Vec::new();
        let mut v: usize = 0;
        while v < n
            invariant
                v <= n,
                n == self.n(),
                degrees@.len() == n,
                forall|w: int| 0 <= w < n
                    ==> (#[trigger] degrees@[w]) as int == degree(mst@, w as usize),
                odd@.len() == count_true(degree_parities(mst@, n as int).take(v as int)),
                odd@.len() <= v,
                forall|k: int| 0 <= k < odd@.len() ==> (#[trigger] odd@[k]) < v,
                forall|k1: int, k2: int| 0 <= k1 < k2 < odd@.len()
                    ==> (#[trigger] odd@[k1]) < (#[trigger] odd@[k2]),
            decreases n - v,
        {
            let ghost par = degree_parities(mst@, n as int);
            proof {
                assert(par.take(v + 1).drop_last() =~= par.take(v as int));
                assert(par.take(v + 1).last() == par[v as int]);
                assert(par[v as int] == (degree(mst@, v as usize) % 2 == 1));
            }
            if degrees[v] % 2 == 1 {
                odd.push(v);
            }
            v += 1;
        }
        proof {
            assert(degree_parities(mst@, n as int).take(n as int) =~= degree_parities(mst@, n as int));
            lemma_odd_degree_count_even(mst@, n as int);
        }

        let matching = match self.find_minimum_weight_matching(&odd) {
            Ok(matching) => matching,
            Err(e) => {
                return Err(e);
            },
        };

        proof {
            assert forall|t: int| 0 <= t < mst@.len()
                implies edge_valid(#[trigger] mst@[t], MAX_CLIENTS as int)
            by {
                assert(edge_valid(mst@[t], n as int));
            }
            assert forall|t: int| 0 <= t < matching@.len()
                implies edge_valid(#[trigger] matching@[t], MAX_CLIENTS as int)
            by {
                assert(edge_valid(matching@[t], n as int));
            }
            assert(matching@.len() * 2 == odd@.len());
        }
        let tour = match Self::find_eulerian_tour(&mst, &matching) {
            Ok(tour) => tour,
            Err(e) => {
                return Err(e);
            },
        };

        proof {
            lemma_walk_vertices(mst@, matching@, tour@, n as int);
        }

        let circuit = Self::convert_eulerian_tour_to_circuit(&tour, n);
        Ok(circuit)
    }
}

} // verus!
