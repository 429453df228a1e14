use vstd::prelude::*;
use std::collections::HashMap;
use blossom::graph::AnnotatedGraph;

verus! {

/// Relies on blossom's `WeightedGraph::maximin_matching`, called on an
/// `AnnotatedGraph` with `u64` edge weights: it returns `Some` of a set of
/// matched endpoint pairs, or `None` when no full matching exists. The
/// adjacency must describe a complete graph on pairwise-distinct vertices
/// (with no vertex alone), which is what the algorithm's internal lookups
/// and recursion need. Nothing is assumed about the returned pairs; the
/// caller checks them itself.
#[verifier::external_body]
fn maximin_matching_call(adjacency: &Vec<(usize, Vec<usize>, Vec<u64>)>) -> (m: Option<Vec<(usize, usize)>>)
    requires
        adjacency@.len() != 1,
        forall|i: int| 0 <= i < adjacency@.len()
            ==> (#[trigger] adjacency@[i]).1@.len() == adjacency@.len() - 1,
        forall|i: int| 0 <= i < adjacency@.len()
            ==> (#[trigger] adjacency@[i]).2@.len() == adjacency@.len() - 1,
        forall|i: int, j: int| 0 <= i < j < adjacency@.len()
            ==> (#[trigger] adjacency@[i]).0 != (#[trigger] adjacency@[j]).0,
        forall|i: int, j: int| 0 <= i < adjacency@.len() && 0 <= j < adjacency@.len() && i != j
            ==> (#[trigger] adjacency@[i]).1@.contains((#[trigger] adjacency@[j]).0),
        forall|i: int, k: int| 0 <= i < adjacency@.len() && 0 <= k < adjacency@.len() - 1
            ==> (#[trigger] adjacency@[i].1@[k]) != adjacency@[i].0,
{
    let mut edges = HashMap::new();
    for entry in adjacency.iter() {
        edges.insert(entry.0, (entry.1.clone(), entry.2.clone()));
    }
    let graph: AnnotatedGraph<u64> = AnnotatedGraph::new(edges);
    graph.maximin_matching().map(|matching| matching.edges())
}

/// Calls the matching capability on the given vertices with the given
/// pairwise weights, handing back the raw endpoint pairs. The adjacency
/// lists are built here, in verified code; only the call is trusted.
pub(crate) fn raw_weighted_matching(subset: &Vec<usize>, weights: &Vec<Vec<u64>>) -> (m: Option<Vec<(usize, usize)>>)
    requires
        subset@.len() != 1,
        forall|i: int, j: int| 0 <= i < j < subset@.len() ==> subset@[i] != subset@[j],
        weights@.len() >= subset@.len(),
        forall|i: int| 0 <= i < weights@.len()
            ==> (#[trigger] weights@[i])@.len() == weights@.len(),
        forall|i: int| 0 <= i < subset@.len() ==> #[trigger] subset@[i] < weights@.len(),
{
    let len = subset.len();
    let mut adjacency: Vec<(usize, Vec<usize>, Vec<u64>)> = Vec::new();
    let mut i: usize = 0;
    while i < len
        invariant
            i <= len,
            len == subset@.len(),
            forall|a: int, b: int| 0 <= a < b < len ==> subset@[a] != subset@[b],
            weights@.len() >= len,
            forall|a: int| 0 <= a < weights@.len()
                ==> (#[trigger] weights@[a])@.len() == weights@.len(),
            forall|a: int| 0 <= a < len ==> #[trigger] subset@[a] < weights@.len(),
            adjacency@.len() == i,
            forall|a: int| 0 <= a < i ==> (#[trigger] adjacency@[a]).0 == subset@[a],
            forall|a: int| 0 <= a < i ==> (#[trigger] adjacency@[a]).1@.len() == len - 1,
            forall|a: int| 0 <= a < i ==> (#[trigger] adjacency@[a]).2@.len() == len - 1,
            forall|a: int, k: int| 0 <= a < i && 0 <= k < len - 1
                ==> (#[trigger] adjacency@[a].1@[k]) == subset@[if k < a { k } else { k + 1 }],
        decreases len - i,
    {
        let mut others: Vec<usize> = Vec::new();
        let mut ws: Vec<u64> = Vec::new();
        let mut k: usize = 0;
        while k < len
            invariant
                k <= len,
                i < len,
                len == subset@.len(),
                weights@.len() >= len,
                forall|a: int| 0 <= a < weights@.len()
                    ==> (#[trigger] weights@[a])@.len() == weights@.len(),
                forall|a: int| 0 <= a < len ==> #[trigger] subset@[a] < weights@.len(),
                others@.len() == if k <= i { k as int } else { k - 1 },
                ws@.len() == others@.len(),
                forall|m: int| 0 <= m < others@.len()
                    ==> #[trigger] others@[m] == subset@[if m < i { m } else { m + 1 }],
            decreases len - k,
        {
            if k != i {
                others.push(subset[k]);
                ws.push(weights[subset[i]][subset[k]]);
            }
            k += 1;
        }
        adjacency.push((subset[i], others, ws));
        i += 1;
    }

    proof {
        assert forall|a: int, b: int|
            0 <= a < adjacency@.len() && 0 <= b < adjacency@.len() && a != b
            implies (#[trigger] adjacency@[a]).1@.contains((#[trigger] adjacency@[b]).0)
        by {
            let k: int = if b < a { b } else { b - 1 };
            assert(adjacency@[a].1@[k] == subset@[b]);
        }
        assert forall|a: int, k: int|
            0 <= a < adjacency@.len() && 0 <= k < adjacency@.len() - 1
            implies (#[trigger] adjacency@[a].1@[k]) != adjacency@[a].0
        by {
            let src: int = if k < a { k } else { k + 1 };
            assert(adjacency@[a].1@[k] == subset@[src]);
            assert(src != a);
        }
        assert forall|a: int, b: int| 0 <= a < b < adjacency@.len()
            implies (#[trigger] adjacency@[a]).0 != (#[trigger] adjacency@[b]).0
        by {
            assert(subset@[a] != subset@[b]);
        }
    }
    maximin_matching_call(&adjacency)
}

} // verus!
