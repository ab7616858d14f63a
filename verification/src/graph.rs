//! Hop counts between all pairs of nodes of a directed graph.
//!
//! Nodes are the integers below `n`, an edge is a pair of nodes, and a walk is a
//! sequence of nodes in which each is joined to the next by an edge. The hop matrix
//! holds, for each pair, the length of the shortest walk, or `FAR` where there is none.

use vstd::prelude::*;

verus! {

/// The entry that stands for "no walk": large, and two of them still add up in `i32`.
pub const FAR: i32 = 1_073_741_823;

/// Whether `edges` holds the edge from `u` to `v`.
pub open spec fn has_edge(edges: Seq<(usize, usize)>, u: int, v: int) -> bool {
    exists|e: int| 0 <= e < edges.len() && (#[trigger] edges[e]).0 == u && edges[e].1 == v
}

/// Whether each edge has its reverse among the edges too.
pub open spec fn symmetric(edges: Seq<(usize, usize)>) -> bool {
    forall|u: int, v: int| #[trigger] has_edge(edges, u, v) ==> has_edge(edges, v, u)
}

/// Whether both ends of every edge are nodes.
pub open spec fn edges_within(edges: Seq<(usize, usize)>, n: int) -> bool {
    forall|e: int| 0 <= e < edges.len() ==> (#[trigger] edges[e]).0 < n && edges[e].1 < n
}

/// Whether `w` is a walk: at least one node, all below `n`, each joined to the next.
pub open spec fn is_walk(edges: Seq<(usize, usize)>, n: int, w: Seq<int>) -> bool {
    &&& w.len() >= 1
    &&& forall|a: int| 0 <= a < w.len() ==> 0 <= #[trigger] w[a] < n
    &&& forall|a: int| 0 <= a < w.len() - 1 ==> #[trigger] has_edge(edges, w[a], w[a + 1])
}

/// The number of edges that a walk takes.
pub open spec fn hops(w: Seq<int>) -> int {
    w.len() - 1
}

/// Whether every node of `w` but its two ends is below `k`.
pub open spec fn inner_below(w: Seq<int>, k: int) -> bool {
    forall|a: int| 0 < a < w.len() - 1 ==> #[trigger] w[a] < k
}

/// Whether `d` has `n` rows of `n` entries.
pub open spec fn square(d: Vec<Vec<i32>>, n: int) -> bool {
    &&& d@.len() == n
    &&& forall|i: int| 0 <= i < n ==> (#[trigger] d@[i])@.len() == n
}

/// Whether every entry lies between 0 and `FAR`.
pub open spec fn bounded(d: Vec<Vec<i32>>, n: int) -> bool {
    forall|i: int, j: int| 0 <= i < n && 0 <= j < n ==> 0 <= #[trigger] d@[i]@[j] <= FAR
}

/// Whether every entry below `FAR` is the length of some walk between its two nodes.
pub open spec fn attained(edges: Seq<(usize, usize)>, n: int, d: Vec<Vec<i32>>) -> bool {
    forall|i: int, j: int|
        0 <= i < n && 0 <= j < n && #[trigger] d@[i]@[j] < FAR ==> exists|w: Seq<int>|
            #[trigger] is_walk(edges, n, w) && w[0] == i && w.last() == j && hops(w) == d@[i]@[j]
}

/// Whether no walk whose inner nodes are below `k` is shorter than the entry of its ends.
pub open spec fn least_below(edges: Seq<(usize, usize)>, n: int, d: Vec<Vec<i32>>, k: int) -> bool {
    forall|w: Seq<int>| #[trigger]
        is_walk(edges, n, w) && inner_below(w, k) ==> d@[w[0]]@[w.last()] <= hops(w)
}

/// Whether `d` is the hop matrix of the graph: each entry is the length of a shortest
/// walk from the row's node to the column's node, or `FAR` where no walk shorter than
/// `FAR` joins them.
pub open spec fn is_hop_matrix(edges: Seq<(usize, usize)>, n: int, d: Vec<Vec<i32>>) -> bool {
    &&& square(d, n)
    &&& bounded(d, n)
    &&& attained(edges, n, d)
    &&& forall|w: Seq<int>| #[trigger] is_walk(edges, n, w) ==> d@[w[0]]@[w.last()] <= hops(w)
}

/// Whether the entries before position (`i`, `j`) in row order are no larger than the
/// detour through `k`.
pub open spec fn relaxed_upto(d: Vec<Vec<i32>>, n: int, k: int, i: int, j: int) -> bool {
    forall|a: int, b: int|
        0 <= a < n && 0 <= b < n && (a < i || (a == i && b < j)) ==> #[trigger] d@[a]@[b]
            <= d@[a]@[k] + d@[k]@[b]
}

/// Whether `cur` is `prev` with the entry at (`i`, `j`) replaced by `x`.
pub open spec fn entry_set(prev: Vec<Vec<i32>>, cur: Vec<Vec<i32>>, i: int, j: int, x: i32) -> bool {
    &&& cur@.len() == prev@.len()
    &&& cur@[i]@ == prev@[i]@.update(j, x)
    &&& forall|a: int| 0 <= a < prev@.len() && a != i ==> #[trigger] cur@[a] == prev@[a]
}

/// Two walks that meet end to start make one walk, as long as both together.
pub proof fn lemma_join(edges: Seq<(usize, usize)>, n: int, w1: Seq<int>, w2: Seq<int>)
    requires
        is_walk(edges, n, w1),
        is_walk(edges, n, w2),
        w1.last() == w2[0],
    ensures
        is_walk(edges, n, w1 + w2.skip(1)),
        (w1 + w2.skip(1))[0] == w1[0],
        (w1 + w2.skip(1)).last() == w2.last(),
        hops(w1 + w2.skip(1)) == hops(w1) + hops(w2),
{
    let w = w1 + w2.skip(1);
    assert forall|a: int| 0 <= a < w.len() implies 0 <= #[trigger] w[a] < n by {
        if a < w1.len() {
            assert(w[a] == w1[a]);
        } else {
            assert(w[a] == w2[a - w1.len() + 1]);
        }
    }
    assert forall|a: int| 0 <= a < w.len() - 1 implies #[trigger] has_edge(
        edges,
        w[a],
        w[a + 1],
    ) by {
        if a + 1 < w1.len() {
            assert(has_edge(edges, w1[a], w1[a + 1]));
        } else {
            let b = a - w1.len() + 1;
            assert(w[a + 1] == w2[b + 1]);
            assert(w[a] == w2[b]);
            assert(has_edge(edges, w2[b], w2[b + 1]));
        }
    }
    if w2.len() == 1 {
        assert(w =~= w1);
    } else {
        assert(w.last() == w2[w2.len() - 1]);
    }
}

/// A walk cut at an inner node gives two walks.
pub proof fn lemma_split(edges: Seq<(usize, usize)>, n: int, w: Seq<int>, m: int, k: int)
    requires
        is_walk(edges, n, w),
        0 < m < w.len() - 1,
        inner_below(w, k),
    ensures
        is_walk(edges, n, w.take(m + 1)),
        is_walk(edges, n, w.skip(m)),
        inner_below(w.take(m + 1), k),
        inner_below(w.skip(m), k),
{
    let w1 = w.take(m + 1);
    let w2 = w.skip(m);
    assert forall|a: int| 0 <= a < w1.len() - 1 implies #[trigger] has_edge(
        edges,
        w1[a],
        w1[a + 1],
    ) by {
        assert(has_edge(edges, w[a], w[a + 1]));
    }
    assert forall|a: int| 0 <= a < w2.len() - 1 implies #[trigger] has_edge(
        edges,
        w2[a],
        w2[a + 1],
    ) by {
        assert(has_edge(edges, w[a + m], w[a + m + 1]));
    }
    assert forall|a: int| 0 < a < w1.len() - 1 implies #[trigger] w1[a] < k by {
        assert(w1[a] == w[a]);
    }
    assert forall|a: int| 0 < a < w2.len() - 1 implies #[trigger] w2[a] < k by {
        assert(w2[a] == w[a + m]);
    }
}

/// Once every entry is no larger than its detour through `k`, walks may pass through
/// `k` as well and are still no shorter than the entry of their ends.
pub proof fn lemma_level_up(
    edges: Seq<(usize, usize)>,
    n: int,
    d: Vec<Vec<i32>>,
    k: int,
    w: Seq<int>,
)
    requires
        0 <= k < n,
        square(d, n),
        least_below(edges, n, d, k),
        relaxed_upto(d, n, k, n, 0),
        is_walk(edges, n, w),
        inner_below(w, k + 1),
    ensures
        d@[w[0]]@[w.last()] <= hops(w),
    decreases w.len(),
{
    if !inner_below(w, k) {
        let m = choose|m: int| 0 < m < w.len() - 1 && !(#[trigger] w[m] < k);
        assert(w[m] < k + 1);
        lemma_split(edges, n, w, m, k + 1);
        let w1 = w.take(m + 1);
        let w2 = w.skip(m);
        lemma_level_up(edges, n, d, k, w1);
        lemma_level_up(edges, n, d, k, w2);
        assert(w1[0] == w[0] && w1.last() == k);
        assert(w2[0] == k && w2.last() == w.last());
        let i = w[0];
        let j = w.last();
        assert(0 <= i < n && 0 <= j < n);
        assert(d@[i]@[j] <= d@[i]@[k] + d@[k]@[j]);
    }
}

/// A walk read from its end to its start.
pub open spec fn backwards(w: Seq<int>) -> Seq<int> {
    Seq::new(w.len(), |a: int| w[w.len() - 1 - a])
}

/// Where every edge runs both ways, a walk read backwards is a walk.
pub proof fn lemma_backwards(edges: Seq<(usize, usize)>, n: int, w: Seq<int>)
    requires
        symmetric(edges),
        is_walk(edges, n, w),
    ensures
        is_walk(edges, n, backwards(w)),
        backwards(w)[0] == w.last(),
        backwards(w).last() == w[0],
        hops(backwards(w)) == hops(w),
{
    let r = backwards(w);
    assert forall|a: int| 0 <= a < r.len() - 1 implies #[trigger] has_edge(edges, r[a], r[a + 1]) by {
        let b = w.len() - 2 - a;
        assert(has_edge(edges, w[b], w[b + 1]));
        assert(r[a] == w[b + 1] && r[a + 1] == w[b]);
    }
}

/// Every node is zero hops away from itself.
pub proof fn lemma_self_distance(edges: Seq<(usize, usize)>, n: int, d: Vec<Vec<i32>>, i: int)
    requires
        is_hop_matrix(edges, n, d),
        0 <= i < n,
    ensures
        d@[i]@[i] == 0,
{
    let w = seq![i];
    assert(is_walk(edges, n, w));
    assert(w[0] == i && w.last() == i);
}

/// Where every edge runs both ways, two nodes are as many hops apart in one direction
/// as in the other.
pub proof fn lemma_symmetric_distance(
    edges: Seq<(usize, usize)>,
    n: int,
    d: Vec<Vec<i32>>,
    i: int,
    j: int,
)
    requires
        is_hop_matrix(edges, n, d),
        symmetric(edges),
        0 <= i < n,
        0 <= j < n,
    ensures
        d@[i]@[j] == d@[j]@[i],
{
    assert(0 <= d@[i]@[j] <= FAR && 0 <= d@[j]@[i] <= FAR);
    if d@[i]@[j] < FAR {
        let w = choose|w: Seq<int>| #[trigger]
            is_walk(edges, n, w) && w[0] == i && w.last() == j && hops(w) == d@[i]@[j];
        lemma_backwards(edges, n, w);
        assert(d@[j]@[i] <= hops(backwards(w)));
    }
    if d@[j]@[i] < FAR {
        let w = choose|w: Seq<int>| #[trigger]
            is_walk(edges, n, w) && w[0] == j && w.last() == i && hops(w) == d@[j]@[i];
        lemma_backwards(edges, n, w);
        assert(d@[i]@[j] <= hops(backwards(w)));
    }
}

/// Going through a third node is never shorter than the hop count itself.
pub proof fn lemma_triangle(
    edges: Seq<(usize, usize)>,
    n: int,
    d: Vec<Vec<i32>>,
    i: int,
    j: int,
    k: int,
)
    requires
        is_hop_matrix(edges, n, d),
        0 <= i < n,
        0 <= j < n,
        0 <= k < n,
    ensures
        d@[i]@[j] <= d@[i]@[k] + d@[k]@[j],
{
    assert(0 <= d@[i]@[j] <= FAR && 0 <= d@[i]@[k] <= FAR && 0 <= d@[k]@[j] <= FAR);
    if d@[i]@[k] < FAR && d@[k]@[j] < FAR {
        let w1 = choose|w: Seq<int>| #[trigger]
            is_walk(edges, n, w) && w[0] == i && w.last() == k && hops(w) == d@[i]@[k];
        let w2 = choose|w: Seq<int>| #[trigger]
            is_walk(edges, n, w) && w[0] == k && w.last() == j && hops(w) == d@[k]@[j];
        lemma_join(edges, n, w1, w2);
        assert(d@[i]@[j] <= hops(w1 + w2.skip(1)));
    }
}

/// The matrix before any detour is tried: 0 on the diagonal, 1 along an edge, and
/// `FAR` elsewhere.
pub open spec fn is_direct(edges: Seq<(usize, usize)>, n: int, d: Vec<Vec<i32>>) -> bool {
    &&& square(d, n)
    &&& forall|i: int, j: int|
        0 <= i < n && 0 <= j < n ==> #[trigger] d@[i]@[j] == if i == j {
            0i32
        } else if has_edge(edges, i, j) {
            1i32
        } else {
            FAR
        }
}

/// The matrix of direct hops is attained by walks of one edge or none, and no walk
/// without inner nodes is shorter than its entry.
proof fn lemma_direct(edges: Seq<(usize, usize)>, n: int, d: Vec<Vec<i32>>)
    requires
        is_direct(edges, n, d),
    ensures
        bounded(d, n),
        attained(edges, n, d),
        least_below(edges, n, d, 0),
{
    assert forall|i: int, j: int|
        0 <= i < n && 0 <= j < n && #[trigger] d@[i]@[j] < FAR implies exists|w: Seq<int>|
        #[trigger] is_walk(edges, n, w) && w[0] == i && w.last() == j && hops(w) == d@[i]@[j] by {
        if i == j {
            let w = seq![i];
            assert(is_walk(edges, n, w));
        } else {
            let w = seq![i, j];
            assert(has_edge(edges, i, j));
            assert forall|a: int| 0 <= a < w.len() - 1 implies #[trigger] has_edge(
                edges,
                w[a],
                w[a + 1],
            ) by {
                assert(a == 0);
            }
            assert(is_walk(edges, n, w));
        }
    }
    assert forall|w: Seq<int>| #[trigger]
        is_walk(edges, n, w) && inner_below(w, 0) implies d@[w[0]]@[w.last()] <= hops(w) by {
        assert(0 <= w[0] < n);
        assert(0 <= w[w.len() - 1] < n);
        if w.len() == 2 {
            assert(has_edge(edges, w[0int], w[0int + 1]));
        } else if w.len() > 2 {
            assert(w[1] < 0);
        }
    }
}

/// Lowering one entry to its detour through `k` keeps every entry attained and
/// least among the walks with inner nodes below `k`, and relaxes one entry more.
proof fn lemma_relax(
    edges: Seq<(usize, usize)>,
    n: int,
    prev: Vec<Vec<i32>>,
    cur: Vec<Vec<i32>>,
    k: int,
    i: int,
    j: int,
)
    requires
        0 <= k < n,
        0 <= i < n,
        0 <= j < n,
        square(prev, n),
        bounded(prev, n),
        attained(edges, n, prev),
        least_below(edges, n, prev, k),
        relaxed_upto(prev, n, k, i, j),
        prev@[k]@[k] == 0,
        prev@[i]@[j] > prev@[i]@[k] + prev@[k]@[j],
        entry_set(prev, cur, i, j, (prev@[i]@[k] + prev@[k]@[j]) as i32),
    ensures
        square(cur, n),
        bounded(cur, n),
        attained(edges, n, cur),
        least_below(edges, n, cur, k),
        relaxed_upto(cur, n, k, i, j + 1),
        cur@[k]@[k] == 0,
{
    let x = prev@[i]@[k] + prev@[k]@[j];
    assert(0 <= prev@[i]@[k] && 0 <= prev@[k]@[j] && prev@[i]@[j] <= FAR);
    assert(i != k && j != k);
    assert forall|a: int, b: int| 0 <= a < n && 0 <= b < n implies #[trigger] cur@[a]@[b] == if a
        == i && b == j {
        x
    } else {
        prev@[a]@[b] as int
    } by {
        if a != i {
            assert(cur@[a] == prev@[a]);
        }
    }
    assert forall|a: int| 0 <= a < n implies (#[trigger] cur@[a])@.len() == n by {
        if a != i {
            assert(cur@[a] == prev@[a]);
        }
    }
    assert forall|a: int, b: int| 0 <= a < n && 0 <= b < n implies 0 <= #[trigger] cur@[a]@[b]
        <= FAR by {
        assert(0 <= prev@[a]@[b] <= FAR);
    }
    assert forall|a: int, b: int|
        0 <= a < n && 0 <= b < n && #[trigger] cur@[a]@[b] < FAR implies exists|w: Seq<int>|
        #[trigger] is_walk(edges, n, w) && w[0] == a && w.last() == b && hops(w) == cur@[a]@[b] by {
        if a == i && b == j {
            assert(prev@[i]@[k] < FAR && prev@[k]@[j] < FAR);
            let w1 = choose|w: Seq<int>| #[trigger]
                is_walk(edges, n, w) && w[0] == i && w.last() == k && hops(w) == prev@[i]@[k];
            let w2 = choose|w: Seq<int>| #[trigger]
                is_walk(edges, n, w) && w[0] == k && w.last() == j && hops(w) == prev@[k]@[j];
            lemma_join(edges, n, w1, w2);
        } else {
            assert(prev@[a]@[b] < FAR);
        }
    }
    assert forall|w: Seq<int>| #[trigger]
        is_walk(edges, n, w) && inner_below(w, k) implies cur@[w[0]]@[w.last()] <= hops(w) by {
        assert(0 <= w[0] < n);
        assert(0 <= w[w.len() - 1] < n);
        assert(cur@[w[0]]@[w.last()] <= prev@[w[0]]@[w.last()]);
    }
    assert forall|a: int, b: int|
        0 <= a < n && 0 <= b < n && (a < i || (a == i && b < j + 1)) implies #[trigger] cur@[a]@[b]
        <= cur@[a]@[k] + cur@[k]@[b] by {
        assert(cur@[a]@[k] == prev@[a]@[k]);
        assert(cur@[k]@[b] == prev@[k]@[b]);
        if !(a == i && b == j) {
            assert(prev@[a]@[b] <= prev@[a]@[k] + prev@[k]@[b]);
        }
    }
}

/// Builds the matrix of direct hops: 0 from a node to itself, 1 along an edge.
pub fn direct_hops(edges: &Vec<(usize, usize)>, n_nodes: usize) -> (d: Vec<Vec<i32>>)
    requires
        edges_within(edges@, n_nodes as int),
    ensures
        is_direct(edges@, n_nodes as int, d),
{
    let mut dist: Vec<Vec<i32>> = vec![vec![FAR; n_nodes]; n_nodes];
    let ghost n = n_nodes as int;
    assert(square(dist, n));
    let mut e: usize = 0;
    while e < edges.len()
        invariant
            n == n_nodes,
            e <= edges@.len(),
            edges_within(edges@, n),
            square(dist, n),
            forall|i: int, j: int|
                0 <= i < n && 0 <= j < n ==> #[trigger] dist@[i]@[j] == if has_edge(
                    edges@.take(e as int),
                    i,
                    j,
                ) {
                    1i32
                } else {
                    FAR
                },
        decreases edges@.len() - e,
    {
        let (u, v) = edges[e];
        let ghost prev = dist;
        assert(edges@[e as int].0 < n && edges@[e as int].1 < n);
        dist[u][v] = 1;
        proof {
            let before = edges@.take(e as int);
            let after = edges@.take(e + 1);
            assert forall|i: int, j: int| 0 <= i < n && 0 <= j < n implies (has_edge(after, i, j)
                <==> (has_edge(before, i, j) || (i == u && j == v))) by {
                if has_edge(after, i, j) {
                    let x = choose|x: int|
                        0 <= x < after.len() && (#[trigger] after[x]).0 == i && after[x].1 == j;
                    if x < e {
                        assert(before[x] == after[x]);
                    }
                }
                if has_edge(before, i, j) {
                    let x = choose|x: int|
                        0 <= x < before.len() && (#[trigger] before[x]).0 == i && before[x].1 == j;
                    assert(after[x] == before[x]);
                }
                if i == u && j == v {
                    assert(after[e as int] == edges@[e as int]);
                }
            }
            assert forall|i: int| 0 <= i < n implies (#[trigger] dist@[i])@.len() == n by {
                assert(prev@[i]@.len() == n);
            }
            assert forall|i: int, j: int| 0 <= i < n && 0 <= j < n implies #[trigger] dist@[i]@[j]
                == if has_edge(after, i, j) {
                1i32
            } else {
                FAR
            } by {
                if !(i == u && j == v) {
                    assert(dist@[i]@[j] == prev@[i]@[j]);
                }
            }
        }
        e += 1;
    }
    assert(edges@.take(e as int) =~= edges@);
    let mut v: usize = 0;
    while v < n_nodes
        invariant
            n == n_nodes,
            v <= n_nodes,
            square(dist, n),
            forall|i: int, j: int|
                0 <= i < n && 0 <= j < n ==> #[trigger] dist@[i]@[j] == if i == j && i < v {
                    0i32
                } else if has_edge(edges@, i, j) {
                    1i32
                } else {
                    FAR
                },
        decreases n_nodes - v,
    {
        let ghost prev = dist;
        assert(dist@[v as int]@.len() == n);
        dist[v][v] = 0;
        proof {
            assert forall|i: int| 0 <= i < n implies (#[trigger] dist@[i])@.len() == n by {
                assert(prev@[i]@.len() == n);
            }
            assert forall|i: int, j: int| 0 <= i < n && 0 <= j < n implies #[trigger] dist@[i]@[j]
                == if i == j && i < v + 1 {
                0i32
            } else if has_edge(edges@, i, j) {
                1i32
            } else {
                FAR
            } by {
                if !(i == v && j == v) {
                    assert(dist@[i]@[j] == prev@[i]@[j]);
                }
            }
        }
        v += 1;
    }
    dist
}

/// Computes the hop matrix of the graph with nodes `0..n_nodes` and the given edges.
pub fn min_dists(edges: Vec<(usize, usize)>, n_nodes: usize) -> (d: Vec<Vec<i32>>)
    requires
        edges_within(edges@, n_nodes as int),
    ensures
        is_hop_matrix(edges@, n_nodes as int, d),
{
    let mut dist: Vec<Vec<i32>> = direct_hops(&edges, n_nodes);
    let ghost n = n_nodes as int;
    let ghost es = edges@;
    proof {
        lemma_direct(es, n, dist);
    }
    let mut k: usize = 0;
    while k < n_nodes
        invariant
            n == n_nodes,
            es == edges@,
            k <= n_nodes,
            square(dist, n),
            bounded(dist, n),
            attained(es, n, dist),
            least_below(es, n, dist, k as int),
        decreases n_nodes - k,
    {
        proof {
            let w = seq![k as int];
            assert(is_walk(es, n, w) && inner_below(w, k as int));
            assert(dist@[k as int]@[k as int] == 0);
        }
        let mut i: usize = 0;
        while i < n_nodes
            invariant
                n == n_nodes,
                k < n_nodes,
                i <= n_nodes,
                square(dist, n),
                bounded(dist, n),
                attained(es, n, dist),
                least_below(es, n, dist, k as int),
                relaxed_upto(dist, n, k as int, i as int, 0),
                dist@[k as int]@[k as int] == 0,
            decreases n_nodes - i,
        {
            let mut j: usize = 0;
            while j < n_nodes
                invariant
                    n == n_nodes,
                    k < n_nodes,
                    i < n_nodes,
                    j <= n_nodes,
                    square(dist, n),
                    bounded(dist, n),
                    attained(es, n, dist),
                    least_below(es, n, dist, k as int),
                    relaxed_upto(dist, n, k as int, i as int, j as int),
                    dist@[k as int]@[k as int] == 0,
                decreases n_nodes - j,
            {
                assert(dist@[i as int]@.len() == n && dist@[k as int]@.len() == n);
                assert(0 <= dist@[i as int]@[k as int] <= FAR);
                assert(0 <= dist@[k as int]@[j as int] <= FAR);
                let through: i32 = dist[i][k] + dist[k][j];
                if dist[i][j] > through {
                    let ghost prev = dist;
                    dist[i][j] = through;
                    proof {
                        lemma_relax(es, n, prev, dist, k as int, i as int, j as int);
                    }
                }
                j += 1;
            }
            i += 1;
        }
        proof {
            assert forall|w: Seq<int>| #[trigger]
                is_walk(es, n, w) && inner_below(w, k + 1) implies dist@[w[0]]@[w.last()] <= hops(
                w,
            ) by {
                lemma_level_up(es, n, dist, k as int, w);
            }
        }
        k += 1;
    }
    proof {
        assert forall|w: Seq<int>| #[trigger] is_walk(es, n, w) implies dist@[w[0]]@[w.last()]
            <= hops(w) by {
            assert(inner_below(w, n));
        }
    }
    dist
}

} // verus!
